//! Reading a schema from its JSON form (JSON Schema keywords), with the
//! literal prefix and suffix of a `pattern` extracted for compression.

use vstd::prelude::*;
use vstd::string::StringExecFns;
use vstd::utf8::encode_utf8;
use crate::float64::{f64_whole, saturate_i128, f64_bits_to_i128};
use crate::value::{Number, Value, ValueView, Error, views_of, entry_views_of, lemma_entry_views_of,
    lemma_views_of};
use crate::types::{InstanceType, Schema, SchemaView, SingleOrVec, TypeView, prop_views,
    schema_views, lemma_prop_views};
use crate::spec_dec::key_lt;
use crate::text::{bytes_less, lossy_chars, string_from_utf8_lossy};

verus! {

broadcast use {vstd::utf8::encode_utf8_valid_utf8, vstd::utf8::encode_utf8_decode_utf8};

/// The schema with no keyword: it admits any value.
pub open spec fn empty_view() -> SchemaView {
    SchemaView {
        instance_type: None,
        properties: None,
        required: None,
        minimum: None,
        maximum: None,
        multiple_of: None,
        min_items: None,
        max_items: None,
        min_length: None,
        max_length: None,
        prefix_items: None,
        items: None,
        format: None,
        pattern: None,
        pattern_prefix: None,
        pattern_suffix: None,
        enum_values: None,
        const_value: None,
    }
}

/// The names `m` (sorted, each once) with `k` put in where the order places
/// it.
pub open spec fn name_insert(m: Seq<Seq<char>>, k: Seq<char>) -> Seq<Seq<char>>
    decreases m.len(),
{
    if m.len() == 0 {
        seq![k]
    } else if m[0] == k {
        m
    } else if key_lt(k, m[0]) {
        seq![k] + m
    } else {
        seq![m[0]] + name_insert(m.subrange(1, m.len() as int), k)
    }
}

/// The named schemas `m` (sorted, each name once) with `(k, v)` put in:
/// replacing the one named `k`, or inserted where the order places it.
pub open spec fn prop_insert(m: Seq<(Seq<char>, SchemaView)>, k: Seq<char>, v: SchemaView) -> Seq<(Seq<char>, SchemaView)>
    decreases m.len(),
{
    if m.len() == 0 {
        seq![(k, v)]
    } else if m[0].0 == k {
        seq![(k, v)] + m.subrange(1, m.len() as int)
    } else if key_lt(k, m[0].0) {
        seq![(k, v)] + m
    } else {
        seq![m[0]] + prop_insert(m.subrange(1, m.len() as int), k, v)
    }
}

// ------------------------------------------------------------ pattern

/// Whether a byte is one of `^$.*+?()[]{}|`.
pub open spec fn is_special(c: u8) -> bool {
    c == 94 || c == 36 || c == 46 || c == 42 || c == 43 || c == 63 || c == 40 || c == 41 || c == 91
        || c == 93 || c == 123 || c == 125 || c == 124
}

/// The literal bytes of a pattern from `i` on, up to its first unescaped
/// special character; a backslash takes the next byte literally.
pub open spec fn prefix_scan(b: Seq<u8>, i: int, escaped: bool, acc: Seq<u8>) -> Seq<u8>
    decreases b.len() - i,
{
    if i < 0 || i >= b.len() {
        acc
    } else if escaped {
        prefix_scan(b, i + 1, false, acc.push(b[i]))
    } else if b[i] == 92 {
        prefix_scan(b, i + 1, true, acc)
    } else if is_special(b[i]) {
        acc
    } else {
        prefix_scan(b, i + 1, false, acc.push(b[i]))
    }
}

/// The literal prefix of a pattern anchored with `^`, when not empty.
pub open spec fn pattern_prefix(b: Seq<u8>) -> Option<Seq<u8>> {
    if b.len() > 0 && b[0] == 94 {
        let p = prefix_scan(b, 1, false, Seq::empty());
        if p.len() > 0 {
            Some(p)
        } else {
            None
        }
    } else {
        None
    }
}

/// The number of backslashes right before position `j`.
pub open spec fn backslashes_before(b: Seq<u8>, j: int) -> nat
    decreases j,
{
    if j <= 0 || j > b.len() || b[j - 1] != 92 {
        0
    } else {
        1 + backslashes_before(b, j - 1)
    }
}

/// The literal bytes of a pattern before position `i`, read backwards up to
/// its last unescaped special character; a byte after an odd number of
/// backslashes is literal, and takes one backslash with it.
pub open spec fn suffix_scan(b: Seq<u8>, i: int, acc: Seq<u8>) -> Seq<u8>
    decreases i,
{
    if i <= 0 || i > b.len() {
        acc
    } else {
        let j = i - 1;
        if backslashes_before(b, j) % 2 == 1 {
            suffix_scan(b, j - 1, seq![b[j]] + acc)
        } else if is_special(b[j]) {
            acc
        } else {
            suffix_scan(b, j, seq![b[j]] + acc)
        }
    }
}

/// The literal suffix of a pattern anchored with `$`, when not empty.
pub open spec fn pattern_suffix(b: Seq<u8>) -> Option<Seq<u8>> {
    if b.len() > 0 && b[b.len() - 1] == 36 {
        let t = b.subrange(0, b.len() - 1);
        let q = suffix_scan(t, t.len() as int, Seq::empty());
        if q.len() > 0 {
            Some(q)
        } else {
            None
        }
    } else {
        None
    }
}

/// Optional bytes as the characters of the string made of them.
pub open spec fn opt_lossy(b: Option<Seq<u8>>) -> Option<Seq<char>> {
    match b {
        Some(x) => Some(lossy_chars(x)),
        None => None,
    }
}

// ------------------------------------------------------------ keywords

/// The instance type a type name stands for.
pub open spec fn instance_type_named(s: Seq<char>) -> Option<InstanceType> {
    if s == "null"@ {
        Some(InstanceType::Null)
    } else if s == "boolean"@ {
        Some(InstanceType::Boolean)
    } else if s == "object"@ {
        Some(InstanceType::Object)
    } else if s == "array"@ {
        Some(InstanceType::Array)
    } else if s == "number"@ {
        Some(InstanceType::Number)
    } else if s == "string"@ {
        Some(InstanceType::String)
    } else if s == "integer"@ {
        Some(InstanceType::Integer)
    } else {
        None
    }
}

/// The name JSON Schema gives each instance type.
pub open spec fn json_type_name(t: InstanceType) -> Seq<char> {
    match t {
        InstanceType::Null => "null"@,
        InstanceType::Boolean => "boolean"@,
        InstanceType::Object => "object"@,
        InstanceType::Array => "array"@,
        InstanceType::Number => "number"@,
        InstanceType::String => "string"@,
        InstanceType::Integer => "integer"@,
    }
}

/// Each type name stands for the instance type of that name, and a name
/// that stands for a type is that type's name.
pub proof fn lemma_type_names(s: Seq<char>, t: InstanceType)
    ensures
        instance_type_named(json_type_name(t)) == Some(t),
        instance_type_named(s) == Some(t) ==> s == json_type_name(t),
{
    reveal_strlit("null");
    reveal_strlit("boolean");
    reveal_strlit("object");
    reveal_strlit("array");
    reveal_strlit("number");
    reveal_strlit("string");
    reveal_strlit("integer");
    let names = seq!["null"@, "boolean"@, "object"@, "array"@, "number"@, "string"@, "integer"@];
    assert forall|a: int, c: int| 0 <= a < c < 7 implies #[trigger] names[a] != #[trigger] names[c] by {
        if names[a].len() == names[c].len() {
            assert(names[a][0] != names[c][0] || names[a][1] != names[c][1]);
        }
    }
    assert(names[0] != names[4]);
    match t {
        InstanceType::Null => {},
        InstanceType::Boolean => { assert(names[1] != names[0]); },
        InstanceType::Object => { assert(names[2] != names[0] && names[2] != names[1]); },
        InstanceType::Array => { assert(names[3] != names[0] && names[3] != names[1] && names[3] != names[2]); },
        InstanceType::Number => { assert(names[4] != names[0] && names[4] != names[1] && names[4] != names[2] && names[4] != names[3]); },
        InstanceType::String => { assert(names[5] != names[0] && names[5] != names[1] && names[5] != names[2] && names[5] != names[3] && names[5] != names[4]); },
        InstanceType::Integer => { assert(names[6] != names[0] && names[6] != names[1] && names[6] != names[2] && names[6] != names[3] && names[6] != names[4] && names[6] != names[5]); },
    }
}

/// The type names of a `type` array from index `i` on, after `acc`.
pub open spec fn type_list(a: Seq<ValueView>, i: int, acc: Seq<InstanceType>) -> Result<TypeView, Seq<char>>
    decreases a.len() - i,
{
    if i < 0 || i >= a.len() {
        Ok(TypeView::Many(acc))
    } else {
        match a[i] {
            ValueView::String(s) => match instance_type_named(s) {
                Some(t) => type_list(a, i + 1, acc.push(t)),
                None => Err("Unknown type: "@ + s),
            },
            _ => Err("type array must contain strings"@),
        }
    }
}

/// The `type` keyword: a type name, or an array of them.
pub open spec fn parse_type_spec(v: ValueView) -> Result<TypeView, Seq<char>> {
    match v {
        ValueView::String(s) => match instance_type_named(s) {
            Some(t) => Ok(TypeView::Single(t)),
            None => Err("Unknown type: "@ + s),
        },
        ValueView::Array(a) => type_list(a, 0, Seq::empty()),
        _ => Err("type must be a string or array of strings"@),
    }
}

/// The integer a number holds, when it is one (a decimal only at scale 0).
pub open spec fn int_of_number(n: Number) -> Option<i128> {
    match n {
        Number::Int64(x) => Some(x as i128),
        Number::UInt64(x) => Some(x as i128),
        Number::Decimal64(d) => if d.scale == 0 {
            Some(d.value as i128)
        } else {
            None
        },
        Number::Decimal128(d) => if d.scale == 0 {
            Some(d.value)
        } else {
            None
        },
        Number::Float64Bits(_) => None,
    }
}

/// An integer keyword such as `minimum`.
pub open spec fn parse_i128_spec(v: ValueView, field: Seq<char>) -> Result<i128, Seq<char>> {
    match v {
        ValueView::Number(Number::Float64Bits(b)) => match f64_whole(b) {
            Some(x) => Ok(saturate_i128(x)),
            None => Err(field + " must be an integer"@),
        },
        ValueView::Number(n) => match int_of_number(n) {
            Some(i) => Ok(i),
            None => Err(field + " must be an integer"@),
        },
        _ => Err(field + " must be a number"@),
    }
}

/// A count keyword such as `minItems`.
pub open spec fn parse_u64_spec(v: ValueView, field: Seq<char>) -> Result<u64, Seq<char>> {
    match v {
        ValueView::Number(Number::Int64(x)) => if x >= 0 {
            Ok(x as u64)
        } else {
            Err(field + " must be a non-negative integer"@)
        },
        ValueView::Number(Number::UInt64(x)) => Ok(x),
        ValueView::Number(_) => Err(field + " must be a non-negative integer"@),
        _ => Err(field + " must be a number"@),
    }
}

/// The names of a `required` array from index `i` on, put into `acc`.
pub open spec fn names_of(a: Seq<ValueView>, i: int, acc: Seq<Seq<char>>) -> Result<Seq<Seq<char>>, Seq<char>>
    decreases a.len() - i,
{
    if i < 0 || i >= a.len() {
        Ok(acc)
    } else {
        match a[i] {
            ValueView::String(s) => names_of(a, i + 1, name_insert(acc, s)),
            _ => Err("required items must be strings"@),
        }
    }
}

/// A schema read from its JSON form, or the message of the first keyword
/// that fails.
pub open spec fn json_schema(v: ValueView) -> Result<SchemaView, Seq<char>>
    decreases v, 0nat, 0nat,
{
    match v {
        ValueView::Bool(true) => Ok(empty_view()),
        ValueView::Bool(false) => Ok(SchemaView { enum_values: Some(Seq::empty()), ..empty_view() }),
        ValueView::Object(m) => keywords(m, 0, empty_view()),
        _ => Err("Schema must be an object or boolean"@),
    }
}

/// The keywords from index `i` on applied in turn to `acc`.
pub open spec fn keywords(m: Seq<(Seq<char>, ValueView)>, i: int, acc: SchemaView) -> Result<SchemaView, Seq<char>>
    decreases m, 2nat, m.len() - i,
{
    if i < 0 || i >= m.len() {
        Ok(acc)
    } else {
        match keyword(m[i].0, m[i].1, acc) {
            Ok(next) => keywords(m, i + 1, next),
            Err(e) => Err(e),
        }
    }
}

/// The schemas of `properties` from index `j` on, put into `acc`.
pub open spec fn props_schemas(ps: Seq<(Seq<char>, ValueView)>, j: int, acc: Seq<(Seq<char>, SchemaView)>) -> Result<Seq<(Seq<char>, SchemaView)>, Seq<char>>
    decreases ps, 0nat, ps.len() - j,
{
    if j < 0 || j >= ps.len() {
        Ok(acc)
    } else {
        match json_schema(ps[j].1) {
            Ok(sv) => props_schemas(ps, j + 1, prop_insert(acc, ps[j].0, sv)),
            Err(e) => Err(e),
        }
    }
}

/// The schemas of `prefixItems` from index `j` on, after `acc`.
pub open spec fn item_schemas(a: Seq<ValueView>, j: int, acc: Seq<SchemaView>) -> Result<Seq<SchemaView>, Seq<char>>
    decreases a, 0nat, a.len() - j,
{
    if j < 0 || j >= a.len() {
        Ok(acc)
    } else {
        match json_schema(a[j]) {
            Ok(sv) => item_schemas(a, j + 1, acc.push(sv)),
            Err(e) => Err(e),
        }
    }
}

/// A schema whose one keyword is `type` with a type's name has that
/// single instance type; with an array of type names, those types in the
/// array's order.
pub proof fn lemma_type_keyword(t: InstanceType, ts: Seq<InstanceType>)
    ensures
        json_schema(ValueView::Object(seq![("type"@, ValueView::String(json_type_name(t)))])) == Ok::<SchemaView, Seq<char>>(
            SchemaView { instance_type: Some(TypeView::Single(t)), ..empty_view() },
        ),
        json_schema(
            ValueView::Object(seq![("type"@, ValueView::Array(ts.map_values(|x: InstanceType| ValueView::String(json_type_name(x)))))]),
        ) == Ok::<SchemaView, Seq<char>>(SchemaView { instance_type: Some(TypeView::Many(ts)), ..empty_view() }),
{
    lemma_type_names(json_type_name(t), t);
    let m = seq![("type"@, ValueView::String(json_type_name(t)))];
    assert(keywords(m, 1, SchemaView { instance_type: Some(TypeView::Single(t)), ..empty_view() })
        == Ok::<SchemaView, Seq<char>>(SchemaView { instance_type: Some(TypeView::Single(t)), ..empty_view() }));
    let names = ts.map_values(|x: InstanceType| ValueView::String(json_type_name(x)));
    lemma_type_list(names, ts, 0);
    assert(ts.subrange(0, 0) =~= Seq::<InstanceType>::empty());
    assert(ts.subrange(0, ts.len() as int) =~= ts);
    let m2 = seq![("type"@, ValueView::Array(names))];
    assert(keywords(m2, 1, SchemaView { instance_type: Some(TypeView::Many(ts)), ..empty_view() })
        == Ok::<SchemaView, Seq<char>>(SchemaView { instance_type: Some(TypeView::Many(ts)), ..empty_view() }));
}

/// An array of type names, read from index `i` on after the types before
/// it, gives all the types in order.
proof fn lemma_type_list(names: Seq<ValueView>, ts: Seq<InstanceType>, i: int)
    requires
        names == ts.map_values(|x: InstanceType| ValueView::String(json_type_name(x))),
        0 <= i <= ts.len(),
    ensures
        type_list(names, i, ts.subrange(0, i)) == Ok::<TypeView, Seq<char>>(TypeView::Many(ts)),
    decreases ts.len() - i,
{
    if i < ts.len() {
        lemma_type_names(json_type_name(ts[i]), ts[i]);
        assert(names[i] == ValueView::String(json_type_name(ts[i])));
        assert(ts.subrange(0, i).push(ts[i]) =~= ts.subrange(0, i + 1));
        lemma_type_list(names, ts, i + 1);
    } else {
        assert(ts.subrange(0, i) =~= ts);
    }
}

/// One keyword applied to `acc`.
pub open spec fn keyword(k: Seq<char>, val: ValueView, acc: SchemaView) -> Result<SchemaView, Seq<char>>
    decreases val, 1nat, 0nat,
{
    if k == "type"@ {
        match parse_type_spec(val) {
            Ok(t) => Ok(SchemaView { instance_type: Some(t), ..acc }),
            Err(e) => Err(e),
        }
    } else if k == "format"@ {
        match val {
            ValueView::String(s) => Ok(SchemaView { format: Some(s), ..acc }),
            _ => Err("format must be a string"@),
        }
    } else if k == "pattern"@ {
        match val {
            ValueView::String(s) => Ok(
                SchemaView {
                    pattern: Some(s),
                    pattern_prefix: opt_lossy(pattern_prefix(encode_utf8(s))),
                    pattern_suffix: opt_lossy(pattern_suffix(encode_utf8(s))),
                    ..acc
                },
            ),
            _ => Err("pattern must be a string"@),
        }
    } else if k == "properties"@ {
        match val {
            ValueView::Object(ps) => match props_schemas(ps, 0, Seq::empty()) {
                Ok(m) => Ok(SchemaView { properties: Some(m), ..acc }),
                Err(e) => Err(e),
            },
            _ => Err("properties must be an object"@),
        }
    } else if k == "required"@ {
        match val {
            ValueView::Array(a) => match names_of(a, 0, Seq::empty()) {
                Ok(ns) => Ok(SchemaView { required: Some(ns), ..acc }),
                Err(e) => Err(e),
            },
            _ => Err("required must be an array"@),
        }
    } else if k == "minimum"@ {
        match parse_i128_spec(val, k) {
            Ok(x) => Ok(SchemaView { minimum: Some(x), ..acc }),
            Err(e) => Err(e),
        }
    } else if k == "maximum"@ {
        match parse_i128_spec(val, k) {
            Ok(x) => Ok(SchemaView { maximum: Some(x), ..acc }),
            Err(e) => Err(e),
        }
    } else if k == "multipleOf"@ {
        match parse_i128_spec(val, k) {
            Ok(x) => Ok(SchemaView { multiple_of: Some(x), ..acc }),
            Err(e) => Err(e),
        }
    } else if k == "minItems"@ {
        match parse_u64_spec(val, k) {
            Ok(x) => Ok(SchemaView { min_items: Some(x), ..acc }),
            Err(e) => Err(e),
        }
    } else if k == "maxItems"@ {
        match parse_u64_spec(val, k) {
            Ok(x) => Ok(SchemaView { max_items: Some(x), ..acc }),
            Err(e) => Err(e),
        }
    } else if k == "minLength"@ {
        match parse_u64_spec(val, k) {
            Ok(x) => Ok(SchemaView { min_length: Some(x), ..acc }),
            Err(e) => Err(e),
        }
    } else if k == "maxLength"@ {
        match parse_u64_spec(val, k) {
            Ok(x) => Ok(SchemaView { max_length: Some(x), ..acc }),
            Err(e) => Err(e),
        }
    } else if k == "prefixItems"@ {
        match val {
            ValueView::Array(a) => match item_schemas(a, 0, Seq::empty()) {
                Ok(v) => Ok(SchemaView { prefix_items: Some(v), ..acc }),
                Err(e) => Err(e),
            },
            _ => Err("prefixItems must be an array"@),
        }
    } else if k == "items"@ {
        match json_schema(val) {
            Ok(sv) => Ok(SchemaView { items: Some(Box::new(sv)), ..acc }),
            Err(e) => Err(e),
        }
    } else if k == "enum"@ {
        match val {
            ValueView::Array(a) => Ok(SchemaView { enum_values: Some(a), ..acc }),
            _ => Err("enum must be an array"@),
        }
    } else if k == "const"@ {
        Ok(SchemaView { const_value: Some(val), ..acc })
    } else if k == "title"@ || k == "description"@ || k == "examples"@ {
        Ok(acc)
    } else if k == "$schema"@ {
        match val {
            ValueView::String(s) => if s == "https://json-schema.org/draft/2020-12/schema"@ {
                Ok(acc)
            } else {
                Err("Unsupported $schema: "@ + s)
            },
            _ => Err("$schema must be a string"@),
        }
    } else {
        Err("Unsupported keyword: "@ + k)
    }
}

// ------------------------------------------------------------ executable

/// The characters of strings, in order.
pub open spec fn names_view(v: Seq<String>) -> Seq<Seq<char>> {
    v.map_values(|x: String| x@)
}

/// Whether `k` is the word `w`.
fn is_word(k: &str, w: &str) -> (r: bool)
    ensures
        r == (k@ == w@),
{
    let a = k.as_bytes();
    let b = w.as_bytes();
    if a.len() != b.len() {
        return false;
    }
    let mut i: usize = 0;
    while i < a.len()
        invariant
            i <= a@.len(),
            a@.len() == b@.len(),
            a@ == encode_utf8(k@),
            b@ == encode_utf8(w@),
            forall|j: int| 0 <= j < i ==> a@[j] == b@[j],
        decreases a@.len() - i,
    {
        if a[i] != b[i] {
            assert(a@[i as int] != b@[i as int]);
            return false;
        }
        i += 1;
    }
    assert(a@ =~= b@);
    assert(vstd::utf8::decode_utf8(encode_utf8(k@)) == k@);
    assert(vstd::utf8::decode_utf8(encode_utf8(w@)) == w@);
    true
}

/// The error with message `m`.
fn message(m: &str) -> (e: Error)
    ensures
        e matches Error::Message(x) && x@ == m@,
{
    Error::Message(String::from_str(m))
}

/// The error with message `a` followed by `b`.
fn message2(a: &str, b: &str) -> (e: Error)
    ensures
        e matches Error::Message(x) && x@ == a@ + b@,
{
    Error::Message(String::from_str(a).concat(b))
}

/// `name_insert` skips the names before the first one equal to `k` or
/// sorting after it.
proof fn lemma_name_insert_skip(m: Seq<Seq<char>>, k: Seq<char>, j: int)
    requires
        0 <= j <= m.len(),
        forall|i: int| 0 <= i < j ==> m[i] != k && !key_lt(k, #[trigger] m[i]),
    ensures
        name_insert(m, k) == m.subrange(0, j) + name_insert(m.subrange(j, m.len() as int), k),
    decreases j,
{
    if j > 0 {
        let t = m.subrange(1, m.len() as int);
        lemma_name_insert_skip(t, k, j - 1);
        assert(t.subrange(0, j - 1) =~= m.subrange(1, j));
        assert(t.subrange(j - 1, t.len() as int) =~= m.subrange(j, m.len() as int));
        assert(m.subrange(0, j) =~= seq![m[0]] + m.subrange(1, j));
    } else {
        assert(m.subrange(0, m.len() as int) =~= m);
        assert(m.subrange(0, 0) + name_insert(m, k) =~= name_insert(m, k));
    }
}

/// Puts name `k` into the sorted names `m`, once.
fn insert_name(m: &mut Vec<String>, k: String)
    ensures
        names_view(final(m)@) == name_insert(names_view(old(m)@), k@),
{
    let ghost mv = names_view(m@);
    let mut j: usize = 0;
    while j < m.len()
        invariant
            j <= m@.len(),
            m@ == old(m)@,
            mv == names_view(m@),
            forall|i: int| 0 <= i < j ==> mv[i] != k@ && !key_lt(k@, #[trigger] mv[i]),
        ensures
            j <= m@.len(),
            m@ == old(m)@,
            forall|i: int| 0 <= i < j ==> mv[i] != k@ && !key_lt(k@, #[trigger] mv[i]),
            j < m@.len() ==> (mv[j as int] == k@ || key_lt(k@, mv[j as int])),
        decreases m.len() - j,
    {
        if m[j] == k || bytes_less(k.as_str().as_bytes(), m[j].as_str().as_bytes()) {
            break;
        }
        j += 1;
    }
    proof { lemma_name_insert_skip(mv, k@, j as int); }
    let ghost tail = mv.subrange(j as int, mv.len() as int);
    if j < m.len() && m[j] == k {
        assert(tail[0] == k@);
        assert(name_insert(tail, k@) == tail);
        assert(mv.subrange(0, j as int) + tail =~= mv);
    } else {
        let ghost kv = k@;
        m.insert(j, k);
        proof {
            if j < mv.len() {
                assert(key_lt(kv, tail[0]));
            }
            assert(names_view(m@) =~= mv.subrange(0, j as int) + name_insert(tail, kv));
        }
    }
}

/// `prop_insert` skips the named schemas before the first one named `k` or
/// sorting after it.
proof fn lemma_prop_insert_skip(m: Seq<(Seq<char>, SchemaView)>, k: Seq<char>, v: SchemaView, j: int)
    requires
        0 <= j <= m.len(),
        forall|i: int| 0 <= i < j ==> m[i].0 != k && !key_lt(k, #[trigger] m[i].0),
    ensures
        prop_insert(m, k, v) == m.subrange(0, j) + prop_insert(m.subrange(j, m.len() as int), k, v),
    decreases j,
{
    if j > 0 {
        let t = m.subrange(1, m.len() as int);
        lemma_prop_insert_skip(t, k, v, j - 1);
        assert(t.subrange(0, j - 1) =~= m.subrange(1, j));
        assert(t.subrange(j - 1, t.len() as int) =~= m.subrange(j, m.len() as int));
        assert(m.subrange(0, j) =~= seq![m[0]] + m.subrange(1, j));
    } else {
        assert(m.subrange(0, m.len() as int) =~= m);
        assert(m.subrange(0, 0) + prop_insert(m, k, v) =~= prop_insert(m, k, v));
    }
}

/// Puts `(k, v)` into the sorted named schemas `m`: replaces the one named
/// `k`, or inserts where the order places it.
fn insert_prop(m: &mut Vec<(String, Schema)>, k: String, v: Schema)
    ensures
        prop_views(final(m)@) == prop_insert(prop_views(old(m)@), k@, v@),
{
    proof { lemma_prop_views(m@); }
    let ghost mv = prop_views(m@);
    let mut j: usize = 0;
    while j < m.len()
        invariant
            j <= m@.len(),
            m@ == old(m)@,
            mv == prop_views(m@),
            mv.len() == m@.len(),
            forall|i: int| 0 <= i < m@.len() ==> #[trigger] mv[i] == (m@[i].0@, m@[i].1@),
            forall|i: int| 0 <= i < j ==> mv[i].0 != k@ && !key_lt(k@, #[trigger] mv[i].0),
        ensures
            j <= m@.len(),
            m@ == old(m)@,
            forall|i: int| 0 <= i < j ==> mv[i].0 != k@ && !key_lt(k@, #[trigger] mv[i].0),
            j < m@.len() ==> (mv[j as int].0 == k@ || key_lt(k@, mv[j as int].0)),
        decreases m.len() - j,
    {
        if m[j].0 == k || bytes_less(k.as_str().as_bytes(), m[j].0.as_str().as_bytes()) {
            break;
        }
        j += 1;
    }
    proof { lemma_prop_insert_skip(mv, k@, v@, j as int); }
    let ghost tail = mv.subrange(j as int, mv.len() as int);
    let ghost kv = k@;
    let ghost vv = v@;
    if j < m.len() && m[j].0 == k {
        m.remove(j);
        m.insert(j, (k, v));
        proof {
            lemma_prop_views(m@);
            assert(tail[0].0 == kv);
            assert(prop_views(m@) =~= mv.subrange(0, j as int) + (seq![(kv, vv)] + tail.subrange(1, tail.len() as int)));
        }
    } else {
        m.insert(j, (k, v));
        proof {
            lemma_prop_views(m@);
            if j < mv.len() {
                assert(key_lt(kv, tail[0].0));
                assert(prop_views(m@) =~= mv.subrange(0, j as int) + (seq![(kv, vv)] + tail));
            } else {
                assert(prop_views(m@) =~= mv.subrange(0, j as int) + seq![(kv, vv)]);
            }
        }
    }
}

/// Whether a byte is one of `^$.*+?()[]{}|`.
fn is_special_byte(c: u8) -> (r: bool)
    ensures
        r == is_special(c),
{
    c == 94 || c == 36 || c == 46 || c == 42 || c == 43 || c == 63 || c == 40 || c == 41 || c == 91
        || c == 93 || c == 123 || c == 125 || c == 124
}

/// The literal prefix of a pattern anchored with `^`, when not empty.
fn literal_prefix(b: &[u8]) -> (r: Option<Vec<u8>>)
    ensures
        r matches Some(v) ==> pattern_prefix(b@) == Some(v@),
        r is None ==> pattern_prefix(b@) is None,
{
    if b.len() == 0 || b[0] != 94 {
        return None;
    }
    let mut acc: Vec<u8> = Vec::new();
    let mut escaped = false;
    let mut i: usize = 1;
    while i < b.len()
        invariant
            1 <= i <= b@.len(),
            prefix_scan(b@, 1, false, Seq::empty()) == prefix_scan(b@, i as int, escaped, acc@),
        ensures
            prefix_scan(b@, 1, false, Seq::empty()) == acc@,
        decreases b@.len() - i,
    {
        let c = b[i];
        if escaped {
            acc.push(c);
            escaped = false;
        } else if c == 92 {
            escaped = true;
        } else if is_special_byte(c) {
            break;
        } else {
            acc.push(c);
        }
        i += 1;
    }
    if acc.len() > 0 {
        Some(acc)
    } else {
        None
    }
}

/// Counts the backslashes right before position `j`.
fn count_backslashes(b: &[u8], j: usize) -> (n: usize)
    requires
        j <= b@.len(),
    ensures
        n == backslashes_before(b@, j as int),
        n <= j,
{
    let mut n: usize = 0;
    let mut k = j;
    while k > 0 && b[k - 1] == 92
        invariant
            k <= j <= b@.len(),
            n == j - k,
            backslashes_before(b@, j as int) == n + backslashes_before(b@, k as int),
        decreases k,
    {
        k -= 1;
        n += 1;
    }
    n
}

/// The literal suffix of a pattern anchored with `$`, when not empty.
fn literal_suffix(b: &[u8]) -> (r: Option<Vec<u8>>)
    ensures
        r matches Some(v) ==> pattern_suffix(b@) == Some(v@),
        r is None ==> pattern_suffix(b@) is None,
{
    if b.len() == 0 || b[b.len() - 1] != 36 {
        return None;
    }
    let t = &b[0..b.len() - 1];
    assert(t@ =~= b@.subrange(0, b@.len() - 1));
    let mut rev: Vec<u8> = Vec::new();
    let mut i: usize = t.len();
    while i > 0
        invariant
            i <= t@.len(),
            suffix_scan(t@, t@.len() as int, Seq::empty()) == suffix_scan(t@, i as int, rev@.reverse()),
        ensures
            suffix_scan(t@, t@.len() as int, Seq::empty()) == rev@.reverse(),
        decreases i,
    {
        let j = i - 1;
        let c = t[j];
        if count_backslashes(t, j) % 2 == 1 {
            let ghost before = rev@;
            rev.push(c);
            assert(rev@.reverse() =~= seq![c] + before.reverse());
            i = j - 1;
        } else if is_special_byte(c) {
            break;
        } else {
            let ghost before = rev@;
            rev.push(c);
            assert(rev@.reverse() =~= seq![c] + before.reverse());
            i = j;
        }
    }
    let mut acc: Vec<u8> = Vec::new();
    let mut k = rev.len();
    while k > 0
        invariant
            k <= rev@.len(),
            acc@ == rev@.subrange(k as int, rev@.len() as int).reverse(),
        decreases k,
    {
        k -= 1;
        acc.push(rev[k]);
        assert(rev@.subrange(k as int, rev@.len() as int).reverse() =~= rev@.subrange(k + 1, rev@.len() as int).reverse().push(rev@[k as int]));
    }
    assert(rev@.subrange(0, rev@.len() as int) =~= rev@);
    if acc.len() > 0 {
        Some(acc)
    } else {
        None
    }
}

/// The literal prefix and suffix of a pattern, when anchored and not
/// empty.
pub fn extract_pattern_optimization(s: &str) -> (r: (Option<String>, Option<String>))
    ensures
        opt_chars_of(r.0) == opt_lossy(pattern_prefix(encode_utf8(s@))),
        opt_chars_of(r.1) == opt_lossy(pattern_suffix(encode_utf8(s@))),
{
    let b = s.as_bytes();
    let prefix = match literal_prefix(b) {
        Some(p) => Some(string_from_utf8_lossy(p.as_slice())),
        None => None,
    };
    let suffix = match literal_suffix(b) {
        Some(q) => Some(string_from_utf8_lossy(q.as_slice())),
        None => None,
    };
    (prefix, suffix)
}

/// The characters of an optional string.
pub open spec fn opt_chars_of(s: Option<String>) -> Option<Seq<char>> {
    match s {
        Some(x) => Some(x@),
        None => None,
    }
}

/// The type keyword's value as its view.
pub open spec fn type_view(t: SingleOrVec<InstanceType>) -> TypeView {
    match t {
        SingleOrVec::Single(x) => TypeView::Single(x),
        SingleOrVec::Vec(v) => TypeView::Many(v@),
    }
}

/// Whether an error is the message `m`.
pub open spec fn is_message(e: Error, m: Seq<char>) -> bool {
    e matches Error::Message(x) && x@ == m
}

/// The instance type a type name stands for.
fn parse_instance_type(s: &String) -> (r: Result<InstanceType, Error>)
    ensures
        r matches Ok(t) ==> instance_type_named(s@) == Some(t),
        r matches Err(e) ==> instance_type_named(s@) is None && is_message(e, "Unknown type: "@ + s@),
{
    let k = s.as_str();
    if is_word(k, "null") {
        Ok(InstanceType::Null)
    } else if is_word(k, "boolean") {
        Ok(InstanceType::Boolean)
    } else if is_word(k, "object") {
        Ok(InstanceType::Object)
    } else if is_word(k, "array") {
        Ok(InstanceType::Array)
    } else if is_word(k, "number") {
        Ok(InstanceType::Number)
    } else if is_word(k, "string") {
        Ok(InstanceType::String)
    } else if is_word(k, "integer") {
        Ok(InstanceType::Integer)
    } else {
        Err(message2("Unknown type: ", k))
    }
}

/// The `type` keyword: a type name, or an array of them.
fn parse_type(v: &Value) -> (r: Result<SingleOrVec<InstanceType>, Error>)
    ensures
        r matches Ok(t) ==> parse_type_spec(v@) == Ok::<TypeView, Seq<char>>(type_view(t)),
        r matches Err(e) ==> parse_type_spec(v@) matches Err(m) && is_message(e, m),
{
    match v {
        Value::String(s) => match parse_instance_type(s) {
            Ok(t) => Ok(SingleOrVec::Single(t)),
            Err(e) => Err(e),
        },
        Value::Array(arr) => {
            proof { lemma_views_of(arr@); }
            let ghost a = views_of(arr@);
            let mut types: Vec<InstanceType> = Vec::new();
            let mut i: usize = 0;
            while i < arr.len()
                invariant
                    i <= arr@.len(),
                    a == views_of(arr@),
                    a.len() == arr@.len(),
                    *v == Value::Array(*arr),
                    forall|j: int| 0 <= j < arr@.len() ==> #[trigger] a[j] == arr@[j]@,
                    type_list(a, 0, Seq::empty()) == type_list(a, i as int, types@),
                decreases arr@.len() - i,
            {
                assert(a[i as int] == arr@[i as int]@);
                match &arr[i] {
                    Value::String(s) => match parse_instance_type(s) {
                        Ok(t) => {
                            types.push(t);
                        },
                        Err(e) => {
                            return Err(e);
                        },
                    },
                    _ => {
                        return Err(message("type array must contain strings"));
                    },
                }
                i += 1;
            }
            Ok(SingleOrVec::Vec(types))
        },
        _ => Err(message("type must be a string or array of strings")),
    }
}

/// An integer keyword such as `minimum`.
fn parse_i128(v: &Value, field: &str) -> (r: Result<i128, Error>)
    ensures
        r matches Ok(x) ==> parse_i128_spec(v@, field@) == Ok::<i128, Seq<char>>(x),
        r matches Err(e) ==> parse_i128_spec(v@, field@) matches Err(m) && is_message(e, m),
{
    match v {
        Value::Number(n) => {
            let i = match n {
                Number::Int64(x) => Some(*x as i128),
                Number::UInt64(x) => Some(*x as i128),
                Number::Decimal64(d) => if d.scale == 0 {
                    Some(d.value as i128)
                } else {
                    None
                },
                Number::Decimal128(d) => if d.scale == 0 {
                    Some(d.value)
                } else {
                    None
                },
                Number::Float64Bits(b) => f64_bits_to_i128(*b),
            };
            match i {
                Some(x) => Ok(x),
                None => Err(message2(field, " must be an integer")),
            }
        },
        _ => Err(message2(field, " must be a number")),
    }
}

/// A count keyword such as `minItems`.
fn parse_u64(v: &Value, field: &str) -> (r: Result<u64, Error>)
    ensures
        r matches Ok(x) ==> parse_u64_spec(v@, field@) == Ok::<u64, Seq<char>>(x),
        r matches Err(e) ==> parse_u64_spec(v@, field@) matches Err(m) && is_message(e, m),
{
    match v {
        Value::Number(Number::Int64(x)) => if *x >= 0 {
            Ok(*x as u64)
        } else {
            Err(message2(field, " must be a non-negative integer"))
        },
        Value::Number(Number::UInt64(x)) => Ok(*x),
        Value::Number(_) => Err(message2(field, " must be a non-negative integer")),
        _ => Err(message2(field, " must be a number")),
    }
}

/// The names of a `required` array, sorted, each once.
fn parse_required(arr: &Vec<Value>) -> (r: Result<Vec<String>, Error>)
    ensures
        r matches Ok(ns) ==> names_of(views_of(arr@), 0, Seq::empty()) == Ok::<Seq<Seq<char>>, Seq<char>>(names_view(ns@)),
        r matches Err(e) ==> names_of(views_of(arr@), 0, Seq::empty()) matches Err(m) && is_message(e, m),
{
    proof { lemma_views_of(arr@); }
    let ghost a = views_of(arr@);
    let mut names: Vec<String> = Vec::new();
    assert(names_view(names@) =~= Seq::<Seq<char>>::empty());
    let mut i: usize = 0;
    while i < arr.len()
        invariant
            i <= arr@.len(),
            a == views_of(arr@),
            a.len() == arr@.len(),
            forall|j: int| 0 <= j < arr@.len() ==> #[trigger] a[j] == arr@[j]@,
            names_of(a, 0, Seq::empty()) == names_of(a, i as int, names_view(names@)),
        decreases arr@.len() - i,
    {
        assert(a[i as int] == arr@[i as int]@);
        match &arr[i] {
            Value::String(s) => {
                insert_name(&mut names, s.clone());
            },
            _ => {
                return Err(message("required items must be strings"));
            },
        }
        i += 1;
    }
    Ok(names)
}

/// Copies of values, with the same views.
fn copy_values(arr: &Vec<Value>) -> (r: Vec<Value>)
    ensures
        views_of(r@) == views_of(arr@),
{
    let mut out: Vec<Value> = Vec::new();
    let mut i: usize = 0;
    while i < arr.len()
        invariant
            i <= arr@.len(),
            out@.len() == i,
            forall|j: int| 0 <= j < i ==> (#[trigger] out@[j])@ == arr@[j]@,
        decreases arr@.len() - i,
    {
        out.push(arr[i].duplicate());
        i += 1;
    }
    proof {
        lemma_views_of(out@);
        lemma_views_of(arr@);
        assert(views_of(out@) =~= views_of(arr@));
    }
    out
}

/// The schemas of `properties`, keyed and sorted by name.
fn parse_properties(ps: &Vec<(String, Value)>) -> (r: Result<Vec<(String, Schema)>, Error>)
    ensures
        r matches Ok(m) ==> props_schemas(entry_views_of(ps@), 0, Seq::empty()) == Ok::<Seq<(Seq<char>, SchemaView)>, Seq<char>>(prop_views(m@)),
        r matches Err(e) ==> props_schemas(entry_views_of(ps@), 0, Seq::empty()) matches Err(m) && is_message(e, m),
    decreases ps@, 1nat,
{
    proof { lemma_entry_views_of(ps@); }
    let ghost pv = entry_views_of(ps@);
    let mut out: Vec<(String, Schema)> = Vec::new();
    assert(prop_views(out@) =~= Seq::<(Seq<char>, SchemaView)>::empty());
    let mut j: usize = 0;
    while j < ps.len()
        invariant
            j <= ps@.len(),
            pv == entry_views_of(ps@),
            pv.len() == ps@.len(),
            forall|t: int| 0 <= t < ps@.len() ==> #[trigger] pv[t] == (ps@[t].0@, ps@[t].1@),
            props_schemas(pv, 0, Seq::empty()) == props_schemas(pv, j as int, prop_views(out@)),
        decreases ps@.len() - j,
    {
        assert(pv[j as int] == (ps@[j as int].0@, ps@[j as int].1@));
        proof {
            assert(decreases_to!(ps@ => ps@[j as int]));
            assert(decreases_to!(ps@[j as int] => ps@[j as int].1));
        }
        match from_serde_json(&ps[j].1) {
            Ok(sub) => {
                insert_prop(&mut out, ps[j].0.clone(), sub);
            },
            Err(e) => {
                return Err(e);
            },
        }
        j += 1;
    }
    Ok(out)
}

/// The schemas of `prefixItems`, in order.
fn parse_prefix_items(arr: &Vec<Value>) -> (r: Result<Vec<Schema>, Error>)
    ensures
        r matches Ok(v) ==> item_schemas(views_of(arr@), 0, Seq::empty()) == Ok::<Seq<SchemaView>, Seq<char>>(schema_views(v@)),
        r matches Err(e) ==> item_schemas(views_of(arr@), 0, Seq::empty()) matches Err(m) && is_message(e, m),
    decreases arr@, 1nat,
{
    proof { lemma_views_of(arr@); }
    let ghost a = views_of(arr@);
    let mut out: Vec<Schema> = Vec::new();
    assert(schema_views(out@) =~= Seq::<SchemaView>::empty());
    let mut j: usize = 0;
    while j < arr.len()
        invariant
            j <= arr@.len(),
            a == views_of(arr@),
            a.len() == arr@.len(),
            forall|t: int| 0 <= t < arr@.len() ==> #[trigger] a[t] == arr@[t]@,
            item_schemas(a, 0, Seq::empty()) == item_schemas(a, j as int, schema_views(out@)),
        decreases arr@.len() - j,
    {
        assert(a[j as int] == arr@[j as int]@);
        proof { assert(decreases_to!(arr@ => arr@[j as int])); }
        match from_serde_json(&arr[j]) {
            Ok(sub) => {
                let ghost before = out@;
                out.push(sub);
                assert(out@.subrange(0, out@.len() - 1) =~= before);
            },
            Err(e) => {
                return Err(e);
            },
        }
        j += 1;
    }
    Ok(out)
}

/// Applies one keyword to `schema`.
fn apply_keyword(k: &String, v: &Value, schema: &mut Schema) -> (r: Result<(), Error>)
    ensures
        r is Ok ==> keyword(k@, v@, old(schema)@) == Ok::<SchemaView, Seq<char>>(final(schema)@),
        r matches Err(e) ==> keyword(k@, v@, old(schema)@) matches Err(m) && is_message(e, m),
    decreases *v, 2nat,
{
    let key = k.as_str();
    if is_word(key, "type") {
        let t = match parse_type(v) {
            Ok(t) => t,
            Err(e) => {
                return Err(e);
            },
        };
        schema.instance_type = Some(t);
    } else if is_word(key, "format") {
        match v {
            Value::String(s) => {
                schema.format = Some(s.clone());
            },
            _ => {
                return Err(message("format must be a string"));
            },
        }
    } else if is_word(key, "pattern") {
        match v {
            Value::String(s) => {
                let (prefix, suffix) = extract_pattern_optimization(s.as_str());
                schema.pattern = Some(s.clone());
                schema.pattern_prefix = prefix;
                schema.pattern_suffix = suffix;
            },
            _ => {
                return Err(message("pattern must be a string"));
            },
        }
    } else if is_word(key, "properties") {
        match v {
            Value::Object(ps) => {
                let m = match parse_properties(ps) {
                    Ok(m) => m,
                    Err(e) => {
                        return Err(e);
                    },
                };
                schema.properties = Some(m);
            },
            _ => {
                return Err(message("properties must be an object"));
            },
        }
    } else if is_word(key, "required") {
        match v {
            Value::Array(arr) => {
                let ns = match parse_required(arr) {
                    Ok(ns) => ns,
                    Err(e) => {
                        return Err(e);
                    },
                };
                schema.required = Some(ns);
            },
            _ => {
                return Err(message("required must be an array"));
            },
        }
    } else if is_word(key, "minimum") {
        let x = match parse_i128(v, key) {
            Ok(x) => x,
            Err(e) => {
                return Err(e);
            },
        };
        schema.minimum = Some(x);
    } else if is_word(key, "maximum") {
        let x = match parse_i128(v, key) {
            Ok(x) => x,
            Err(e) => {
                return Err(e);
            },
        };
        schema.maximum = Some(x);
    } else if is_word(key, "multipleOf") {
        let x = match parse_i128(v, key) {
            Ok(x) => x,
            Err(e) => {
                return Err(e);
            },
        };
        schema.multiple_of = Some(x);
    } else if is_word(key, "minItems") {
        let x = match parse_u64(v, key) {
            Ok(x) => x,
            Err(e) => {
                return Err(e);
            },
        };
        schema.min_items = Some(x);
    } else if is_word(key, "maxItems") {
        let x = match parse_u64(v, key) {
            Ok(x) => x,
            Err(e) => {
                return Err(e);
            },
        };
        schema.max_items = Some(x);
    } else if is_word(key, "minLength") {
        let x = match parse_u64(v, key) {
            Ok(x) => x,
            Err(e) => {
                return Err(e);
            },
        };
        schema.min_length = Some(x);
    } else if is_word(key, "maxLength") {
        let x = match parse_u64(v, key) {
            Ok(x) => x,
            Err(e) => {
                return Err(e);
            },
        };
        schema.max_length = Some(x);
    } else if is_word(key, "prefixItems") {
        match v {
            Value::Array(arr) => {
                let items = match parse_prefix_items(arr) {
                    Ok(items) => items,
                    Err(e) => {
                        return Err(e);
                    },
                };
                schema.prefix_items = Some(items);
            },
            _ => {
                return Err(message("prefixItems must be an array"));
            },
        }
    } else if is_word(key, "items") {
        let sub = match from_serde_json(v) {
            Ok(sub) => sub,
            Err(e) => {
                return Err(e);
            },
        };
        schema.items = Some(Box::new(sub));
    } else if is_word(key, "enum") {
        match v {
            Value::Array(arr) => {
                schema.enum_values = Some(copy_values(arr));
            },
            _ => {
                return Err(message("enum must be an array"));
            },
        }
    } else if is_word(key, "const") {
        schema.const_value = Some(v.duplicate());
    } else if is_word(key, "title") || is_word(key, "description") || is_word(key, "examples") {
    } else if is_word(key, "$schema") {
        match v {
            Value::String(s) => {
                if !is_word(s.as_str(), "https://json-schema.org/draft/2020-12/schema") {
                    return Err(message2("Unsupported $schema: ", s.as_str()));
                }
            },
            _ => {
                return Err(message("$schema must be a string"));
            },
        }
    } else {
        return Err(message2("Unsupported keyword: ", key));
    }
    Ok(())
}

/// Reads a schema from its JSON form: `true` admits everything, `false`
/// nothing, and an object sets the keywords it holds, failing on the first
/// one it does not support or whose value does not fit.
pub fn from_serde_json(json: &Value) -> (r: Result<Schema, Error>)
    ensures
        r matches Ok(s) ==> json_schema(json@) == Ok::<SchemaView, Seq<char>>(s@),
        r matches Err(e) ==> json_schema(json@) matches Err(m) && is_message(e, m),
    decreases *json, 0nat,
{
    match json {
        Value::Bool(b) => {
            let mut s = Schema::default();
            if !*b {
                s.enum_values = Some(Vec::new());
                assert(views_of(Seq::<Value>::empty()) =~= Seq::<ValueView>::empty());
            }
            Ok(s)
        },
        Value::Object(map) => {
            proof { lemma_entry_views_of(map@); }
            let ghost m = entry_views_of(map@);
            let mut schema = Schema::default();
            let mut i: usize = 0;
            while i < map.len()
                invariant
                    i <= map@.len(),
                    *json == Value::Object(*map),
                    m == entry_views_of(map@),
                    m.len() == map@.len(),
                    forall|t: int| 0 <= t < map@.len() ==> #[trigger] m[t] == (map@[t].0@, map@[t].1@),
                    keywords(m, 0, empty_view()) == keywords(m, i as int, schema@),
                decreases map@.len() - i,
            {
                assert(m[i as int] == (map@[i as int].0@, map@[i as int].1@));
                proof {
                    assert((*json)->Object_0 == *map);
                    assert(decreases_to!(*json => (*json)->Object_0));
                    assert(decreases_to!(*map => map@));
                    assert(decreases_to!(map@ => map@[i as int]));
                    assert(decreases_to!(map@[i as int] => map@[i as int].1));
                }
                match apply_keyword(&map[i].0, &map[i].1, &mut schema) {
                    Ok(()) => {},
                    Err(e) => {
                        return Err(e);
                    },
                }
                i += 1;
            }
            Ok(schema)
        },
        _ => Err(message("Schema must be an object or boolean")),
    }
}

} // verus!
