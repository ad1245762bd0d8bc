//! JSON values as the encoder and decoder see them, and their mathematical
//! view.

use vstd::prelude::*;
use vstd::string::StringExecFns;

verus! {

/// A decimal number `value * 10^(-scale)` held in 64 bits.
#[derive(Clone, Copy, Debug, PartialEq, Eq, Structural)]
pub struct Decimal64 {
    pub scale: u8,
    pub value: i64,
}

/// A decimal number `value * 10^(-scale)` held in 128 bits.
#[derive(Clone, Copy, Debug, PartialEq, Eq, Structural)]
pub struct Decimal128 {
    pub scale: u8,
    pub value: i128,
}

/// A JSON number. A 64-bit float is carried as its IEEE-754 bit pattern.
#[derive(Clone, Copy, Debug, PartialEq, Eq, Structural)]
pub enum Number {
    Int64(i64),
    UInt64(u64),
    Float64Bits(u64),
    Decimal64(Decimal64),
    Decimal128(Decimal128),
}

/// A JSON value. Object entries are kept sorted by key bytes, each key once
/// (see `value_wf`).
#[derive(Debug, PartialEq)]
pub enum Value {
    Null,
    Bool(bool),
    Number(Number),
    String(String),
    Array(Vec<Value>),
    Object(Vec<(String, Value)>),
}

/// The mathematical view of a `Value`: strings become their characters.
pub enum ValueView {
    Null,
    Bool(bool),
    Number(Number),
    String(Seq<char>),
    Array(Seq<ValueView>),
    Object(Seq<(Seq<char>, ValueView)>),
}

impl View for Value {
    type V = ValueView;

    open spec fn view(&self) -> ValueView
        decreases self, 1nat,
    {
        match self {
            Value::Null => ValueView::Null,
            Value::Bool(b) => ValueView::Bool(*b),
            Value::Number(n) => ValueView::Number(*n),
            Value::String(s) => ValueView::String(s@),
            Value::Array(a) => ValueView::Array(views_of(a@)),
            Value::Object(o) => ValueView::Object(entry_views_of(o@)),
        }
    }
}

/// The views of a sequence of values, in order.
pub open spec fn views_of(s: Seq<Value>) -> Seq<ValueView>
    decreases s, 0nat,
{
    if s.len() == 0 {
        Seq::empty()
    } else {
        views_of(s.subrange(0, s.len() - 1)).push(s[s.len() - 1].view())
    }
}

/// The views of a sequence of object entries, in order.
pub open spec fn entry_views_of(s: Seq<(String, Value)>) -> Seq<(Seq<char>, ValueView)>
    decreases s, 0nat,
{
    if s.len() == 0 {
        Seq::empty()
    } else {
        entry_views_of(s.subrange(0, s.len() - 1)).push(
            (s[s.len() - 1].0@, s[s.len() - 1].1.view()),
        )
    }
}

/// `views_of` maps each element to its view.
pub proof fn lemma_views_of(s: Seq<Value>)
    ensures
        views_of(s).len() == s.len(),
        forall|i: int| 0 <= i < s.len() ==> #[trigger] views_of(s)[i] == s[i]@,
    decreases s.len(),
{
    if s.len() > 0 {
        let p = s.subrange(0, s.len() - 1);
        lemma_views_of(p);
        assert(views_of(s) == views_of(p).push(s[s.len() - 1]@));
        assert forall|i: int| 0 <= i < s.len() implies #[trigger] views_of(s)[i] == s[i]@ by {
            if i < s.len() - 1 {
                assert(p[i] == s[i]);
            }
        }
    }
}

/// `entry_views_of` maps each entry to its key's characters and its value's
/// view.
pub proof fn lemma_entry_views_of(s: Seq<(String, Value)>)
    ensures
        entry_views_of(s).len() == s.len(),
        forall|i: int|
            0 <= i < s.len() ==> #[trigger] entry_views_of(s)[i] == (s[i].0@, s[i].1@),
    decreases s.len(),
{
    if s.len() > 0 {
        let p = s.subrange(0, s.len() - 1);
        lemma_entry_views_of(p);
        assert(entry_views_of(s) == entry_views_of(p).push((s[s.len() - 1].0@, s[s.len() - 1].1@)));
        assert forall|i: int| 0 <= i < s.len() implies #[trigger] entry_views_of(s)[i] == (
        s[i].0@, s[i].1@) by {
            if i < s.len() - 1 {
                assert(p[i] == s[i]);
            }
        }
    }
}

/// The integer a number stands for, when it is one exactly: a signed or
/// unsigned integer, or a decimal of scale 0.
pub open spec fn number_as_int(n: Number) -> Option<int> {
    match n {
        Number::Int64(v) => Some(v as int),
        Number::UInt64(v) => Some(v as int),
        Number::Decimal64(d) => if d.scale == 0 {
            Some(d.value as int)
        } else {
            None
        },
        Number::Decimal128(d) => if d.scale == 0 {
            Some(d.value as int)
        } else {
            None
        },
        Number::Float64Bits(_) => None,
    }
}

impl Number {
    /// The number as an `i128`, when it is an integer (see `number_as_int`).
    pub fn as_i128(&self) -> (r: Option<i128>)
        ensures
            r matches Some(v) ==> number_as_int(*self) == Some(v as int),
            r is None ==> number_as_int(*self) is None,
    {
        match self {
            Number::Int64(v) => Some(*v as i128),
            Number::UInt64(v) => Some(*v as i128),
            Number::Decimal64(d) => if d.scale == 0 {
                Some(d.value as i128)
            } else {
                None
            },
            Number::Decimal128(d) => if d.scale == 0 {
                Some(d.value)
            } else {
                None
            },
            Number::Float64Bits(_) => None,
        }
    }

    /// The number as an `i64`, when it is an integer in that range.
    pub fn as_i64(&self) -> (r: Option<i64>)
        ensures
            r matches Some(v) ==> number_as_int(*self) == Some(v as int),
            r is None ==> (number_as_int(*self) is None || !(i64::MIN <= number_as_int(*self).unwrap()
                <= i64::MAX)),
    {
        match self.as_i128() {
            Some(v) => if i64::MIN as i128 <= v && v <= i64::MAX as i128 {
                Some(v as i64)
            } else {
                None
            },
            None => None,
        }
    }
}

/// The number that an integer decodes to: a signed 64-bit integer when it
/// fits, else a decimal of scale 0.
pub open spec fn int_number(v: i128) -> Number {
    if i64::MIN <= v <= i64::MAX {
        Number::Int64(v as i64)
    } else {
        Number::Decimal128(Decimal128 { scale: 0, value: v })
    }
}

/// Builds the number that `int_number` describes.
pub fn make_int_number(v: i128) -> (n: Number)
    ensures
        n == int_number(v),
{
    if i64::MIN as i128 <= v && v <= i64::MAX as i128 {
        Number::Int64(v as i64)
    } else {
        Number::Decimal128(Decimal128 { scale: 0, value: v })
    }
}

/// Errors of schema conversion and path evaluation.
#[derive(Clone, Debug, PartialEq)]
pub enum Error {
    Message(String),
    InvalidJsonPath,
}

impl Error {
    /// The text of the error: its message, or that the path is invalid.
    pub fn message(&self) -> (s: String)
        ensures
            self matches Error::Message(m) ==> s@ == m@,
            *self is InvalidJsonPath ==> s@ == "Invalid JSON path"@,
    {
        match self {
            Error::Message(m) => m.clone(),
            Error::InvalidJsonPath => String::from_str("Invalid JSON path"),
        }
    }
}

impl Value {
    /// A copy of this value with the same view.
    pub fn duplicate(&self) -> (r: Value)
        ensures
            r@ == self@,
        decreases self,
    {
        match self {
            Value::Null => Value::Null,
            Value::Bool(b) => Value::Bool(*b),
            Value::Number(n) => Value::Number(*n),
            Value::String(s) => Value::String(s.clone()),
            Value::Array(a) => {
                let mut out: Vec<Value> = Vec::new();
                let mut i: usize = 0;
                while i < a.len()
                    invariant
                        *self == Value::Array(*a),
                        i <= a.len(),
                        out@.len() == i,
                        forall|j: int| 0 <= j < i ==> #[trigger] out@[j]@ == a@[j]@,
                    decreases a.len() - i,
                {
                    proof {
                        assert((*self)->Array_0 == *a);
                        assert(decreases_to!(*self => (*self)->Array_0));
                        assert(decreases_to!(*a => a@));
                        assert(decreases_to!(a@ => a@[i as int]));
                    }
                    let c = a[i].duplicate();
                    out.push(c);
                    i += 1;
                }
                let r = Value::Array(out);
                proof {
                    lemma_views_of(out@);
                    lemma_views_of(a@);
                    assert(views_of(out@) =~= views_of(a@));
                }
                r
            }
            Value::Object(o) => {
                let mut out: Vec<(String, Value)> = Vec::new();
                let mut i: usize = 0;
                while i < o.len()
                    invariant
                        *self == Value::Object(*o),
                        i <= o.len(),
                        out@.len() == i,
                        forall|j: int|
                            0 <= j < i ==> #[trigger] out@[j].0@ == o@[j].0@ && out@[j].1@
                                == o@[j].1@,
                    decreases o.len() - i,
                {
                    proof {
                        assert((*self)->Object_0 == *o);
                        assert(decreases_to!(*self => (*self)->Object_0));
                        assert(decreases_to!(*o => o@));
                        assert(decreases_to!(o@ => o@[i as int]));
                        assert(decreases_to!(o@[i as int] => o@[i as int].1));
                    }
                    let c = o[i].1.duplicate();
                    let k = o[i].0.clone();
                    out.push((k, c));
                    i += 1;
                }
                let r = Value::Object(out);
                proof {
                    lemma_entry_views_of(out@);
                    lemma_entry_views_of(o@);
                    assert(entry_views_of(out@) =~= entry_views_of(o@));
                }
                r
            }
        }
    }
}

/// Whether two values have the same view: same kind, same numbers, same
/// strings, and, element by element, the same contents.
pub fn same_value(a: &Value, b: &Value) -> (r: bool)
    ensures
        r == (a@ == b@),
    decreases a,
{
    match (a, b) {
        (Value::Null, Value::Null) => true,
        (Value::Bool(x), Value::Bool(y)) => *x == *y,
        (Value::Number(x), Value::Number(y)) => *x == *y,
        (Value::String(x), Value::String(y)) => *x == *y,
        (Value::Array(x), Value::Array(y)) => {
            proof {
                lemma_views_of(x@);
                lemma_views_of(y@);
            }
            if x.len() != y.len() {
                assert(views_of(x@).len() != views_of(y@).len());
                return false;
            }
            let mut i: usize = 0;
            while i < x.len()
                invariant
                    *a == Value::Array(*x),
                    *b == Value::Array(*y),
                    x@.len() == y@.len(),
                    i <= x.len(),
                    views_of(x@).len() == x@.len(),
                    views_of(y@).len() == y@.len(),
                    forall|j: int| 0 <= j < x@.len() ==> #[trigger] views_of(x@)[j] == x@[j]@,
                    forall|j: int| 0 <= j < y@.len() ==> #[trigger] views_of(y@)[j] == y@[j]@,
                    forall|j: int| 0 <= j < i ==> #[trigger] x@[j]@ == y@[j]@,
                decreases x.len() - i,
            {
                proof {
                    assert((*a)->Array_0 == *x);
                    assert(decreases_to!(*a => (*a)->Array_0));
                    assert(decreases_to!(*x => x@));
                    assert(decreases_to!(x@ => x@[i as int]));
                }
                if !same_value(&x[i], &y[i]) {
                    assert(views_of(x@)[i as int] != views_of(y@)[i as int]);
                    return false;
                }
                i += 1;
            }
            assert(views_of(x@) =~= views_of(y@));
            true
        },
        (Value::Object(x), Value::Object(y)) => {
            proof {
                lemma_entry_views_of(x@);
                lemma_entry_views_of(y@);
            }
            if x.len() != y.len() {
                assert(entry_views_of(x@).len() != entry_views_of(y@).len());
                return false;
            }
            let mut i: usize = 0;
            while i < x.len()
                invariant
                    *a == Value::Object(*x),
                    *b == Value::Object(*y),
                    x@.len() == y@.len(),
                    i <= x.len(),
                    entry_views_of(x@).len() == x@.len(),
                    entry_views_of(y@).len() == y@.len(),
                    forall|j: int| 0 <= j < x@.len() ==> #[trigger] entry_views_of(x@)[j] == (x@[j].0@, x@[j].1@),
                    forall|j: int| 0 <= j < y@.len() ==> #[trigger] entry_views_of(y@)[j] == (y@[j].0@, y@[j].1@),
                    forall|j: int| 0 <= j < i ==> #[trigger] entry_views_of(x@)[j] == entry_views_of(y@)[j],
                decreases x.len() - i,
            {
                proof {
                    assert((*a)->Object_0 == *x);
                    assert(decreases_to!(*a => (*a)->Object_0));
                    assert(decreases_to!(*x => x@));
                    assert(decreases_to!(x@ => x@[i as int]));
                    assert(decreases_to!(x@[i as int] => x@[i as int].1));
                }
                if x[i].0 != y[i].0 || !same_value(&x[i].1, &y[i].1) {
                    assert(entry_views_of(x@)[i as int] != entry_views_of(y@)[i as int]);
                    return false;
                }
                i += 1;
            }
            assert(entry_views_of(x@) =~= entry_views_of(y@));
            true
        },
        _ => false,
    }
}

} // verus!
