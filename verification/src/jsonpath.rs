//! JSON path expressions, as built by a path parser: path segments,
//! filter expressions and the values they compare with.

use vstd::prelude::*;
use crate::value::Number;
pub use crate::selector::Selector;

verus! {

/// An array position: from the front, or counted back from the last
/// element (`last` is `LastIndex(0)`, `last - 1` is `LastIndex(-1)`).
#[derive(Clone, Copy, Debug, PartialEq, Eq, Structural)]
pub enum Index {
    Index(i32),
    LastIndex(i32),
}

/// One position, or an inclusive range of positions.
#[derive(Clone, Copy, Debug, PartialEq, Eq, Structural)]
pub enum ArrayIndex {
    Index(Index),
    Slice(Index, Index),
}

/// Where a recursive descent stops: at a given depth, or at the deepest.
#[derive(Clone, Copy, Debug, PartialEq, Eq, Structural)]
pub enum RecursiveLevelEnd {
    Index(u8),
    Last,
}

/// The depths a recursive descent selects: exactly `start`, or from
/// `start` to `end`.
#[derive(Clone, Copy, Debug, PartialEq, Eq, Structural)]
pub struct RecursiveLevel {
    pub start: u8,
    pub end: Option<RecursiveLevelEnd>,
}

/// Operators with two operands.
#[derive(Clone, Copy, Debug, PartialEq, Eq, Structural)]
pub enum BinaryOperator {
    Or,
    And,
    Eq,
    NotEq,
    Lt,
    Lte,
    Gt,
    Gte,
    StartsWith,
    Add,
    Subtract,
    Multiply,
    Divide,
    Modulo,
}

/// Operators with one operand.
#[derive(Clone, Copy, Debug, PartialEq, Eq, Structural)]
pub enum UnaryOperator {
    Add,
    Subtract,
}

/// A literal in a path expression.
#[derive(Debug, PartialEq)]
pub enum PathValue {
    Null,
    Boolean(bool),
    Number(Number),
    String(String),
}

/// One segment of a path.
#[derive(Debug, PartialEq)]
pub enum Path {
    /// `$`
    Root,
    /// `@`
    Current,
    /// `.*`
    DotWildcard,
    /// `.**`, with the depths it selects
    RecursiveDotWildcard(Option<RecursiveLevel>),
    /// `[*]`
    BracketWildcard,
    /// `:name`
    ColonField(String),
    /// `.name`
    DotField(String),
    /// `["name"]`
    ObjectField(String),
    /// `[0, 2 to last]`
    ArrayIndices(Vec<ArrayIndex>),
    /// `? (expr)`
    FilterExpr(Box<Expr>),
    /// a predicate or arithmetic expression
    Expr(Box<Expr>),
}

/// A filter, predicate or arithmetic expression.
#[derive(Debug, PartialEq)]
pub enum Expr {
    Paths(Vec<Path>),
    Value(Box<PathValue>),
    BinaryOp { op: BinaryOperator, left: Box<Expr>, right: Box<Expr> },
    UnaryOp { op: UnaryOperator, operand: Box<Expr> },
    ExistsFunc(Vec<Path>),
}

/// A whole path: its segments in order.
#[derive(Debug, PartialEq)]
pub struct JsonPath {
    pub paths: Vec<Path>,
}

/// Whether a path is a predicate: one segment, an expression.
pub open spec fn is_predicate_spec(jp: JsonPath) -> bool {
    jp.paths@.len() == 1 && jp.paths@[0] is Expr
}

impl JsonPath {
    /// Whether the path is a predicate: one segment, an expression.
    pub fn is_predicate(&self) -> (r: bool)
        ensures
            r == is_predicate_spec(*self),
    {
        self.paths.len() == 1 && match &self.paths[0] {
            Path::Expr(_) => true,
            _ => false,
        }
    }
}

/// The position an index names in an array of `len` elements, when it lies
/// inside the array.
pub open spec fn convert_index(idx: Index, len: int) -> Option<int> {
    let i = match idx {
        Index::Index(i) => i as int,
        Index::LastIndex(i) => len + i - 1,
    };
    if 0 <= i < len {
        Some(i)
    } else {
        None
    }
}

/// The positions `lo..=hi`.
pub open spec fn range_incl(lo: int, hi: int) -> Seq<int> {
    if lo <= hi {
        Seq::new((hi - lo + 1) as nat, |k: int| lo + k)
    } else {
        Seq::empty()
    }
}

/// The positions an array index selects in an array of `len` elements, in
/// order.
pub open spec fn index_positions(a: ArrayIndex, len: int) -> Seq<int> {
    match a {
        ArrayIndex::Index(i) => match convert_index(i, len) {
            Some(k) => seq![k],
            None => Seq::empty(),
        },
        ArrayIndex::Slice(lo, hi) => match (convert_index(lo, len), convert_index(hi, len)) {
            (Some(s), Some(e)) => range_incl(s, e),
            _ => Seq::empty(),
        },
    }
}

/// The position an index names, when it lies inside the array.
fn convert_index_exec(idx: Index, len: usize) -> (r: Option<usize>)
    ensures
        r matches Some(k) ==> convert_index(idx, len as int) == Some(k as int),
        r is None ==> convert_index(idx, len as int) is None,
{
    let i: i128 = match idx {
        Index::Index(i) => i as i128,
        Index::LastIndex(i) => len as i128 + i as i128 - 1,
    };
    if 0 <= i && i < len as i128 {
        Some(i as usize)
    } else {
        None
    }
}

impl ArrayIndex {
    /// The positions this index selects in an array of `len` elements, in
    /// order.
    pub fn to_indices(&self, len: usize) -> (r: Vec<usize>)
        ensures
            r@.map_values(|k: usize| k as int) == index_positions(*self, len as int),
    {
        let mut out: Vec<usize> = Vec::new();
        match self {
            ArrayIndex::Index(i) => {
                if let Some(k) = convert_index_exec(*i, len) {
                    out.push(k);
                }
            },
            ArrayIndex::Slice(lo, hi) => {
                if let (Some(s), Some(e)) = (convert_index_exec(*lo, len), convert_index_exec(*hi, len)) {
                    let mut k = s;
                    if s > e {
                        assert(out@.map_values(|k: usize| k as int) =~= index_positions(*self, len as int));
                        return out;
                    }
                    while k <= e
                        invariant
                            s <= k,
                            k <= e + 1,
                            e < len,
                            out@.map_values(|x: usize| x as int) == range_incl(s as int, k - 1),
                        decreases e + 1 - k,
                    {
                        out.push(k);
                        assert(range_incl(s as int, k as int) =~= range_incl(s as int, k - 1).push(k as int));
                        k += 1;
                    }
                }
            },
        }
        assert(out@.map_values(|k: usize| k as int) =~= index_positions(*self, len as int));
        out
    }
}

/// Whether a recursive descent selects depth `level`, and whether it goes
/// on below it.
pub open spec fn level_check(r: RecursiveLevel, level: u8) -> (bool, bool) {
    match r.end {
        Some(RecursiveLevelEnd::Index(end)) => if level < r.start {
            (false, true)
        } else if level <= end {
            (true, true)
        } else {
            (false, false)
        },
        Some(RecursiveLevelEnd::Last) => if level < r.start {
            (false, true)
        } else {
            (true, true)
        },
        None => if level < r.start {
            (false, true)
        } else if level == r.start {
            (true, false)
        } else {
            (false, false)
        },
    }
}

impl RecursiveLevel {
    /// Whether this descent selects depth `level`, and whether it goes on
    /// below it.
    pub fn check_recursive_level(&self, level: u8) -> (r: (bool, bool))
        ensures
            r == level_check(*self, level),
    {
        match self.end {
            Some(RecursiveLevelEnd::Index(end)) => if level < self.start {
                (false, true)
            } else if level <= end {
                (true, true)
            } else {
                (false, false)
            },
            Some(RecursiveLevelEnd::Last) => if level < self.start {
                (false, true)
            } else {
                (true, true)
            },
            None => if level < self.start {
                (false, true)
            } else if level == self.start {
                (true, false)
            } else {
                (false, false)
            },
        }
    }
}

} // verus!
