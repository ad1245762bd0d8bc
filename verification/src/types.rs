//! The schema that drives the encoding.

use vstd::prelude::*;
use crate::value::{Value, ValueView, views_of};

verus! {

/// The JSON type a schema admits.
#[derive(Clone, Copy, Debug, PartialEq, Eq, Structural)]
pub enum InstanceType {
    Null,
    Boolean,
    Object,
    Array,
    Number,
    String,
    Integer,
}

/// One item, or a list of them.
#[derive(Debug, PartialEq)]
pub enum SingleOrVec<T> {
    Single(T),
    Vec(Vec<T>),
}

/// A JSON schema, reduced to the keywords the encoding uses.
///
/// `properties` lists each property once, and `required` each name once, as
/// `from_serde_json` makes them (`schema_wf::lemma_json_schema_wf`); the
/// encoder writes required properties in the order `required` lists them.
/// Encoding and decoding give a value back under any schema; the laws on
/// selecting under a schema ask that `required` name each property once
/// (`nested::schema_open`).
#[derive(Debug, PartialEq)]
pub struct Schema {
    pub instance_type: Option<SingleOrVec<InstanceType>>,
    pub properties: Option<Vec<(String, Schema)>>,
    pub required: Option<Vec<String>>,
    pub minimum: Option<i128>,
    pub maximum: Option<i128>,
    pub multiple_of: Option<i128>,
    pub min_items: Option<u64>,
    pub max_items: Option<u64>,
    pub min_length: Option<u64>,
    pub max_length: Option<u64>,
    pub prefix_items: Option<Vec<Schema>>,
    pub items: Option<Box<Schema>>,
    pub format: Option<String>,
    pub pattern: Option<String>,
    pub pattern_prefix: Option<String>,
    pub pattern_suffix: Option<String>,
    pub enum_values: Option<Vec<Value>>,
    pub const_value: Option<Value>,
}

/// The schema with no keyword set: it admits any value.
pub open spec fn empty_schema(s: Schema) -> bool {
    &&& s.instance_type is None
    &&& s.properties is None
    &&& s.required is None
    &&& s.minimum is None
    &&& s.maximum is None
    &&& s.multiple_of is None
    &&& s.min_items is None
    &&& s.max_items is None
    &&& s.min_length is None
    &&& s.max_length is None
    &&& s.prefix_items is None
    &&& s.items is None
    &&& s.format is None
    &&& s.pattern is None
    &&& s.pattern_prefix is None
    &&& s.pattern_suffix is None
    &&& s.enum_values is None
    &&& s.const_value is None
}

impl Default for Schema {
    fn default() -> (s: Schema)
        ensures
            empty_schema(s),
    {
        Schema {
            instance_type: None,
            properties: None,
            required: None,
            minimum: None,
            maximum: None,
            multiple_of: None,
            min_items: None,
            max_items: None,
            min_length: None,
            max_length: None,
            prefix_items: None,
            items: None,
            format: None,
            pattern: None,
            pattern_prefix: None,
            pattern_suffix: None,
            enum_values: None,
            const_value: None,
        }
    }
}

/// Whether `t` occurs in `types`.
pub fn contains_type(types: &Vec<InstanceType>, t: InstanceType) -> (r: bool)
    ensures
        r == types@.contains(t),
{
    let mut i: usize = 0;
    while i < types.len()
        invariant
            i <= types.len(),
            forall|j: int| 0 <= j < i ==> types@[j] != t,
        decreases types.len() - i,
    {
        if types[i] == t {
            assert(types@[i as int] == t);
            return true;
        }
        i += 1;
    }
    false
}

/// The type keyword as a view: one type, or a list of them.
pub enum TypeView {
    Single(InstanceType),
    Many(Seq<InstanceType>),
}

/// A schema as a mathematical value: strings as their characters, lists as
/// sequences.
pub struct SchemaView {
    pub instance_type: Option<TypeView>,
    pub properties: Option<Seq<(Seq<char>, SchemaView)>>,
    pub required: Option<Seq<Seq<char>>>,
    pub minimum: Option<i128>,
    pub maximum: Option<i128>,
    pub multiple_of: Option<i128>,
    pub min_items: Option<u64>,
    pub max_items: Option<u64>,
    pub min_length: Option<u64>,
    pub max_length: Option<u64>,
    pub prefix_items: Option<Seq<SchemaView>>,
    pub items: Option<Box<SchemaView>>,
    pub format: Option<Seq<char>>,
    pub pattern: Option<Seq<char>>,
    pub pattern_prefix: Option<Seq<char>>,
    pub pattern_suffix: Option<Seq<char>>,
    pub enum_values: Option<Seq<ValueView>>,
    pub const_value: Option<ValueView>,
}

/// The characters of an optional string.
pub open spec fn opt_chars(s: Option<String>) -> Option<Seq<char>> {
    match s {
        Some(x) => Some(x@),
        None => None,
    }
}

impl View for Schema {
    type V = SchemaView;

    open spec fn view(&self) -> SchemaView
        decreases self, 1nat,
    {
        SchemaView {
            instance_type: match self.instance_type {
                Some(SingleOrVec::Single(t)) => Some(TypeView::Single(t)),
                Some(SingleOrVec::Vec(v)) => Some(TypeView::Many(v@)),
                None => None,
            },
            properties: match self.properties {
                Some(p) => Some(prop_views(p@)),
                None => None,
            },
            required: match self.required {
                Some(r) => Some(r@.map_values(|x: String| x@)),
                None => None,
            },
            minimum: self.minimum,
            maximum: self.maximum,
            multiple_of: self.multiple_of,
            min_items: self.min_items,
            max_items: self.max_items,
            min_length: self.min_length,
            max_length: self.max_length,
            prefix_items: match self.prefix_items {
                Some(p) => Some(schema_views(p@)),
                None => None,
            },
            items: match self.items {
                Some(b) => Some(Box::new((*b).view())),
                None => None,
            },
            format: opt_chars(self.format),
            pattern: opt_chars(self.pattern),
            pattern_prefix: opt_chars(self.pattern_prefix),
            pattern_suffix: opt_chars(self.pattern_suffix),
            enum_values: match self.enum_values {
                Some(e) => Some(views_of(e@)),
                None => None,
            },
            const_value: match self.const_value {
                Some(c) => Some(c@),
                None => None,
            },
        }
    }
}

/// The views of named schemas, in order.
pub open spec fn prop_views(s: Seq<(String, Schema)>) -> Seq<(Seq<char>, SchemaView)>
    decreases s, 0nat,
{
    if s.len() == 0 {
        Seq::empty()
    } else {
        prop_views(s.subrange(0, s.len() - 1)).push((s[s.len() - 1].0@, s[s.len() - 1].1.view()))
    }
}

/// The views of schemas, in order.
pub open spec fn schema_views(s: Seq<Schema>) -> Seq<SchemaView>
    decreases s, 0nat,
{
    if s.len() == 0 {
        Seq::empty()
    } else {
        schema_views(s.subrange(0, s.len() - 1)).push(s[s.len() - 1].view())
    }
}

/// `prop_views` maps each named schema to its name's characters and view.
pub proof fn lemma_prop_views(s: Seq<(String, Schema)>)
    ensures
        prop_views(s).len() == s.len(),
        forall|i: int| 0 <= i < s.len() ==> #[trigger] prop_views(s)[i] == (s[i].0@, s[i].1@),
    decreases s.len(),
{
    if s.len() > 0 {
        let p = s.subrange(0, s.len() - 1);
        lemma_prop_views(p);
        assert(prop_views(s) == prop_views(p).push((s[s.len() - 1].0@, s[s.len() - 1].1@)));
        assert forall|i: int| 0 <= i < s.len() implies #[trigger] prop_views(s)[i] == (s[i].0@, s[i].1@) by {
            if i < s.len() - 1 {
                assert(p[i] == s[i]);
            }
        }
    }
}

/// `schema_views` maps each schema to its view.
pub proof fn lemma_schema_views(s: Seq<Schema>)
    ensures
        schema_views(s).len() == s.len(),
        forall|i: int| 0 <= i < s.len() ==> #[trigger] schema_views(s)[i] == s[i]@,
    decreases s.len(),
{
    if s.len() > 0 {
        let p = s.subrange(0, s.len() - 1);
        lemma_schema_views(p);
        assert(schema_views(s) == schema_views(p).push(s[s.len() - 1]@));
        assert forall|i: int| 0 <= i < s.len() implies #[trigger] schema_views(s)[i] == s[i]@ by {
            if i < s.len() - 1 {
                assert(p[i] == s[i]);
            }
        }
    }
}

} // verus!
