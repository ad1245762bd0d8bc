//! A schema-driven binary encoding for JSON values, with a path selector
//! that reads the encoded form directly.

pub mod varint;
pub mod value;
pub mod number;
pub mod float64;
pub mod types;
pub mod render;
pub mod datetime;
pub mod netaddr;
pub mod format;
pub mod spec_enc;
pub mod encoder;
pub mod text;
pub mod spec_dec;
pub mod decoder;
pub mod objects;
pub mod ordered;
pub mod roundtrip;
pub mod traverse;
pub mod jsonpath;
pub mod select_spec;
pub mod selector;
pub mod from_json;
pub mod schema_wf;
pub mod schema;

pub use value::{Decimal128, Decimal64, Error, Number, Value};
pub mod schema_roundtrip;
pub mod in_place;
pub mod nested;
pub mod literal_compare;
pub mod descent;
pub mod agree;
pub mod expr_laws;
