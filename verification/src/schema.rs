//! The schema, the encoder and decoder it drives, and reading a schema from
//! its JSON form.

pub use crate::types::{InstanceType, Schema, SingleOrVec};
pub use crate::encoder::encode;
pub use crate::decoder::decode;
pub use crate::from_json::from_serde_json;
