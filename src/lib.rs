//! Parses URL query strings written in bracket notation (`a[b][]=1&a[b][]=2`)
//! into a tree of objects, arrays, strings and nulls.

use vstd::prelude::*;

pub mod helpers;
pub mod laws;
pub mod merge;
pub mod parser;
pub mod text;
pub mod value;

pub use crate::helpers::{create_array, next_index, object_from_list, push_item_to_array, Object};
pub use crate::merge::merge;
pub use crate::parser::{
    apply_object, cleanup_key, decode_component, parse, parse_decoded, parse_key, parse_pair, parse_pairs,
    ParseError, ParseErrorKind, ParseResult,
};
pub use crate::value::{Skeleton, Value};

verus! {

} // verus!
