//! The scalar types that fields and columns are declared with.
use vstd::prelude::*;

use crate::text::same_text;

verus! {

/// A column's scalar type.
#[derive(Debug, Clone, Copy, PartialEq, Eq, Structural)]
pub enum BasicType {
    Int,
    Float,
    Bool,
    String,
    Date,
    Blob,
}

/// The type that a keyword names, if any.
pub open spec fn basic_type_of(s: Seq<char>) -> Option<BasicType> {
    if s == "Int"@ {
        Some(BasicType::Int)
    } else if s == "Float"@ {
        Some(BasicType::Float)
    } else if s == "Bool"@ {
        Some(BasicType::Bool)
    } else if s == "String"@ {
        Some(BasicType::String)
    } else if s == "Date"@ {
        Some(BasicType::Date)
    } else if s == "Blob"@ {
        Some(BasicType::Blob)
    } else {
        None
    }
}

impl BasicType {
    /// Reads a type keyword; any other text names no type.
    pub fn from_str(s: &str) -> (r: Option<BasicType>)
        ensures
            r == basic_type_of(s@),
    {
        if same_text(s, "Int") {
            Some(BasicType::Int)
        } else if same_text(s, "Float") {
            Some(BasicType::Float)
        } else if same_text(s, "Bool") {
            Some(BasicType::Bool)
        } else if same_text(s, "String") {
            Some(BasicType::String)
        } else if same_text(s, "Date") {
            Some(BasicType::Date)
        } else if same_text(s, "Blob") {
            Some(BasicType::Blob)
        } else {
            None
        }
    }
}

} // verus!
