//! The machine-level value types an IR value can have.

use vstd::prelude::*;
use vstd::string::*;

verus! {

/// The type of a value in the IR: the IR's own small machine-level type system.
#[derive(Clone, Copy, PartialEq, Eq, Structural, PartialOrd, Ord, Hash, Debug)]
pub enum Type {
    /// A signed integer value.
    Int,
    /// A floating-point value.
    Float,
    /// A boolean value, as produced by a comparison or a logical operation.
    Bool,
    /// The absence of a value.
    Unit,
}

impl Type {
    /// Whether the type is one that arithmetic and ordering accept.
    pub open spec fn numeric(self) -> bool {
        self is Int || self is Float
    }

    /// Returns `true` for the numeric types ([`Int`](Type::Int) and
    /// [`Float`](Type::Float)).
    pub fn is_numeric(self) -> (b: bool)
        ensures
            b == self.numeric(),
    {
        match self {
            Type::Int | Type::Float => true,
            _ => false,
        }
    }

    /// The lowercase name the type prints as.
    pub open spec fn text(self) -> Seq<char> {
        match self {
            Type::Int => "int"@,
            Type::Float => "float"@,
            Type::Bool => "bool"@,
            Type::Unit => "unit"@,
        }
    }

    /// Renders the type as its lowercase name.
    pub fn to_string(&self) -> (s: String)
        ensures
            s@ == self.text(),
    {
        match self {
            Type::Int => String::from_str("int"),
            Type::Float => String::from_str("float"),
            Type::Bool => String::from_str("bool"),
            Type::Unit => String::from_str("unit"),
        }
    }
}

} // verus!
