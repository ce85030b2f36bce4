//! Stable handles into a function: [`Value`] and [`Block`].

use vstd::prelude::*;
use vstd::string::*;

use crate::text::{decimal, push_decimal};

verus! {

/// A handle to an SSA value inside a function.
///
/// A value is the result of one instruction or one block parameter. Handles are
/// dense: the values of a function are numbered `0..n` in creation order, so a
/// handle doubles as an index into a side table. Handles are scoped to the
/// function that minted them.
#[derive(Clone, Copy, PartialEq, Eq, Structural, PartialOrd, Ord, Hash, Debug)]
pub struct Value(pub u32);

impl Value {
    /// Makes a handle from its raw number.
    pub fn from_raw(raw: u32) -> (v: Value)
        ensures
            v.0 == raw,
    {
        Value(raw)
    }

    /// Returns the zero-based index of this value.
    pub fn index(self) -> (i: usize)
        ensures
            i == self.0,
    {
        self.0 as usize
    }

    /// The textual form of the handle: `v` followed by its index.
    pub open spec fn text(self) -> Seq<char> {
        seq!['v'] + decimal(self.0 as nat)
    }

    /// Renders the handle as `v<n>`.
    pub fn to_string(&self) -> (s: String)
        ensures
            s@ == self.text(),
    {
        proof {
            reveal_strlit("v");
        }
        let mut s = String::from_str("v");
        push_decimal(&mut s, self.0 as u64);
        s
    }
}

/// A handle to a basic block inside a function.
///
/// Blocks are numbered densely from zero in creation order; the entry block is
/// always block zero.
#[derive(Clone, Copy, PartialEq, Eq, Structural, PartialOrd, Ord, Hash, Debug)]
pub struct Block(pub u32);

impl Block {
    /// Makes a handle from its raw number.
    pub fn from_raw(raw: u32) -> (b: Block)
        ensures
            b.0 == raw,
    {
        Block(raw)
    }

    /// Returns the zero-based index of this block.
    pub fn index(self) -> (i: usize)
        ensures
            i == self.0,
    {
        self.0 as usize
    }

    /// The textual form of the handle: `b` followed by its index.
    pub open spec fn text(self) -> Seq<char> {
        seq!['b'] + decimal(self.0 as nat)
    }

    /// Renders the handle as `b<n>`.
    pub fn to_string(&self) -> (s: String)
        ensures
            s@ == self.text(),
    {
        proof {
            reveal_strlit("b");
        }
        let mut s = String::from_str("b");
        push_decimal(&mut s, self.0 as u64);
        s
    }
}

} // verus!
