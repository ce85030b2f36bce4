//! The [`Function`]: the unit of IR, its mathematical model, and its accessors.

use vstd::prelude::*;

use crate::entity::{Block, Value};
use crate::inst::{Inst, TermModel, Terminator};
use crate::ty::Type;

verus! {

/// How a value comes to be: a parameter of a block, or the result of an
/// instruction in a block.
#[derive(Clone, Copy, PartialEq, Eq, Structural, Debug)]
pub enum ValueDef {
    /// A parameter of the named block.
    Param(Block),
    /// The result of an instruction located in the named block.
    Inst(Block, Inst),
}

/// The type and origin of a single value.
#[derive(Clone, Copy, PartialEq, Eq, Structural, Debug)]
pub struct ValueData {
    /// The type of the value.
    pub ty: Type,
    /// Where and how the value is defined.
    pub def: ValueDef,
}

/// The contents of a single basic block.
#[derive(PartialEq, Debug)]
pub struct BlockData {
    /// The parameter values of this block, in order.
    pub params: Vec<Value>,
    /// The values defined by this block's instructions, in program order.
    pub insts: Vec<Value>,
    /// The terminator that ends the block, or `None` if one was never set.
    pub term: Option<Terminator>,
}

/// The mathematical form of a block.
pub struct BlockModel {
    /// The parameter values, in order.
    pub params: Seq<Value>,
    /// The instruction results, in program order.
    pub insts: Seq<Value>,
    /// The terminator, if one was set.
    pub term: Option<TermModel>,
}

/// The model of an optional terminator.
pub open spec fn term_model(t: Option<Terminator>) -> Option<TermModel> {
    match t {
        Some(t) => Some(t@),
        None => None,
    }
}

fn copy_values(vals: &Vec<Value>) -> (c: Vec<Value>)
    ensures
        c@ == vals@,
{
    let mut c: Vec<Value> = Vec::new();
    let mut i: usize = 0;
    while i < vals.len()
        invariant
            i <= vals@.len(),
            c@ == vals@.take(i as int),
        decreases vals@.len() - i,
    {
        c.push(vals[i]);
        proof {
            assert(vals@.take(i + 1) =~= vals@.take(i as int).push(vals@[i as int]));
        }
        i = i + 1;
    }
    proof {
        assert(vals@.take(vals@.len() as int) =~= vals@);
    }
    c
}

impl Clone for BlockData {
    fn clone(&self) -> (b: BlockData)
        ensures
            b@ == self@,
    {
        let term = match &self.term {
            Some(t) => Some(t.clone()),
            None => None,
        };
        BlockData { params: copy_values(&self.params), insts: copy_values(&self.insts), term }
    }
}

impl View for BlockData {
    type V = BlockModel;

    open spec fn view(&self) -> BlockModel {
        BlockModel { params: self.params@, insts: self.insts@, term: term_model(self.term) }
    }
}

/// The mathematical form of a function: its signature, its blocks in creation
/// order, and its value table indexed by value handle.
pub struct FunctionModel {
    /// The function's name.
    pub name: Seq<char>,
    /// The parameter types, in order.
    pub params: Seq<Type>,
    /// The return type.
    pub ret: Type,
    /// The entry block.
    pub entry: Block,
    /// The blocks, indexed by block handle.
    pub blocks: Seq<BlockModel>,
    /// The value table, indexed by value handle.
    pub values: Seq<ValueData>,
}

impl FunctionModel {
    /// The number of blocks.
    pub open spec fn block_count(self) -> nat {
        self.blocks.len()
    }

    /// Whether `b` names one of the blocks.
    pub open spec fn has_block(self, b: Block) -> bool {
        b.0 < self.blocks.len()
    }

    /// Whether `v` names one of the values.
    pub open spec fn has_value(self, v: Value) -> bool {
        v.0 < self.values.len()
    }

    /// A block's parameters, or nothing for a handle out of range.
    pub open spec fn params_of(self, b: Block) -> Seq<Value> {
        if self.has_block(b) {
            self.blocks[b.0 as int].params
        } else {
            seq![]
        }
    }

    /// A block's instruction results, or nothing for a handle out of range.
    pub open spec fn insts_of(self, b: Block) -> Seq<Value> {
        if self.has_block(b) {
            self.blocks[b.0 as int].insts
        } else {
            seq![]
        }
    }

    /// A block's terminator, or `None` for a handle out of range or an
    /// unterminated block.
    pub open spec fn term_of(self, b: Block) -> Option<TermModel> {
        if self.has_block(b) {
            self.blocks[b.0 as int].term
        } else {
            None
        }
    }

    /// A value's type, or `None` for a handle out of range.
    pub open spec fn type_of(self, v: Value) -> Option<Type> {
        if self.has_value(v) {
            Some(self.values[v.0 as int].ty)
        } else {
            None
        }
    }

    /// The instruction defining a value, or `None` for a block parameter or a
    /// handle out of range.
    pub open spec fn inst_of(self, v: Value) -> Option<Inst> {
        if self.has_value(v) {
            match self.values[v.0 as int].def {
                ValueDef::Inst(_, i) => Some(i),
                ValueDef::Param(_) => None,
            }
        } else {
            None
        }
    }

    /// The block a value is defined in, or `None` for a handle out of range.
    pub open spec fn block_of(self, v: Value) -> Option<Block> {
        if self.has_value(v) {
            match self.values[v.0 as int].def {
                ValueDef::Inst(b, _) => Some(b),
                ValueDef::Param(b) => Some(b),
            }
        } else {
            None
        }
    }
}

/// A function in SSA form: a control-flow graph of basic blocks over a single
/// flat store of values.
///
/// A [`Builder`](crate::Builder) produces one; [`Function::from_parts`] assembles
/// one from its parts. Handles are `u32`, so a function holds fewer than
/// `u32::MAX` blocks and fewer than `u32::MAX` values.
#[derive(PartialEq, Debug)]
pub struct Function {
    name: String,
    params: Vec<Type>,
    ret: Type,
    entry: Block,
    blocks: Vec<BlockData>,
    values: Vec<ValueData>,
}

impl View for Function {
    type V = FunctionModel;

    closed spec fn view(&self) -> FunctionModel {
        FunctionModel {
            name: self.name@,
            params: self.params@,
            ret: self.ret,
            entry: self.entry,
            blocks: self.blocks@.map_values(|b: BlockData| b@),
            values: self.values@,
        }
    }
}

impl Clone for Function {
    fn clone(&self) -> (f: Function)
        ensures
            f@ == self@,
    {
        proof {
            use_type_invariant(self);
        }
        let mut blocks: Vec<BlockData> = Vec::new();
        let mut i: usize = 0;
        while i < self.blocks.len()
            invariant
                i <= self.blocks@.len(),
                blocks@.len() == i,
                forall|j: int| 0 <= j < i ==> (#[trigger] blocks@[j])@ == self.blocks@[j]@,
            decreases self.blocks@.len() - i,
        {
            blocks.push(self.blocks[i].clone());
            i = i + 1;
        }
        let mut values: Vec<ValueData> = Vec::new();
        let mut i: usize = 0;
        while i < self.values.len()
            invariant
                i <= self.values@.len(),
                values@ == self.values@.take(i as int),
            decreases self.values@.len() - i,
        {
            values.push(self.values[i]);
            proof {
                assert(self.values@.take(i + 1) =~= self.values@.take(i as int).push(
                    self.values@[i as int],
                ));
            }
            i = i + 1;
        }
        proof {
            assert(self.values@.take(self.values@.len() as int) =~= self.values@);
        }
        let mut params: Vec<Type> = Vec::new();
        let mut i: usize = 0;
        while i < self.params.len()
            invariant
                i <= self.params@.len(),
                params@ == self.params@.take(i as int),
            decreases self.params@.len() - i,
        {
            params.push(self.params[i]);
            proof {
                assert(self.params@.take(i + 1) =~= self.params@.take(i as int).push(
                    self.params@[i as int],
                ));
            }
            i = i + 1;
        }
        proof {
            assert(self.params@.take(self.params@.len() as int) =~= self.params@);
        }
        let f = Function {
            name: self.name.clone(),
            params,
            ret: self.ret,
            entry: self.entry,
            blocks,
            values,
        };
        proof {
            assert(f@.blocks =~= self@.blocks);
        }
        f
    }
}

impl Function {
    #[verifier::type_invariant]
    spec fn handles_fit(self) -> bool {
        self.blocks.len() <= u32::MAX && self.values.len() <= u32::MAX
    }

    /// Assembles a function from its parts.
    pub fn from_parts(
        name: String,
        params: Vec<Type>,
        ret: Type,
        entry: Block,
        blocks: Vec<BlockData>,
        values: Vec<ValueData>,
    ) -> (f: Function)
        requires
            blocks.len() <= u32::MAX,
            values.len() <= u32::MAX,
        ensures
            f@ == (FunctionModel {
                name: name@,
                params: params@,
                ret,
                entry,
                blocks: blocks@.map_values(|b: BlockData| b@),
                values: values@,
            }),
    {
        Function { name, params, ret, entry, blocks, values }
    }

    /// Returns the function's name.
    pub fn name(&self) -> (s: &str)
        ensures
            s@ == self@.name,
    {
        self.name.as_str()
    }

    /// Returns the function's parameter types, in order.
    pub fn params(&self) -> (p: &[Type])
        ensures
            p@ == self@.params,
    {
        self.params.as_slice()
    }

    /// Returns the function's return type.
    pub fn ret(&self) -> (t: Type)
        ensures
            t == self@.ret,
    {
        self.ret
    }

    /// Returns the entry block.
    pub fn entry(&self) -> (b: Block)
        ensures
            b == self@.entry,
    {
        self.entry
    }

    /// Returns the number of blocks in the function.
    pub fn block_count(&self) -> (n: usize)
        ensures
            n == self@.blocks.len(),
            n <= u32::MAX,
    {
        proof {
            use_type_invariant(self);
        }
        self.blocks.len()
    }

    /// Returns the number of values defined in the function (block parameters
    /// and instruction results together).
    pub fn value_count(&self) -> (n: usize)
        ensures
            n == self@.values.len(),
            n <= u32::MAX,
    {
        proof {
            use_type_invariant(self);
        }
        self.values.len()
    }

    /// Returns every block handle, entry first, in creation order.
    pub fn blocks(&self) -> (bs: Vec<Block>)
        ensures
            bs@.len() == self@.blocks.len(),
            forall|i: int| 0 <= i < bs@.len() ==> #[trigger] bs@[i] == Block(i as u32),
    {
        proof {
            use_type_invariant(self);
        }
        let n = self.blocks.len();
        let mut bs: Vec<Block> = Vec::new();
        let mut i: usize = 0;
        while i < n
            invariant
                n == self@.blocks.len(),
                n <= u32::MAX,
                i <= n,
                bs@.len() == i,
                forall|j: int| 0 <= j < i ==> #[trigger] bs@[j] == Block(j as u32),
            decreases n - i,
        {
            bs.push(Block(i as u32));
            i = i + 1;
        }
        bs
    }

    /// Returns a block's parameter values, in order, or an empty slice if the
    /// block handle is out of range.
    pub fn block_params(&self, block: Block) -> (p: &[Value])
        ensures
            p@ == self@.params_of(block),
    {
        let i = block.index();
        if i < self.blocks.len() {
            self.blocks[i].params.as_slice()
        } else {
            &[]
        }
    }

    /// Returns the values defined by a block's instructions, in program order,
    /// or an empty slice if the block handle is out of range.
    pub fn insts(&self, block: Block) -> (p: &[Value])
        ensures
            p@ == self@.insts_of(block),
    {
        let i = block.index();
        if i < self.blocks.len() {
            self.blocks[i].insts.as_slice()
        } else {
            &[]
        }
    }

    /// Returns a block's terminator, or `None` if the block handle is out of
    /// range or no terminator was set.
    pub fn terminator(&self, block: Block) -> (t: Option<&Terminator>)
        ensures
            match t {
                Some(t) => self@.term_of(block) == Some(t@),
                None => self@.term_of(block) is None,
            },
    {
        let i = block.index();
        if i < self.blocks.len() {
            self.blocks[i].term.as_ref()
        } else {
            None
        }
    }

    /// Returns the instruction that defined a value, or `None` if the value is a
    /// block parameter or the handle is out of range.
    pub fn inst(&self, value: Value) -> (r: Option<&Inst>)
        ensures
            match r {
                Some(i) => self@.inst_of(value) == Some(*i),
                None => self@.inst_of(value) is None,
            },
    {
        let i = value.index();
        if i < self.values.len() {
            match &self.values[i].def {
                ValueDef::Inst(_, inst) => Some(inst),
                ValueDef::Param(_) => None,
            }
        } else {
            None
        }
    }

    /// Returns the type of a value, or `None` if the handle is out of range.
    pub fn value_type(&self, value: Value) -> (t: Option<Type>)
        ensures
            t == self@.type_of(value),
    {
        let i = value.index();
        if i < self.values.len() {
            Some(self.values[i].ty)
        } else {
            None
        }
    }

    /// Returns the block a value is defined in, or `None` if the handle is out
    /// of range.
    pub fn value_block(&self, value: Value) -> (b: Option<Block>)
        ensures
            b == self@.block_of(value),
    {
        let i = value.index();
        if i < self.values.len() {
            match self.values[i].def {
                ValueDef::Param(block) => Some(block),
                ValueDef::Inst(block, _) => Some(block),
            }
        } else {
            None
        }
    }
}

} // verus!
