//! The [`Builder`]: how IR is constructed, and the interface a front-end lowers
//! through.

use vstd::prelude::*;

use crate::entity::{Block, Value};
use crate::function::{BlockData, BlockModel, Function, FunctionModel, ValueData, ValueDef};
use crate::inst::{BinOp, Inst, TermModel, Terminator, UnOp};
use crate::laws::{
    dense, lemma_consistent_never_inconsistent, lemma_new_builder_dense, lemma_new_builder_no_repeats, lemma_steps_keep_dense,
    lemma_steps_keep_no_repeats, no_repeats,
};
use crate::ty::Type;
use crate::validate::{validation, ValidationError};

verus! {

/// The mathematical form of a builder: the function under construction and
/// the block emission currently targets.
pub struct BuilderModel {
    /// The function's name.
    pub name: Seq<char>,
    /// The parameter types, in order.
    pub params: Seq<Type>,
    /// The return type.
    pub ret: Type,
    /// The entry block.
    pub entry: Block,
    /// The blocks created so far, indexed by block handle.
    pub blocks: Seq<BlockModel>,
    /// The values minted so far, indexed by value handle.
    pub values: Seq<ValueData>,
    /// The block the next instruction or terminator goes to.
    pub current: Block,
}

/// Fresh parameter values for a block: one per type, numbered from `first`.
pub open spec fn fresh_params(first: nat, count: nat) -> Seq<Value> {
    Seq::new(count, |i: int| Value((first + i) as u32))
}

/// The value-table entries of a new block's parameters.
pub open spec fn param_data(types: Seq<Type>, b: Block) -> Seq<ValueData> {
    Seq::new(types.len(), |i: int| ValueData { ty: types[i], def: ValueDef::Param(b) })
}

/// A block with the given parameters and nothing else.
pub open spec fn empty_block(params: Seq<Value>) -> BlockModel {
    BlockModel { params, insts: seq![], term: None }
}

impl BuilderModel {
    /// The type of a value, or `Unit` for a handle out of range.
    pub open spec fn value_ty(self, v: Value) -> Type {
        if v.0 < self.values.len() {
            self.values[v.0 as int].ty
        } else {
            Type::Unit
        }
    }

    /// The builder after emitting `inst`, of result type `ty`, into the current
    /// block: a fresh value is minted, recorded with its type and definition,
    /// and listed at the end of the current block when that block exists.
    pub open spec fn with_inst(self, inst: Inst, ty: Type) -> BuilderModel {
        let v = Value(self.values.len() as u32);
        BuilderModel {
            values: self.values.push(ValueData { ty, def: ValueDef::Inst(self.current, inst) }),
            blocks: if self.current.0 < self.blocks.len() {
                self.blocks.update(
                    self.current.0 as int,
                    BlockModel {
                        insts: self.blocks[self.current.0 as int].insts.push(v),
                        ..self.blocks[self.current.0 as int]
                    },
                )
            } else {
                self.blocks
            },
            ..self
        }
    }

    /// The builder after creating a block with parameters of the given types:
    /// the block is appended with fresh parameter values, which are recorded in
    /// the value table.
    pub open spec fn with_block(self, types: Seq<Type>) -> BuilderModel {
        let b = Block(self.blocks.len() as u32);
        BuilderModel {
            blocks: self.blocks.push(empty_block(fresh_params(self.values.len(), types.len()))),
            values: self.values + param_data(types, b),
            ..self
        }
    }

    /// The builder after setting the current block's terminator (nothing
    /// changes when the current block does not exist).
    pub open spec fn with_term(self, t: TermModel) -> BuilderModel {
        BuilderModel {
            blocks: if self.current.0 < self.blocks.len() {
                self.blocks.update(
                    self.current.0 as int,
                    BlockModel { term: Some(t), ..self.blocks[self.current.0 as int] },
                )
            } else {
                self.blocks
            },
            ..self
        }
    }

    /// The result type of a binary operation: `Bool` for comparisons and
    /// logical operations, else the type of the left operand.
    pub open spec fn bin_type(self, op: BinOp, lhs: Value) -> Type {
        if op.comparison() || op.logical() {
            Type::Bool
        } else {
            self.value_ty(lhs)
        }
    }

    /// The result type of a unary operation: the operand's type for `neg`,
    /// `Bool` for `not`.
    pub open spec fn un_type(self, op: UnOp, operand: Value) -> Type {
        match op {
            UnOp::Neg => self.value_ty(operand),
            UnOp::Not => Type::Bool,
        }
    }

    /// The function the builder's contents make.
    pub open spec fn function(self) -> FunctionModel {
        FunctionModel {
            name: self.name,
            params: self.params,
            ret: self.ret,
            entry: self.entry,
            blocks: self.blocks,
            values: self.values,
        }
    }
}

/// Every value a block lists exists, and records that block as its definition
/// site and the listing's kind (parameter or instruction result) as its own.
pub open spec fn listings_consistent(f: FunctionModel) -> bool {
    &&& forall|b: int, k: int|
        0 <= b < f.blocks.len() && 0 <= k < f.blocks[b].params.len() ==> {
            let v = #[trigger] f.blocks[b].params[k];
            &&& f.has_value(v)
            &&& f.values[v.0 as int].def == ValueDef::Param(Block(b as u32))
        }
    &&& forall|b: int, k: int|
        0 <= b < f.blocks.len() && 0 <= k < f.blocks[b].insts.len() ==> {
            let v = #[trigger] f.blocks[b].insts[k];
            &&& f.has_value(v)
            &&& f.values[v.0 as int].def matches ValueDef::Inst(blk, _) && blk == Block(b as u32)
        }
}

/// Every value whose recorded definition site is an existing block is listed
/// there, among the parameters or the instruction results as its kind says.
pub open spec fn values_listed(f: FunctionModel) -> bool {
    forall|v: int|
        0 <= v < f.values.len() ==> match #[trigger] f.values[v].def {
            ValueDef::Param(b) => b.0 < f.blocks.len() ==> f.blocks[b.0 as int].params.contains(
                Value(v as u32),
            ),
            ValueDef::Inst(b, _) => b.0 < f.blocks.len() ==> f.blocks[b.0 as int].insts.contains(
                Value(v as u32),
            ),
        }
}

/// Emitting an instruction keeps the listings consistent.
pub proof fn lemma_with_inst_consistent(m: BuilderModel, inst: Inst, ty: Type)
    requires
        listings_consistent(m.function()),
        m.values.len() < u32::MAX,
    ensures
        listings_consistent(m.with_inst(inst, ty).function()),
{
    let f = m.function();
    let g = m.with_inst(inst, ty).function();
    let c = m.current.0 as int;
    assert forall|bb: int, k: int|
        0 <= bb < g.blocks.len() && 0 <= k < g.blocks[bb].params.len() implies {
        let v = #[trigger] g.blocks[bb].params[k];
        &&& g.has_value(v)
        &&& g.values[v.0 as int].def == ValueDef::Param(Block(bb as u32))
    } by {
        assert(g.blocks[bb].params == f.blocks[bb].params);
        let v = f.blocks[bb].params[k];
        assert(f.has_value(v));
    }
    assert forall|bb: int, k: int|
        0 <= bb < g.blocks.len() && 0 <= k < g.blocks[bb].insts.len() implies {
        let v = #[trigger] g.blocks[bb].insts[k];
        &&& g.has_value(v)
        &&& g.values[v.0 as int].def matches ValueDef::Inst(blk, _) && blk == Block(bb as u32)
    } by {
        if bb == c && k == f.blocks[bb].insts.len() {
        } else {
            assert(g.blocks[bb].insts[k] == f.blocks[bb].insts[k]);
            let v = f.blocks[bb].insts[k];
            assert(f.has_value(v));
        }
    }
}

/// Creating a block keeps the listings consistent.
pub proof fn lemma_with_block_consistent(m: BuilderModel, types: Seq<Type>)
    requires
        listings_consistent(m.function()),
        m.blocks.len() < u32::MAX,
        m.values.len() + types.len() <= u32::MAX,
    ensures
        listings_consistent(m.with_block(types).function()),
{
    let f = m.function();
    let g = m.with_block(types).function();
    assert forall|bb: int, k: int|
        0 <= bb < g.blocks.len() && 0 <= k < g.blocks[bb].params.len() implies {
        let v = #[trigger] g.blocks[bb].params[k];
        &&& g.has_value(v)
        &&& g.values[v.0 as int].def == ValueDef::Param(Block(bb as u32))
    } by {
        if bb < f.blocks.len() {
            assert(g.blocks[bb] == f.blocks[bb]);
            let v = f.blocks[bb].params[k];
            assert(f.has_value(v));
        }
    }
    assert forall|bb: int, k: int|
        0 <= bb < g.blocks.len() && 0 <= k < g.blocks[bb].insts.len() implies {
        let v = #[trigger] g.blocks[bb].insts[k];
        &&& g.has_value(v)
        &&& g.values[v.0 as int].def matches ValueDef::Inst(blk, _) && blk == Block(bb as u32)
    } by {
        assert(g.blocks[bb] == f.blocks[bb]);
        let v = f.blocks[bb].insts[k];
        assert(f.has_value(v));
    }
}

/// Setting a terminator keeps the listings consistent.
pub proof fn lemma_with_term_consistent(m: BuilderModel, t: TermModel)
    requires
        listings_consistent(m.function()),
    ensures
        listings_consistent(m.with_term(t).function()),
{
    let f = m.function();
    let g = m.with_term(t).function();
    assert forall|bb: int, k: int|
        0 <= bb < g.blocks.len() && 0 <= k < g.blocks[bb].params.len() implies {
        let v = #[trigger] g.blocks[bb].params[k];
        &&& g.has_value(v)
        &&& g.values[v.0 as int].def == ValueDef::Param(Block(bb as u32))
    } by {
        assert(g.blocks[bb].params == f.blocks[bb].params);
        let v = f.blocks[bb].params[k];
        assert(f.has_value(v));
    }
    assert forall|bb: int, k: int|
        0 <= bb < g.blocks.len() && 0 <= k < g.blocks[bb].insts.len() implies {
        let v = #[trigger] g.blocks[bb].insts[k];
        &&& g.has_value(v)
        &&& g.values[v.0 as int].def matches ValueDef::Inst(blk, _) && blk == Block(bb as u32)
    } by {
        assert(g.blocks[bb].insts == f.blocks[bb].insts);
        let v = f.blocks[bb].insts[k];
        assert(f.has_value(v));
    }
}

/// Constructs a [`Function`] one instruction at a time.
///
/// The builder mints a fresh [`Value`] for every result and hands it back;
/// result types follow from the operation. Construction does not check
/// well-formedness; run [`Function::validate`] on the result.
pub struct Builder {
    name: String,
    params: Vec<Type>,
    ret: Type,
    entry: Block,
    blocks: Vec<BlockData>,
    values: Vec<ValueData>,
    current: Block,
    in_place: Ghost<bool>,
}

impl View for Builder {
    type V = BuilderModel;

    closed spec fn view(&self) -> BuilderModel {
        BuilderModel {
            name: self.name@,
            params: self.params@,
            ret: self.ret,
            entry: self.entry,
            blocks: self.blocks@.map_values(|b: BlockData| b@),
            values: self.values@,
            current: self.current,
        }
    }
}

impl Builder {
    /// What every builder maintains: the entry is block zero and exists, the
    /// handles fit in `u32`, and the listings and the value table agree.
    pub closed spec fn wf(&self) -> bool {
        let f = self@.function();
        &&& self@.blocks.len() >= 1
        &&& self@.entry == Block(0)
        &&& self@.blocks.len() <= u32::MAX
        &&& self@.values.len() <= u32::MAX
        &&& listings_consistent(f)
        &&& no_repeats(f)
        &&& self.in_place@ ==> dense(f)
    }

    /// Every instruction emitted so far went to a block that existed, so that
    /// it was listed there.
    pub closed spec fn emitted_in_place(&self) -> bool {
        self.in_place@
    }

    /// The invariant gives the handle bounds, listings that agree with the
    /// value table and repeat no value, and, while every instruction went to
    /// an existing block, a dense value table.
    pub proof fn lemma_wf(&self)
        requires
            self.wf(),
        ensures
            self@.blocks.len() >= 1,
            self@.entry == Block(0),
            self@.blocks.len() <= u32::MAX,
            self@.values.len() <= u32::MAX,
            listings_consistent(self@.function()),
            no_repeats(self@.function()),
            self.emitted_in_place() ==> dense(self@.function()),
    {
    }

    /// Starts a new function with the given name, parameter types, and return
    /// type. The entry block is block zero, has one parameter per function
    /// parameter, and is the current block.
    pub fn new(name: &str, params: &[Type], ret: Type) -> (b: Builder)
        requires
            params@.len() <= u32::MAX,
        ensures
            b.wf(),
            b.emitted_in_place(),
            b@ == (BuilderModel {
                name: name@,
                params: params@,
                ret,
                entry: Block(0),
                blocks: seq![empty_block(fresh_params(0, params@.len()))],
                values: param_data(params@, Block(0)),
                current: Block(0),
            }),
    {
        let entry = Block(0);
        let mut types: Vec<Type> = Vec::new();
        let mut values: Vec<ValueData> = Vec::new();
        let mut entry_params: Vec<Value> = Vec::new();
        let mut i: usize = 0;
        while i < params.len()
            invariant
                params@.len() <= u32::MAX,
                i <= params@.len(),
                types@ == params@.take(i as int),
                values@ == param_data(params@.take(i as int), entry),
                entry_params@ == fresh_params(0, i as nat),
            decreases params@.len() - i,
        {
            let ty = params[i];
            types.push(ty);
            values.push(ValueData { ty, def: ValueDef::Param(entry) });
            entry_params.push(Value(i as u32));
            proof {
                assert(params@.take(i + 1) =~= params@.take(i as int).push(ty));
                assert(types@ =~= params@.take(i + 1));
                assert(values@ =~= param_data(params@.take(i + 1), entry));
                assert(entry_params@ =~= fresh_params(0, (i + 1) as nat));
            }
            i = i + 1;
        }
        proof {
            assert(params@.take(params@.len() as int) =~= params@);
        }
        let mut blocks: Vec<BlockData> = Vec::new();
        blocks.push(BlockData { params: entry_params, insts: Vec::new(), term: None });
        let b = Builder {
            name: String::from_str(name),
            params: types,
            ret,
            entry,
            blocks,
            values,
            current: entry,
            in_place: Ghost(true),
        };
        proof {
            assert(b@.blocks =~= seq![empty_block(fresh_params(0, params@.len()))]);
            lemma_new_builder_dense(name@, params@, ret);
            lemma_new_builder_no_repeats(name@, params@, ret);
        }
        b
    }

    /// Returns the entry block.
    pub fn entry(&self) -> (b: Block)
        ensures
            b == self@.entry,
    {
        self.entry
    }

    /// Returns how many values the builder has minted; an instruction can be
    /// emitted while this is below `u32::MAX`.
    pub fn value_count(&self) -> (n: usize)
        ensures
            n == self@.values.len(),
    {
        self.values.len()
    }

    /// Returns the block that emission currently targets.
    pub fn current_block(&self) -> (b: Block)
        ensures
            b == self@.current,
    {
        self.current
    }

    /// Creates a new block with the given parameter types and returns its
    /// handle. The new block does not become current.
    pub fn create_block(&mut self, params: &[Type]) -> (b: Block)
        requires
            old(self).wf(),
            old(self)@.blocks.len() < u32::MAX,
            old(self)@.values.len() + params@.len() <= u32::MAX,
        ensures
            final(self).wf(),
            final(self).emitted_in_place() == old(self).emitted_in_place(),
            b == Block(old(self)@.blocks.len() as u32),
            final(self)@ == old(self)@.with_block(params@),
    {
        let block = Block(self.blocks.len() as u32);
        let first = self.values.len();
        let ghost old_values = self.values@;
        let mut block_params: Vec<Value> = Vec::new();
        let mut i: usize = 0;
        while i < params.len()
            invariant
                first == old_values.len(),
                old_values == old(self).values@,
                self.blocks@ == old(self).blocks@,
                self.name@ == old(self).name@,
                self.params@ == old(self).params@,
                self.ret == old(self).ret,
                self.entry == old(self).entry,
                self.current == old(self).current,
                self.in_place == old(self).in_place,
                block == Block(old(self).blocks@.len() as u32),
                first + params@.len() <= u32::MAX,
                i <= params@.len(),
                self.values@ == old_values + param_data(params@.take(i as int), block),
                block_params@ == fresh_params(first as nat, i as nat),
            decreases params@.len() - i,
        {
            let ty = params[i];
            self.values.push(ValueData { ty, def: ValueDef::Param(block) });
            block_params.push(Value((first + i) as u32));
            proof {
                assert(params@.take(i + 1) =~= params@.take(i as int).push(ty));
                assert(self.values@ =~= old_values + param_data(params@.take(i + 1), block));
                assert(block_params@ =~= fresh_params(first as nat, (i + 1) as nat));
            }
            i = i + 1;
        }
        proof {
            assert(params@.take(params@.len() as int) =~= params@);
        }
        self.blocks.push(BlockData { params: block_params, insts: Vec::new(), term: None });
        proof {
            let o = old(self)@;
            assert(self@.blocks =~= o.blocks.push(empty_block(fresh_params(o.values.len(), params@.len()))));
            lemma_with_block_consistent(o, params@);
            lemma_steps_keep_no_repeats(o, params@, Inst::Bconst(true), Type::Bool, TermModel::Return(None), o.current);
            if self.in_place@ {
                lemma_steps_keep_dense(o, params@, Inst::Bconst(true), Type::Bool, TermModel::Return(None), o.current);
            }
        }
        block
    }

    /// Returns a block's parameter values, in order, or an empty slice if the
    /// block handle is out of range.
    pub fn block_params(&self, block: Block) -> (p: &[Value])
        ensures
            p@ == self@.function().params_of(block),
    {
        let i = block.index();
        if i < self.blocks.len() {
            self.blocks[i].params.as_slice()
        } else {
            &[]
        }
    }

    /// Switches emission to `block`.
    pub fn switch_to(&mut self, block: Block)
        ensures
            final(self)@ == (BuilderModel { current: block, ..old(self)@ }),
            old(self).wf() ==> final(self).wf(),
            final(self).emitted_in_place() == old(self).emitted_in_place(),
    {
        self.current = block;
        proof {
            assert(self@.function() == old(self)@.function());
        }
    }

    fn value_ty(&self, value: Value) -> (t: Type)
        ensures
            t == self@.value_ty(value),
    {
        let i = value.index();
        if i < self.values.len() {
            self.values[i].ty
        } else {
            Type::Unit
        }
    }

    fn push_inst(&mut self, inst: Inst, ty: Type) -> (v: Value)
        requires
            old(self).wf(),
            old(self)@.values.len() < u32::MAX,
        ensures
            final(self).wf(),
            final(self).emitted_in_place() == (old(self).emitted_in_place() && old(self)@.current.0
                < old(self)@.blocks.len()),
            v == Value(old(self)@.values.len() as u32),
            final(self)@ == old(self)@.with_inst(inst, ty),
    {
        let value = Value(self.values.len() as u32);
        self.values.push(ValueData { ty, def: ValueDef::Inst(self.current, inst) });
        let cur = self.current.index();
        let listed = cur < self.blocks.len();
        if listed {
            self.blocks[cur].insts.push(value);
        }
        proof {
            self.in_place@ = self.in_place@ && listed;
        }
        proof {
            let o = old(self)@;
            assert(self@.blocks =~= o.with_inst(inst, ty).blocks);
            lemma_with_inst_consistent(o, inst, ty);
            lemma_steps_keep_no_repeats(o, seq![], inst, ty, TermModel::Return(None), o.current);
            if self.in_place@ {
                lemma_steps_keep_dense(o, seq![], inst, ty, TermModel::Return(None), o.current);
            }
        }
        value
    }

    fn set_terminator(&mut self, term: Terminator)
        requires
            old(self).wf(),
        ensures
            final(self).wf(),
            final(self).emitted_in_place() == old(self).emitted_in_place(),
            final(self)@ == old(self)@.with_term(term@),
    {
        let cur = self.current.index();
        if cur < self.blocks.len() {
            self.blocks[cur].term = Some(term);
        }
        proof {
            let o = old(self)@;
            assert(self@.blocks =~= o.with_term(term@).blocks);
            lemma_with_term_consistent(o, term@);
            lemma_steps_keep_no_repeats(o, seq![], Inst::Bconst(true), Type::Bool, term@, o.current);
            if self.in_place@ {
                lemma_steps_keep_dense(o, seq![], Inst::Bconst(true), Type::Bool, term@, o.current);
            }
        }
    }

    /// Emits an integer constant into the current block and returns its value.
    pub fn iconst(&mut self, value: i64) -> (v: Value)
        requires
            old(self).wf(),
            old(self)@.values.len() < u32::MAX,
        ensures
            final(self).wf(),
            final(self).emitted_in_place() == (old(self).emitted_in_place() && old(self)@.current.0
                < old(self)@.blocks.len()),
            v == Value(old(self)@.values.len() as u32),
            final(self)@ == old(self)@.with_inst(Inst::Iconst(value), Type::Int),
    {
        self.push_inst(Inst::Iconst(value), Type::Int)
    }

    /// Emits a floating-point constant, given as the bits of an `f64`, into the
    /// current block and returns its value.
    pub fn fconst(&mut self, bits: u64) -> (v: Value)
        requires
            old(self).wf(),
            old(self)@.values.len() < u32::MAX,
        ensures
            final(self).wf(),
            final(self).emitted_in_place() == (old(self).emitted_in_place() && old(self)@.current.0
                < old(self)@.blocks.len()),
            v == Value(old(self)@.values.len() as u32),
            final(self)@ == old(self)@.with_inst(Inst::Fconst(bits), Type::Float),
    {
        self.push_inst(Inst::Fconst(bits), Type::Float)
    }

    /// Emits a boolean constant into the current block and returns its value.
    pub fn bconst(&mut self, value: bool) -> (v: Value)
        requires
            old(self).wf(),
            old(self)@.values.len() < u32::MAX,
        ensures
            final(self).wf(),
            final(self).emitted_in_place() == (old(self).emitted_in_place() && old(self)@.current.0
                < old(self)@.blocks.len()),
            v == Value(old(self)@.values.len() as u32),
            final(self)@ == old(self)@.with_inst(Inst::Bconst(value), Type::Bool),
    {
        self.push_inst(Inst::Bconst(value), Type::Bool)
    }

    /// Emits a binary operation over two values and returns the result. The
    /// result type is `Bool` for a comparison or logical operation and the left
    /// operand's type (or `Unit` for a handle out of range) otherwise; whether
    /// the operands suit the operation is checked by validation, not here.
    pub fn bin(&mut self, op: BinOp, lhs: Value, rhs: Value) -> (v: Value)
        requires
            old(self).wf(),
            old(self)@.values.len() < u32::MAX,
        ensures
            final(self).wf(),
            final(self).emitted_in_place() == (old(self).emitted_in_place() && old(self)@.current.0
                < old(self)@.blocks.len()),
            v == Value(old(self)@.values.len() as u32),
            final(self)@ == old(self)@.with_inst(Inst::Bin(op, lhs, rhs), old(self)@.bin_type(op, lhs)),
    {
        let ty = if op.is_comparison() || op.is_logical() {
            Type::Bool
        } else {
            self.value_ty(lhs)
        };
        self.push_inst(Inst::Bin(op, lhs, rhs), ty)
    }

    /// Emits a unary operation over one value and returns the result: `neg`
    /// yields the operand's type, `not` yields `Bool`.
    pub fn un(&mut self, op: UnOp, operand: Value) -> (v: Value)
        requires
            old(self).wf(),
            old(self)@.values.len() < u32::MAX,
        ensures
            final(self).wf(),
            final(self).emitted_in_place() == (old(self).emitted_in_place() && old(self)@.current.0
                < old(self)@.blocks.len()),
            v == Value(old(self)@.values.len() as u32),
            final(self)@ == old(self)@.with_inst(Inst::Un(op, operand), old(self)@.un_type(op, operand)),
    {
        let ty = match op {
            UnOp::Neg => self.value_ty(operand),
            UnOp::Not => Type::Bool,
        };
        self.push_inst(Inst::Un(op, operand), ty)
    }

    /// Sets the current block's terminator to a return, with a value or not.
    pub fn ret(&mut self, value: Option<Value>)
        requires
            old(self).wf(),
        ensures
            final(self).wf(),
            final(self).emitted_in_place() == old(self).emitted_in_place(),
            final(self)@ == old(self)@.with_term(TermModel::Return(value)),
    {
        self.set_terminator(Terminator::Return(value));
    }

    /// Sets the current block's terminator to an unconditional jump, passing
    /// one argument per parameter of the target block.
    pub fn jump(&mut self, target: Block, args: &[Value])
        requires
            old(self).wf(),
        ensures
            final(self).wf(),
            final(self).emitted_in_place() == old(self).emitted_in_place(),
            final(self)@ == old(self)@.with_term(TermModel::Jump(target, args@)),
    {
        let args = copy_values(args);
        self.set_terminator(Terminator::Jump(target, args));
    }

    /// Sets the current block's terminator to a conditional branch: to
    /// `then_block` with `then_args` when `cond` is true, else to `else_block`
    /// with `else_args`.
    pub fn branch(
        &mut self,
        cond: Value,
        then_block: Block,
        then_args: &[Value],
        else_block: Block,
        else_args: &[Value],
    )
        requires
            old(self).wf(),
        ensures
            final(self).wf(),
            final(self).emitted_in_place() == old(self).emitted_in_place(),
            final(self)@ == old(self)@.with_term(
                TermModel::Branch {
                    cond,
                    then_block,
                    then_args: then_args@,
                    else_block,
                    else_args: else_args@,
                },
            ),
    {
        let then_args = copy_values(then_args);
        let else_args = copy_values(else_args);
        self.set_terminator(Terminator::Branch { cond, then_block, then_args, else_block, else_args });
    }

    /// Finishes construction and returns the assembled function, unvalidated.
    /// Its listings agree with its value table and list no value twice; and
    /// when every instruction went to an existing block, every value is
    /// listed, exactly once, in the block its table records. Validation never
    /// finds an inconsistent definition in it.
    pub fn finish(self) -> (f: Function)
        requires
            self.wf(),
        ensures
            f@ == self@.function(),
            listings_consistent(f@),
            no_repeats(f@),
            self.emitted_in_place() ==> dense(f@),
            !(validation(f@) matches Err(ValidationError::InconsistentDefinition { .. })),
    {
        proof {
            lemma_consistent_never_inconsistent(self@.function());
        }
        Function::from_parts(self.name, self.params, self.ret, self.entry, self.blocks, self.values)
    }
}

fn copy_values(s: &[Value]) -> (v: Vec<Value>)
    ensures
        v@ == s@,
{
    let mut v: Vec<Value> = Vec::new();
    let mut i: usize = 0;
    while i < s.len()
        invariant
            i <= s@.len(),
            v@ == s@.take(i as int),
        decreases s@.len() - i,
    {
        v.push(s[i]);
        proof {
            assert(s@.take(i + 1) =~= s@.take(i as int).push(s@[i as int]));
        }
        i = i + 1;
    }
    proof {
        assert(s@.take(s@.len() as int) =~= s@);
    }
    v
}

} // verus!
