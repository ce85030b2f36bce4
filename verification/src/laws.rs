//! The library's laws: what a function that validates satisfies, what every
//! builder step keeps, and how the operations are classified.

use vstd::prelude::*;

use crate::builder::{empty_block, fresh_params, listings_consistent, param_data, values_listed, BuilderModel};
use crate::dominance::{
    available, block_use_check, dominance_error, inst_use_check, inst_use_error,
    lemma_dominance_error_none, reachable, use_check, use_error,
};
use crate::entity::{Block, Value};
use crate::function::{FunctionModel, ValueDef};
use crate::inst::{BinOp, Inst, TermModel, UnOp};
use crate::ty::Type;
use crate::validate::{
    arg_check, block_check, block_error, block_ids, def_error, definitions_error, edge_error,
    first_some, inst_check, lemma_first_some, lemma_listing_ok, pairs, result_type,
    structure_error, terminator_error, ty, validation, ValidationError,
};

verus! {

/// Value `v` exists and is a parameter of block `b`.
pub open spec fn param_ok(f: FunctionModel, v: Value, b: Block) -> bool {
    f.has_value(v) && f.values[v.0 as int].def == ValueDef::Param(b)
}

/// Value `v` exists and is the result of an instruction of block `b`.
pub open spec fn inst_result_ok(f: FunctionModel, v: Value, b: Block) -> bool {
    &&& f.has_value(v)
    &&& f.values[v.0 as int].def matches ValueDef::Inst(blk, _) && blk == b
}

/// The instruction defining `v` applies its operation to existing operands of
/// the right types, and `v` records the type the instruction produces.
pub open spec fn inst_well_typed(f: FunctionModel, v: Value) -> bool {
    match f.inst_of(v) {
        Some(inst) => {
            &&& match inst {
                Inst::Bin(op, l, r) => {
                    &&& f.has_value(l)
                    &&& f.has_value(r)
                    &&& ty(f, l) == ty(f, r)
                    &&& op.logical() ==> ty(f, l) == Type::Bool
                    &&& op.wants_numeric() ==> ty(f, l).numeric()
                },
                Inst::Un(UnOp::Neg, x) => f.has_value(x) && ty(f, x).numeric(),
                Inst::Un(UnOp::Not, x) => f.has_value(x) && ty(f, x) == Type::Bool,
                _ => true,
            }
            &&& f.has_value(v)
            &&& ty(f, v) == result_type(f, inst).unwrap()
        },
        None => true,
    }
}

/// An edge to `target` passing `args` is valid: the target exists, is not the
/// entry, and receives one existing argument of the right type per parameter.
pub open spec fn edge_ok(f: FunctionModel, target: Block, args: Seq<Value>) -> bool {
    &&& f.has_block(target)
    &&& target != f.entry
    &&& args.len() == f.params_of(target).len()
    &&& forall|i: int|
        0 <= i < args.len() ==> {
            &&& f.has_value(#[trigger] args[i])
            &&& f.has_value(f.params_of(target)[i])
            &&& ty(f, args[i]) == ty(f, f.params_of(target)[i])
        }
}

/// A terminator is well-typed and its edges valid.
pub open spec fn term_ok(f: FunctionModel, t: TermModel) -> bool {
    match t {
        TermModel::Return(None) => f.ret == Type::Unit,
        TermModel::Return(Some(v)) => f.has_value(v) && ty(f, v) == f.ret,
        TermModel::Jump(target, args) => edge_ok(f, target, args),
        TermModel::Branch { cond, then_block, then_args, else_block, else_args } => {
            &&& f.has_value(cond)
            &&& ty(f, cond) == Type::Bool
            &&& edge_ok(f, then_block, then_args)
            &&& edge_ok(f, else_block, else_args)
        },
    }
}

/// Block number `b` is well-formed on its own: it is terminated, what it lists
/// agrees with the value table and lists no value twice, its instructions are
/// well-typed, and its terminator is well-typed with valid edges.
pub open spec fn block_ok(f: FunctionModel, b: int) -> bool {
    let blk = Block(b as u32);
    &&& f.blocks[b].term is Some
    &&& f.blocks[b].params.no_duplicates()
    &&& f.blocks[b].insts.no_duplicates()
    &&& forall|k: int|
        0 <= k < f.blocks[b].params.len() ==> param_ok(f, #[trigger] f.blocks[b].params[k], blk)
    &&& forall|k: int|
        0 <= k < f.blocks[b].insts.len() ==> inst_result_ok(f, #[trigger] f.blocks[b].insts[k], blk)
    &&& forall|k: int|
        0 <= k < f.blocks[b].insts.len() ==> inst_well_typed(f, #[trigger] f.blocks[b].insts[k])
    &&& term_ok(f, f.blocks[b].term.unwrap())
}

/// Every value read in block `b` is available where it is read.
pub open spec fn uses_reached(f: FunctionModel, b: usize) -> bool {
    let insts = f.blocks[b as int].insts;
    &&& forall|i: int, k: int|
        0 <= i < insts.len() && #[trigger] f.inst_of(insts[i]) is Some && 0 <= k < f.inst_of(
            insts[i],
        ).unwrap().operands().len() ==> available(
            f,
            b,
            i,
            #[trigger] f.inst_of(insts[i]).unwrap().operands()[k],
        )
    &&& forall|k: int|
        0 <= k < f.blocks[b as int].term.unwrap().operands().len() ==> available(
            f,
            b,
            insts.len() as int,
            #[trigger] f.blocks[b as int].term.unwrap().operands()[k],
        )
}

/// A well-formed function: its entry exists, every block is well-formed on its
/// own, and in every block control can reach, every use is reached by its
/// definition (the defining block strictly dominates the use, or the value is
/// a parameter of the block or an earlier instruction result in it).
pub open spec fn well_formed(f: FunctionModel) -> bool {
    &&& f.has_block(f.entry)
    &&& forall|b: int| 0 <= b < f.blocks.len() ==> #[trigger] block_ok(f, b)
    &&& forall|b: usize| b < f.blocks.len() && #[trigger] reachable(f, b) ==> uses_reached(f, b)
}

proof fn lemma_edge(f: FunctionModel, target: Block, args: Seq<Value>, from: Block)
    ensures
        edge_error(f, target, args, from) is None <==> edge_ok(f, target, args),
{
    if f.has_block(target) && target != f.entry && args.len() == f.params_of(target).len() {
        let ps = pairs(args, f.params_of(target));
        lemma_first_some(ps, arg_check(f), 0);
        if edge_error(f, target, args, from) is None {
            assert forall|i: int| 0 <= i < args.len() implies {
                &&& f.has_value(#[trigger] args[i])
                &&& f.has_value(f.params_of(target)[i])
                &&& ty(f, args[i]) == ty(f, f.params_of(target)[i])
            } by {
                assert(arg_check(f)(ps[i]) is None);
            }
        }
        if edge_ok(f, target, args) {
            assert forall|j: int| 0 <= j < ps.len() implies #[trigger] arg_check(f)(ps[j]) is None by {
                assert(f.has_value(args[j]));
            }
        }
    }
}

proof fn lemma_term(f: FunctionModel, b: Block, t: TermModel)
    ensures
        terminator_error(f, b, t) is None <==> term_ok(f, t),
{
    match t {
        TermModel::Jump(target, args) => {
            lemma_edge(f, target, args, b);
        },
        TermModel::Branch { cond, then_block, then_args, else_block, else_args } => {
            lemma_edge(f, then_block, then_args, b);
            lemma_edge(f, else_block, else_args, b);
        },
        _ => {},
    }
}

proof fn lemma_block(f: FunctionModel, b: int)
    requires
        0 <= b < f.blocks.len(),
        f.blocks.len() <= u32::MAX,
    ensures
        block_error(f, b) is None <==> block_ok(f, b),
{
    let blk = Block(b as u32);
    assert(f.params_of(blk) == f.blocks[b].params);
    assert(f.insts_of(blk) == f.blocks[b].insts);
    lemma_listing_ok(f, f.params_of(blk), blk, true);
    lemma_listing_ok(f, f.insts_of(blk), blk, false);
    lemma_first_some(f.insts_of(blk), inst_check(f), 0);
    if f.blocks[b].term is Some {
        lemma_term(f, blk, f.blocks[b].term.unwrap());
        if block_error(f, b) is None {
            assert forall|k: int| 0 <= k < f.blocks[b].params.len() implies param_ok(
                f,
                #[trigger] f.blocks[b].params[k],
                blk,
            ) by {
                assert(def_error(f, f.params_of(blk)[k], blk, true) is None);
            }
            assert forall|k: int| 0 <= k < f.blocks[b].insts.len() implies inst_result_ok(
                f,
                #[trigger] f.blocks[b].insts[k],
                blk,
            ) by {
                assert(def_error(f, f.insts_of(blk)[k], blk, false) is None);
            }
            assert forall|k: int| 0 <= k < f.blocks[b].insts.len() implies inst_well_typed(
                f,
                #[trigger] f.blocks[b].insts[k],
            ) by {
                assert(inst_check(f)(f.insts_of(blk)[k]) is None);
            }
        }
        if block_ok(f, b) {
            assert forall|j: int| 0 <= j < f.params_of(blk).len() implies #[trigger] def_error(
                f,
                f.params_of(blk)[j],
                blk,
                true,
            ) is None by {
                assert(param_ok(f, f.blocks[b].params[j], blk));
            }
            assert forall|j: int| 0 <= j < f.insts_of(blk).len() implies #[trigger] def_error(
                f,
                f.insts_of(blk)[j],
                blk,
                false,
            ) is None by {
                assert(inst_result_ok(f, f.blocks[b].insts[j], blk));
            }
            assert forall|j: int| 0 <= j < f.insts_of(blk).len() implies #[trigger] inst_check(f)(
                f.insts_of(blk)[j],
            ) is None by {
                assert(inst_well_typed(f, f.blocks[b].insts[j]));
            }
        }
    }
}

proof fn lemma_uses(f: FunctionModel, b: usize)
    requires
        b < f.blocks.len(),
        f.blocks[b as int].term is Some,
    ensures
        use_error(f, b) is None <==> uses_reached(f, b),
{
    let insts = f.blocks[b as int].insts;
    let ids = Seq::new(insts.len(), |i: int| i);
    let t = f.blocks[b as int].term.unwrap();
    lemma_first_some(ids, inst_use_check(f, b), 0);
    lemma_first_some(t.operands(), use_check(f, b, insts.len() as int), 0);
    assert forall|i: int| 0 <= i < insts.len() implies (#[trigger] inst_use_check(f, b)(ids[i]) is None
        <==> (f.inst_of(insts[i]) is Some ==> forall|k: int|
        0 <= k < f.inst_of(insts[i]).unwrap().operands().len() ==> available(
            f,
            b,
            i,
            #[trigger] f.inst_of(insts[i]).unwrap().operands()[k],
        ))) by {
        assert(ids[i] == i);
        if f.inst_of(insts[i]) is Some {
            let ops = f.inst_of(insts[i]).unwrap().operands();
            lemma_first_some(ops, use_check(f, b, i), 0);
            if inst_use_error(f, b, i) is None {
                assert forall|k: int| 0 <= k < ops.len() implies available(f, b, i, #[trigger] ops[k]) by {
                    assert(use_check(f, b, i)(ops[k]) is None);
                }
            }
        }
    }
    if use_error(f, b) is None {
        assert forall|k: int| 0 <= k < t.operands().len() implies available(
            f,
            b,
            insts.len() as int,
            #[trigger] t.operands()[k],
        ) by {
            assert(use_check(f, b, insts.len() as int)(t.operands()[k]) is None);
        }
        assert forall|i: int, k: int|
            0 <= i < insts.len() && #[trigger] f.inst_of(insts[i]) is Some && 0 <= k < f.inst_of(
                insts[i],
            ).unwrap().operands().len() implies available(
            f,
            b,
            i,
            #[trigger] f.inst_of(insts[i]).unwrap().operands()[k],
        ) by {
            assert(inst_use_check(f, b)(ids[i]) is None);
        }
    }
    if uses_reached(f, b) {
        assert forall|j: int| 0 <= j < ids.len() implies #[trigger] inst_use_check(f, b)(ids[j]) is None by {
            if f.inst_of(insts[j]) is Some {
                assert forall|k: int|
                    0 <= k < f.inst_of(insts[j]).unwrap().operands().len() implies available(
                    f,
                    b,
                    j,
                    #[trigger] f.inst_of(insts[j]).unwrap().operands()[k],
                ) by {
                }
            }
        }
        assert forall|j: int| 0 <= j < t.operands().len() implies #[trigger] use_check(
            f,
            b,
            insts.len() as int,
        )(t.operands()[j]) is None by {
        }
    }
}

/// A function validates exactly when it is well-formed: [`Function::validate`]
/// returns `Ok` if and only if the entry exists, every block is terminated,
/// lists values consistently, holds well-typed instructions and a well-typed
/// terminator whose edges reach existing non-entry blocks with matching
/// arguments, and every use in reachable code is reached by its definition.
///
/// [`Function::validate`]: crate::Function::validate
pub proof fn lemma_validates_iff_well_formed(f: FunctionModel)
    requires
        f.blocks.len() <= u32::MAX,
    ensures
        validation(f) is Ok <==> well_formed(f),
{
    let n = f.blocks.len();
    let ids = block_ids(f);
    lemma_first_some(ids, block_check(f), 0);
    assert forall|b: int| 0 <= b < n implies (#[trigger] block_check(f)(ids[b]) is None <==> block_ok(
        f,
        b,
    )) by {
        assert(ids[b] == b);
        lemma_block(f, b);
    }
    if f.has_block(f.entry) && structure_error(f) is None {
        assert forall|b: int| 0 <= b < n implies #[trigger] block_ok(f, b) by {
            assert(block_check(f)(ids[b]) is None);
        }
        lemma_dominance_error_none(f);
        assert forall|b: usize| b < n && #[trigger] reachable(f, b) implies (use_error(f, b) is None
            <==> uses_reached(f, b)) by {
            assert(block_ok(f, b as int));
            lemma_uses(f, b);
        }
    }
    if well_formed(f) {
        assert forall|j: int| 0 <= j < ids.len() implies #[trigger] block_check(f)(ids[j]) is None by {
            assert(block_ok(f, j));
        }
    }
}

/// Value `v`'s recorded definition site is an existing block.
pub open spec fn defined_in_block(f: FunctionModel, v: Value) -> bool {
    match f.block_of(v) {
        Some(b) => f.has_block(b),
        None => false,
    }
}

/// Every value's recorded definition site is an existing block, and the value
/// is listed there: the value handles run densely over `0..value_count` with
/// no gaps.
pub open spec fn dense(f: FunctionModel) -> bool {
    &&& values_listed(f)
    &&& forall|v: Value| f.has_value(v) ==> #[trigger] defined_in_block(f, v)
}

/// A function whose listings agree with its value table and repeat no value
/// passes every block's listing check: the [`Builder`](crate::Builder), whose
/// [`finish`](crate::Builder::finish) guarantees such listings, never produces
/// a listed value out of range, an inconsistent definition or a repeat.
pub proof fn lemma_consistent_listings_pass(f: FunctionModel)
    requires
        f.blocks.len() <= u32::MAX,
        listings_consistent(f),
        no_repeats(f),
    ensures
        forall|b: int| 0 <= b < f.blocks.len() ==> #[trigger] definitions_error(f, Block(b as u32)) is None,
{
    assert forall|b: int| 0 <= b < f.blocks.len() implies #[trigger] definitions_error(
        f,
        Block(b as u32),
    ) is None by {
        let blk = Block(b as u32);
        lemma_listing_ok(f, f.params_of(blk), blk, true);
        lemma_listing_ok(f, f.insts_of(blk), blk, false);
        assert(f.blocks[b].params.no_duplicates() && f.blocks[b].insts.no_duplicates());
        assert forall|j: int| 0 <= j < f.params_of(blk).len() implies #[trigger] def_error(
            f,
            f.params_of(blk)[j],
            blk,
            true,
        ) is None by {
            let v = f.blocks[b].params[j];
            assert(f.has_value(v));
        }
        assert forall|j: int| 0 <= j < f.insts_of(blk).len() implies #[trigger] def_error(
            f,
            f.insts_of(blk)[j],
            blk,
            false,
        ) is None by {
            let v = f.blocks[b].insts[j];
            assert(f.has_value(v));
        }
    }
}

/// A freshly started builder is dense: its values are exactly the entry
/// block's parameters.
pub proof fn lemma_new_builder_dense(name: Seq<char>, params: Seq<Type>, ret: Type)
    requires
        params.len() <= u32::MAX,
    ensures
        dense(
            (BuilderModel {
                name,
                params,
                ret,
                entry: Block(0),
                blocks: seq![empty_block(fresh_params(0, params.len()))],
                values: param_data(params, Block(0)),
                current: Block(0),
            }).function(),
        ),
{
    let m = BuilderModel {
        name,
        params,
        ret,
        entry: Block(0),
        blocks: seq![empty_block(fresh_params(0, params.len()))],
        values: param_data(params, Block(0)),
        current: Block(0),
    };
    let f = m.function();
    assert forall|v: int| 0 <= v < f.values.len() implies match #[trigger] f.values[v].def {
        ValueDef::Param(b) => b.0 < f.blocks.len() ==> f.blocks[b.0 as int].params.contains(
            Value(v as u32),
        ),
        ValueDef::Inst(b, _) => b.0 < f.blocks.len() ==> f.blocks[b.0 as int].insts.contains(
            Value(v as u32),
        ),
    } by {
        assert(f.blocks[0].params[v] == Value(v as u32));
    }
}

/// Each builder step keeps a dense function dense, as long as instructions
/// go to an existing block: creating a block, emitting an instruction into
/// the current block when it exists, setting a terminator, and switching the
/// current block.
pub proof fn lemma_steps_keep_dense(
    m: BuilderModel,
    types: Seq<Type>,
    inst: Inst,
    t: Type,
    term: TermModel,
    target: Block,
)
    requires
        dense(m.function()),
        m.values.len() <= u32::MAX,
    ensures
        m.blocks.len() < u32::MAX && m.values.len() + types.len() <= u32::MAX ==> dense(
            m.with_block(types).function(),
        ),
        m.current.0 < m.blocks.len() && m.values.len() < u32::MAX ==> dense(m.with_inst(inst, t).function()),
        dense(m.with_term(term).function()),
        dense((BuilderModel { current: target, ..m }).function()),
{
    let f = m.function();
    let nb = m.blocks.len();
    let nv = m.values.len();
    let g = m.with_block(types).function();
    if nb < u32::MAX && nv + types.len() <= u32::MAX {
    assert forall|v: int| 0 <= v < g.values.len() implies match #[trigger] g.values[v].def {
        ValueDef::Param(b) => b.0 < g.blocks.len() ==> g.blocks[b.0 as int].params.contains(
            Value(v as u32),
        ),
        ValueDef::Inst(b, _) => b.0 < g.blocks.len() ==> g.blocks[b.0 as int].insts.contains(
            Value(v as u32),
        ),
    } && defined_in_block(g, Value(v as u32)) by {
        if v < nv {
            assert(g.values[v] == f.values[v]);
            assert(f.has_value(Value(v as u32)));
            assert(defined_in_block(f, Value(v as u32)));
            assert(f.values[v].def == g.values[v].def);
            match f.values[v].def {
                ValueDef::Param(b) => {
                    assert(g.blocks[b.0 as int] == f.blocks[b.0 as int]);
                },
                ValueDef::Inst(b, _) => {
                    assert(g.blocks[b.0 as int] == f.blocks[b.0 as int]);
                },
            }
        } else {
            assert(g.values[v] == param_data(types, Block(nb as u32))[v - nv]);
            assert(g.blocks[nb as int].params[v - nv] == Value(v as u32));
        }
    }
    assert forall|v: Value| g.has_value(v) implies #[trigger] defined_in_block(g, v) by {
        assert(Value((v.0 as int) as u32) == v);
    }
    }
    if m.current.0 < m.blocks.len() && nv < u32::MAX {
        let h = m.with_inst(inst, t).function();
        let c = m.current.0 as int;
        assert forall|v: int| 0 <= v < h.values.len() implies match #[trigger] h.values[v].def {
            ValueDef::Param(b) => b.0 < h.blocks.len() ==> h.blocks[b.0 as int].params.contains(
                Value(v as u32),
            ),
            ValueDef::Inst(b, _) => b.0 < h.blocks.len() ==> h.blocks[b.0 as int].insts.contains(
                Value(v as u32),
            ),
        } && defined_in_block(h, Value(v as u32)) by {
            if v < nv {
                assert(h.values[v] == f.values[v]);
                assert(f.has_value(Value(v as u32)));
                assert(defined_in_block(f, Value(v as u32)));
                match f.values[v].def {
                    ValueDef::Param(b) => {
                        assert(h.blocks[b.0 as int].params == f.blocks[b.0 as int].params);
                    },
                    ValueDef::Inst(b, _) => {
                        if b.0 == c {
                            let ins = f.blocks[c].insts;
                            let k = choose|k: int| 0 <= k < ins.len() && ins[k] == Value(v as u32);
                            assert(h.blocks[c].insts[k] == Value(v as u32));
                        } else {
                            assert(h.blocks[b.0 as int] == f.blocks[b.0 as int]);
                        }
                    },
                }
            } else {
                assert(h.blocks[c].insts[f.blocks[c].insts.len() as int] == Value(v as u32));
            }
        }
        assert forall|v: Value| h.has_value(v) implies #[trigger] defined_in_block(h, v) by {
            assert(Value((v.0 as int) as u32) == v);
        }
    }
    let k = m.with_term(term).function();
    assert forall|v: int| 0 <= v < k.values.len() implies match #[trigger] k.values[v].def {
        ValueDef::Param(b) => b.0 < k.blocks.len() ==> k.blocks[b.0 as int].params.contains(
            Value(v as u32),
        ),
        ValueDef::Inst(b, _) => b.0 < k.blocks.len() ==> k.blocks[b.0 as int].insts.contains(
            Value(v as u32),
        ),
    } by {
        assert(f.has_value(Value(v as u32)));
        assert(defined_in_block(f, Value(v as u32)));
        match f.values[v].def {
            ValueDef::Param(b) => {
                assert(k.blocks[b.0 as int].params == f.blocks[b.0 as int].params);
            },
            ValueDef::Inst(b, _) => {
                assert(k.blocks[b.0 as int].insts == f.blocks[b.0 as int].insts);
            },
        }
    }
    assert forall|v: Value| k.has_value(v) implies #[trigger] defined_in_block(k, v) by {
        assert(k.values == f.values);
        assert(k.blocks.len() == f.blocks.len());
        assert(f.has_value(v));
        assert(defined_in_block(f, v));
    }
    assert((BuilderModel { current: target, ..m }).function() == f);
}

/// The error, if any, is not an inconsistent definition.
pub open spec fn not_inconsistent(e: Option<ValidationError>) -> bool {
    !(e matches Some(ValidationError::InconsistentDefinition { .. }))
}

proof fn lemma_first_some_consistent<A>(
    s: Seq<A>,
    c: spec_fn(A) -> Option<ValidationError>,
    i: int,
)
    requires
        forall|j: int| 0 <= j < s.len() ==> not_inconsistent(#[trigger] c(s[j])),
    ensures
        not_inconsistent(first_some(s, c, i)),
    decreases s.len() - i,
{
    if 0 <= i < s.len() {
        lemma_first_some_consistent(s, c, i + 1);
    }
}

proof fn lemma_edge_consistent(f: FunctionModel, target: Block, args: Seq<Value>, from: Block)
    ensures
        not_inconsistent(edge_error(f, target, args, from)),
{
    let ps = pairs(args, f.params_of(target));
    assert forall|j: int| 0 <= j < ps.len() implies not_inconsistent(#[trigger] arg_check(f)(ps[j])) by {}
    lemma_first_some_consistent(ps, arg_check(f), 0);
}

proof fn lemma_block_consistent(f: FunctionModel, b: int)
    requires
        definitions_error(f, Block(b as u32)) is None,
    ensures
        not_inconsistent(block_error(f, b)),
{
    let blk = Block(b as u32);
    assert forall|j: int| 0 <= j < f.insts_of(blk).len() implies not_inconsistent(
        #[trigger] inst_check(f)(f.insts_of(blk)[j]),
    ) by {}
    lemma_first_some_consistent(f.insts_of(blk), inst_check(f), 0);
    match f.blocks[b].term {
        Some(t) => {
            match t {
                TermModel::Jump(target, args) => {
                    lemma_edge_consistent(f, target, args, blk);
                },
                TermModel::Branch { then_block, then_args, else_block, else_args, .. } => {
                    lemma_edge_consistent(f, then_block, then_args, blk);
                    lemma_edge_consistent(f, else_block, else_args, blk);
                },
                _ => {},
            }
        },
        None => {},
    }
}

proof fn lemma_dominance_consistent(f: FunctionModel)
    ensures
        not_inconsistent(dominance_error(f)),
{
    let order = crate::domtree::dom_preorder(f);
    assert forall|j: int| 0 <= j < order.len() implies not_inconsistent(
        #[trigger] block_use_check(f)(order[j]),
    ) by {
        let b = order[j];
        let insts = f.blocks[b as int].insts;
        let ids = Seq::new(insts.len(), |i: int| i);
        assert forall|i: int| 0 <= i < ids.len() implies not_inconsistent(
            #[trigger] inst_use_check(f, b)(ids[i]),
        ) by {
            match f.inst_of(insts[ids[i]]) {
                Some(inst) => {
                    let ops = inst.operands();
                    assert forall|k: int| 0 <= k < ops.len() implies not_inconsistent(
                        #[trigger] use_check(f, b, ids[i])(ops[k]),
                    ) by {}
                    lemma_first_some_consistent(ops, use_check(f, b, ids[i]), 0);
                },
                None => {},
            }
        }
        lemma_first_some_consistent(ids, inst_use_check(f, b), 0);
        match f.blocks[b as int].term {
            Some(t) => {
                let ops = t.operands();
                assert forall|k: int| 0 <= k < ops.len() implies not_inconsistent(
                    #[trigger] use_check(f, b, insts.len() as int)(ops[k]),
                ) by {}
                lemma_first_some_consistent(ops, use_check(f, b, insts.len() as int), 0);
            },
            None => {},
        }
    }
    lemma_first_some_consistent(order, block_use_check(f), 0);
}

/// A function whose listings agree with its value table and repeat no value,
/// as every function the [`Builder`](crate::Builder) finishes does, never
/// fails validation with an inconsistent definition.
pub proof fn lemma_consistent_never_inconsistent(f: FunctionModel)
    requires
        f.blocks.len() <= u32::MAX,
        listings_consistent(f),
        no_repeats(f),
    ensures
        !(validation(f) matches Err(ValidationError::InconsistentDefinition { .. })),
{
    lemma_consistent_listings_pass(f);
    let ids = block_ids(f);
    assert forall|j: int| 0 <= j < ids.len() implies not_inconsistent(#[trigger] block_check(f)(ids[j])) by {
        assert(ids[j] == j);
        assert(definitions_error(f, Block(j as u32)) is None);
        lemma_block_consistent(f, j);
    }
    lemma_first_some_consistent(ids, block_check(f), 0);
    lemma_dominance_consistent(f);
}

/// Value `v` stands at position `k` of block `b`'s parameters, when `param`,
/// or else of its instruction results.
pub open spec fn listed_at(f: FunctionModel, v: Value, b: int, param: bool, k: int) -> bool {
    &&& 0 <= b < f.blocks.len()
    &&& if param {
        0 <= k < f.blocks[b].params.len() && f.blocks[b].params[k] == v
    } else {
        0 <= k < f.blocks[b].insts.len() && f.blocks[b].insts[k] == v
    }
}

/// No block lists a value twice among its parameters, or twice among its
/// instruction results.
pub open spec fn no_repeats(f: FunctionModel) -> bool {
    forall|b: int|
        0 <= b < f.blocks.len() ==> (#[trigger] f.blocks[b]).params.no_duplicates()
            && f.blocks[b].insts.no_duplicates()
}

/// A function that validates repeats no value within a block.
pub proof fn lemma_valid_no_repeats(f: FunctionModel)
    requires
        f.blocks.len() <= u32::MAX,
        validation(f) is Ok,
    ensures
        no_repeats(f),
{
    lemma_validates_iff_well_formed(f);
    assert forall|b: int| 0 <= b < f.blocks.len() implies (#[trigger] f.blocks[b]).params.no_duplicates()
        && f.blocks[b].insts.no_duplicates() by {
        assert(block_ok(f, b));
    }
}

/// In a function that validates, every value is defined exactly once: two
/// positions that list the same value are the same position of the same
/// block's parameters or instruction results.
pub proof fn lemma_valid_single_site(
    f: FunctionModel,
    v: Value,
    b1: int,
    p1: bool,
    k1: int,
    b2: int,
    p2: bool,
    k2: int,
)
    requires
        f.blocks.len() <= u32::MAX,
        validation(f) is Ok,
        listed_at(f, v, b1, p1, k1),
        listed_at(f, v, b2, p2, k2),
    ensures
        b1 == b2,
        p1 == p2,
        k1 == k2,
{
    lemma_validates_iff_well_formed(f);
    assert(block_ok(f, b1));
    assert(block_ok(f, b2));
    if p1 {
        assert(param_ok(f, f.blocks[b1].params[k1], Block(b1 as u32)));
    } else {
        assert(inst_result_ok(f, f.blocks[b1].insts[k1], Block(b1 as u32)));
    }
    if p2 {
        assert(param_ok(f, f.blocks[b2].params[k2], Block(b2 as u32)));
    } else {
        assert(inst_result_ok(f, f.blocks[b2].insts[k2], Block(b2 as u32)));
    }
    assert(b1 == b2);
    assert(p1 == p2);
}

/// Where the listings agree with the value table and no block repeats a
/// value, each value is listed at most once: two positions that list the same
/// value are the same position.
pub proof fn lemma_listed_at_most_once(
    f: FunctionModel,
    v: Value,
    b1: int,
    p1: bool,
    k1: int,
    b2: int,
    p2: bool,
    k2: int,
)
    requires
        f.blocks.len() <= u32::MAX,
        listings_consistent(f),
        no_repeats(f),
        listed_at(f, v, b1, p1, k1),
        listed_at(f, v, b2, p2, k2),
    ensures
        b1 == b2,
        p1 == p2,
        k1 == k2,
{
    if p1 {
        assert(f.blocks[b1].params[k1] == v);
    } else {
        assert(f.blocks[b1].insts[k1] == v);
    }
    if p2 {
        assert(f.blocks[b2].params[k2] == v);
    } else {
        assert(f.blocks[b2].insts[k2] == v);
    }
    assert(b1 == b2);
    assert(f.blocks[b1].params.no_duplicates() && f.blocks[b1].insts.no_duplicates());
}

/// A new builder's function repeats no value within a block.
pub proof fn lemma_new_builder_no_repeats(name: Seq<char>, params: Seq<Type>, ret: Type)
    requires
        params.len() <= u32::MAX,
    ensures
        no_repeats(
            (BuilderModel {
                name,
                params,
                ret,
                entry: Block(0),
                blocks: seq![empty_block(fresh_params(0, params.len()))],
                values: param_data(params, Block(0)),
                current: Block(0),
            }).function(),
        ),
{
    let ps = fresh_params(0, params.len());
    assert forall|i: int, j: int| 0 <= i < ps.len() && 0 <= j < ps.len() && i != j implies ps[i]
        != ps[j] by {
        assert(ps[i] == Value(i as u32));
        assert(ps[j] == Value(j as u32));
    }
    let f = (BuilderModel {
        name,
        params,
        ret,
        entry: Block(0),
        blocks: seq![empty_block(ps)],
        values: param_data(params, Block(0)),
        current: Block(0),
    }).function();
    assert forall|b: int| 0 <= b < f.blocks.len() implies (#[trigger] f.blocks[b]).params.no_duplicates()
        && f.blocks[b].insts.no_duplicates() by {
        assert(f.blocks[b] == empty_block(ps));
    }
}

/// Each builder step keeps every block free of repeated values: creating a
/// block, emitting an instruction, setting a terminator, and switching the
/// current block.
pub proof fn lemma_steps_keep_no_repeats(
    m: BuilderModel,
    types: Seq<Type>,
    inst: Inst,
    t: Type,
    term: TermModel,
    target: Block,
)
    requires
        no_repeats(m.function()),
        listings_consistent(m.function()),
    ensures
        m.values.len() + types.len() <= u32::MAX ==> no_repeats(m.with_block(types).function()),
        m.values.len() < u32::MAX ==> no_repeats(m.with_inst(inst, t).function()),
        no_repeats(m.with_term(term).function()),
        no_repeats((BuilderModel { current: target, ..m }).function()),
{
    let f = m.function();
    let nv = m.values.len();
    let g = m.with_block(types).function();
    let ps = fresh_params(nv, types.len());
    if nv + types.len() <= u32::MAX {
    assert forall|b: int| 0 <= b < g.blocks.len() implies (#[trigger] g.blocks[b]).params.no_duplicates()
        && g.blocks[b].insts.no_duplicates() by {
        if b < f.blocks.len() {
            assert(g.blocks[b] == f.blocks[b]);
            assert(f.blocks[b].params.no_duplicates());
        } else {
            assert(g.blocks[b] == empty_block(ps));
            assert forall|i: int, j: int| 0 <= i < ps.len() && 0 <= j < ps.len() && i != j implies ps[i]
                != ps[j] by {
                assert(ps[i] == Value((nv + i) as u32));
                assert(ps[j] == Value((nv + j) as u32));
            }
        }
    }
    }
    let h = m.with_inst(inst, t).function();
    if nv < u32::MAX {
    assert forall|b: int| 0 <= b < h.blocks.len() implies (#[trigger] h.blocks[b]).params.no_duplicates()
        && h.blocks[b].insts.no_duplicates() by {
        assert(f.blocks[b].params.no_duplicates() && f.blocks[b].insts.no_duplicates());
        if m.current.0 < m.blocks.len() && b == m.current.0 {
            let old_insts = f.blocks[b].insts;
            let w = Value(nv as u32);
            assert(h.blocks[b].insts == old_insts.push(w));
            assert(h.blocks[b].params == f.blocks[b].params);
            assert forall|i: int, j: int|
                0 <= i < old_insts.len() + 1 && 0 <= j < old_insts.len() + 1 && i != j implies old_insts.push(
                w,
            )[i] != old_insts.push(w)[j] by {
                if i < old_insts.len() && j < old_insts.len() {
                } else if i < old_insts.len() {
                    assert(f.has_value(f.blocks[b].insts[i]));
                } else {
                    assert(f.has_value(f.blocks[b].insts[j]));
                }
            }
        } else {
            assert(h.blocks[b] == f.blocks[b]);
        }
    }
    }
    let k = m.with_term(term).function();
    assert forall|b: int| 0 <= b < k.blocks.len() implies (#[trigger] k.blocks[b]).params.no_duplicates()
        && k.blocks[b].insts.no_duplicates() by {
        assert(f.blocks[b].params.no_duplicates() && f.blocks[b].insts.no_duplicates());
        assert(k.blocks[b].params == f.blocks[b].params);
        assert(k.blocks[b].insts == f.blocks[b].insts);
    }
    assert((BuilderModel { current: target, ..m }).function() == f);
}

/// In a function that validates, every block ends in a terminator and every
/// control-flow target is an existing block other than the entry.
pub proof fn lemma_valid_blocks_terminated(f: FunctionModel)
    requires
        f.blocks.len() <= u32::MAX,
        validation(f) is Ok,
    ensures
        forall|b: int| 0 <= b < f.blocks.len() ==> (#[trigger] f.blocks[b].term) is Some,
        forall|b: int, k: int|
            0 <= b < f.blocks.len() && 0 <= k < f.blocks[b].term.unwrap().successors().len() ==> {
                let s = #[trigger] f.blocks[b].term.unwrap().successors()[k];
                f.has_block(s) && s != f.entry
            },
{
    lemma_validates_iff_well_formed(f);
    assert forall|b: int| 0 <= b < f.blocks.len() implies (#[trigger] f.blocks[b].term) is Some by {
        assert(block_ok(f, b));
    }
    assert forall|b: int, k: int|
        0 <= b < f.blocks.len() && 0 <= k < f.blocks[b].term.unwrap().successors().len() implies {
        let s = #[trigger] f.blocks[b].term.unwrap().successors()[k];
        f.has_block(s) && s != f.entry
    } by {
        assert(block_ok(f, b));
    }
}

/// Every binary operation is exactly one of arithmetic, comparison, or
/// logical.
pub proof fn lemma_binop_classes_partition(op: BinOp)
    ensures
        op.arithmetic() || op.comparison() || op.logical(),
        !(op.arithmetic() && op.comparison()),
        !(op.arithmetic() && op.logical()),
        !(op.comparison() && op.logical()),
{
}

} // verus!
