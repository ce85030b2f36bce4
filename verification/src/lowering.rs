//! The lowering law: a function lowered through the builder from any
//! well-typed integer expression tree, the way a front-end walks its syntax
//! tree, validates.
//!
//! The proof carries, alongside the builder's model, a tree over its blocks in
//! which every block's parent was created before it, and shows that every
//! control-flow edge enters a block from a descendant of that block's parent;
//! a block's proper ancestors then dominate it.

use vstd::prelude::*;

use crate::builder::{
    empty_block, fresh_params, lemma_with_block_consistent, lemma_with_inst_consistent,
    lemma_with_term_consistent, listings_consistent, param_data, BuilderModel,
};
use crate::dominance::{available, cfg, dominates, entry_id, listed_in, strictly_dominates, succ_ids};
use crate::entity::{Block, Value};
use crate::function::{FunctionModel, ValueData, ValueDef};
use crate::graph::is_path;
use crate::inst::{BinOp, Inst, TermModel};
use crate::laws::{
    block_ok, inst_well_typed, lemma_steps_keep_no_repeats, lemma_validates_iff_well_formed, no_repeats,
    term_ok, uses_reached, well_formed,
};
use crate::ty::Type;
use crate::validate::{ty, validation};

verus! {

/// Block `d` is block `a` or one of its ancestors in the tree given by
/// `parent` (where every block's parent is numbered below it).
pub open spec fn above(parent: Seq<int>, d: int, a: int) -> bool
    decreases a,
{
    if a == d {
        true
    } else if a <= 0 || a >= parent.len() || !(0 <= parent[a] < a) {
        false
    } else {
        above(parent, d, parent[a])
    }
}

/// `parent` is a tree over `n` blocks rooted at block zero, each block's
/// parent numbered below it.
pub open spec fn tree_ok(parent: Seq<int>, n: int) -> bool {
    &&& parent.len() == n
    &&& n >= 1
    &&& forall|x: int| 0 < x < n ==> 0 <= #[trigger] parent[x] < x
}

/// Every edge `a -> x` of `g` enters a block other than the root, from a
/// descendant of `x`'s parent.
pub open spec fn edges_respect(g: Seq<Seq<usize>>, parent: Seq<int>) -> bool {
    forall|a: int, k: int|
        0 <= a < g.len() && 0 <= k < g[a].len() ==> {
            let x = #[trigger] g[a][k] as int;
            0 < x < g.len() && above(parent, parent[x], a)
        }
}

proof fn lemma_above_trans(parent: Seq<int>, d: int, m: int, a: int)
    requires
        above(parent, d, m),
        above(parent, m, a),
    ensures
        above(parent, d, a),
    decreases a,
{
    if a != m {
        lemma_above_trans(parent, d, m, parent[a]);
    }
}

/// In a graph whose edges respect a tree rooted at the entry block zero,
/// every proper ancestor of a block lies on every path to it.
pub proof fn lemma_ancestors_dominate(
    g: Seq<Seq<usize>>,
    parent: Seq<int>,
    d: int,
    p: Seq<usize>,
)
    requires
        tree_ok(parent, g.len() as int),
        edges_respect(g, parent),
        is_path(g, 0, p),
        0 <= d,
        above(parent, d, p.last() as int),
        d != p.last(),
    ensures
        p.contains(d as usize),
    decreases p.len(),
{
    let x = p.last() as int;
    if p.len() == 1 {
        assert(p[0] == 0);
    } else {
        let i = p.len() - 2;
        let a = p[i] as int;
        assert(g[p[i] as int].contains(p[i + 1]));
        let k = choose|k: int| 0 <= k < g[a].len() && g[a][k] == p[i + 1];
        assert(0 <= a < g.len());
        assert(g[a][k] as int == x);
        assert(above(parent, d, parent[x]));
        lemma_above_trans(parent, d, parent[x], a);
        if d == a {
            assert(p[i] == d as usize);
        } else {
            let q = p.drop_last();
            assert forall|j: int| 0 <= j < q.len() - 1 implies #[trigger] g[q[j] as int].contains(
                q[j + 1],
            ) by {
                assert(g[p[j] as int].contains(p[j + 1]));
            }
            assert forall|j: int| 0 <= j < q.len() implies #[trigger] q[j] < g.len() by {
                assert(p[j] < g.len());
            }
            lemma_ancestors_dominate(g, parent, d, q);
            let j = choose|j: int| 0 <= j < q.len() && q[j] == d as usize;
            assert(p[j] == d as usize);
        }
    }
}

/// Value `v` is listed in block `d`, as a parameter or an instruction result.
pub open spec fn listed(m: BuilderModel, d: int, v: Value) -> bool {
    m.blocks[d].params.contains(v) || m.blocks[d].insts.contains(v)
}

/// Value `v` is available just before position `i` of block `b`: listed in a
/// proper ancestor of `b`, a parameter of `b`, or one of its first `i`
/// instruction results.
pub open spec fn avail_here(m: BuilderModel, parent: Seq<int>, b: int, i: int, v: Value) -> bool {
    ||| exists|d: int|
        0 <= d < m.blocks.len() && d != b && above(parent, d, b) && #[trigger] listed(m, d, v)
    ||| m.blocks[b].params.contains(v)
    ||| m.blocks[b].insts.take(i).contains(v)
}

/// The operands of the instruction at position `i` of block `b` are available
/// there.
pub open spec fn inst_ops_ok(m: BuilderModel, parent: Seq<int>, b: int, i: int) -> bool {
    match m.function().inst_of(m.blocks[b].insts[i]) {
        Some(inst) => forall|k: int|
            0 <= k < inst.operands().len() ==> avail_here(m, parent, b, i, #[trigger] inst.operands()[k]),
        None => true,
    }
}

/// The operands of block `b`'s terminator, if any, are available after all its
/// instructions.
pub open spec fn term_ops_ok(m: BuilderModel, parent: Seq<int>, b: int) -> bool {
    match m.blocks[b].term {
        Some(t) => forall|k: int|
            0 <= k < t.operands().len() ==> avail_here(
                m,
                parent,
                b,
                m.blocks[b].insts.len() as int,
                #[trigger] t.operands()[k],
            ),
        None => true,
    }
}

/// What a lowering keeps, apart from where emission currently goes.
pub open spec fn lw_core(m: BuilderModel, parent: Seq<int>) -> bool {
    let f = m.function();
    let n = m.blocks.len() as int;
    &&& n >= 1
    &&& m.entry == Block(0)
    &&& m.blocks.len() <= u32::MAX
    &&& m.values.len() <= u32::MAX
    &&& m.ret == Type::Int
    &&& m.values.len() >= 1
    &&& m.values[0] == (ValueData { ty: Type::Int, def: ValueDef::Param(Block(0)) })
    &&& m.blocks[0].params.contains(Value(0))
    &&& listings_consistent(f)
    &&& no_repeats(f)
    &&& tree_ok(parent, n)
    &&& edges_respect(cfg(f), parent)
    &&& forall|b: int, k: int|
        0 <= b < n && 0 <= k < m.blocks[b].insts.len() ==> inst_well_typed(
            f,
            #[trigger] m.blocks[b].insts[k],
        )
    &&& forall|b: int| 0 <= b < n && (#[trigger] m.blocks[b].term) is Some ==> term_ok(f, m.blocks[b].term.unwrap())
    &&& forall|b: int, i: int| 0 <= b < n && 0 <= i < m.blocks[b].insts.len() ==> #[trigger] inst_ops_ok(m, parent, b, i)
    &&& forall|b: int| 0 <= b < n ==> #[trigger] term_ops_ok(m, parent, b)
}

/// The lowering invariant: the core, and emission goes to an existing,
/// unterminated block.
pub open spec fn lw_inv(m: BuilderModel, parent: Seq<int>) -> bool {
    &&& lw_core(m, parent)
    &&& m.current.0 < m.blocks.len()
    &&& m.blocks[m.current.0 as int].term is None
}

/// `m2` extends `m1`: the value table grows at the end, blocks are added at
/// the end, old blocks keep their parameters and only gain instructions, and
/// the tree grows at the end.
pub open spec fn extends(m1: BuilderModel, p1: Seq<int>, m2: BuilderModel, p2: Seq<int>) -> bool {
    &&& m2.values.len() >= m1.values.len()
    &&& m2.values.take(m1.values.len() as int) == m1.values
    &&& m2.blocks.len() >= m1.blocks.len()
    &&& forall|b: int|
        0 <= b < m1.blocks.len() ==> (#[trigger] m2.blocks[b]).params == m1.blocks[b].params
            && m2.blocks[b].insts.len() >= m1.blocks[b].insts.len() && m2.blocks[b].insts.take(
            m1.blocks[b].insts.len() as int,
        ) == m1.blocks[b].insts
    &&& m2.entry == m1.entry
    &&& m2.ret == m1.ret
    &&& p2.len() >= p1.len()
    &&& p2.take(p1.len() as int) == p1
}

proof fn lemma_above_extends(p1: Seq<int>, p2: Seq<int>, d: int, a: int)
    requires
        p2.len() >= p1.len(),
        p2.take(p1.len() as int) == p1,
        0 <= a < p1.len(),
        above(p1, d, a),
    ensures
        above(p2, d, a),
    decreases a,
{
    if a != d {
        assert(p2[a] == p1[a]);
        lemma_above_extends(p1, p2, d, p1[a]);
    }
}

proof fn lemma_extends_trans(
    m1: BuilderModel,
    p1: Seq<int>,
    m2: BuilderModel,
    p2: Seq<int>,
    m3: BuilderModel,
    p3: Seq<int>,
)
    requires
        extends(m1, p1, m2, p2),
        extends(m2, p2, m3, p3),
    ensures
        extends(m1, p1, m3, p3),
{
    assert(m3.values.take(m1.values.len() as int) =~= m1.values) by {
        assert forall|i: int| 0 <= i < m1.values.len() implies m3.values[i] == m1.values[i] by {
            assert(m3.values.take(m2.values.len() as int)[i] == m2.values[i]);
            assert(m2.values.take(m1.values.len() as int)[i] == m1.values[i]);
        }
    }
    assert forall|b: int| 0 <= b < m1.blocks.len() implies (#[trigger] m3.blocks[b]).params
        == m1.blocks[b].params && m3.blocks[b].insts.len() >= m1.blocks[b].insts.len()
        && m3.blocks[b].insts.take(m1.blocks[b].insts.len() as int) == m1.blocks[b].insts by {
        assert(m2.blocks[b].params == m1.blocks[b].params);
        assert(m3.blocks[b].params == m2.blocks[b].params);
        let i1 = m1.blocks[b].insts;
        let i2 = m2.blocks[b].insts;
        let i3 = m3.blocks[b].insts;
        assert(i3.take(i1.len() as int) =~= i1) by {
            assert forall|j: int| 0 <= j < i1.len() implies i3[j] == i1[j] by {
                assert(i3.take(i2.len() as int)[j] == i2[j]);
                assert(i2.take(i1.len() as int)[j] == i1[j]);
            }
        }
    }
    assert(p3.take(p1.len() as int) =~= p1) by {
        assert forall|j: int| 0 <= j < p1.len() implies p3[j] == p1[j] by {
            assert(p3.take(p2.len() as int)[j] == p2[j]);
            assert(p2.take(p1.len() as int)[j] == p1[j]);
        }
    }
}

proof fn lemma_listed_extends(m1: BuilderModel, p1: Seq<int>, m2: BuilderModel, p2: Seq<int>, d: int, v: Value)
    requires
        extends(m1, p1, m2, p2),
        0 <= d < m1.blocks.len(),
        listed(m1, d, v),
    ensures
        listed(m2, d, v),
{
    assert(m2.blocks[d].params == m1.blocks[d].params);
    if m1.blocks[d].insts.contains(v) {
        let j = choose|j: int| 0 <= j < m1.blocks[d].insts.len() && m1.blocks[d].insts[j] == v;
        assert(m2.blocks[d].insts.take(m1.blocks[d].insts.len() as int)[j] == v);
    }
}

proof fn lemma_avail_extends(
    m1: BuilderModel,
    p1: Seq<int>,
    m2: BuilderModel,
    p2: Seq<int>,
    b: int,
    i: int,
    j: int,
    v: Value,
)
    requires
        extends(m1, p1, m2, p2),
        p1.len() == m1.blocks.len(),
        0 <= b < m1.blocks.len(),
        0 <= i <= j,
        i <= m1.blocks[b].insts.len(),
        j <= m2.blocks[b].insts.len(),
        avail_here(m1, p1, b, i, v),
    ensures
        avail_here(m2, p2, b, j, v),
{
    assert(m2.blocks[b].params == m1.blocks[b].params);
    if exists|d: int| 0 <= d < m1.blocks.len() && d != b && above(p1, d, b) && #[trigger] listed(m1, d, v) {
        let d = choose|d: int| 0 <= d < m1.blocks.len() && d != b && above(p1, d, b) && #[trigger] listed(m1, d, v);
        lemma_listed_extends(m1, p1, m2, p2, d, v);
        lemma_above_extends(p1, p2, d, b);
        assert(listed(m2, d, v));
    } else if m1.blocks[b].insts.take(i).contains(v) {
        let q = choose|q: int| 0 <= q < i && m1.blocks[b].insts.take(i)[q] == v;
        assert(m2.blocks[b].insts.take(m1.blocks[b].insts.len() as int)[q] == v);
        assert(m2.blocks[b].insts.take(j)[q] == v);
    }
}

proof fn lemma_typed_extends(f1: FunctionModel, f2: FunctionModel, v: Value)
    requires
        f2.values.len() >= f1.values.len(),
        f2.values.take(f1.values.len() as int) == f1.values,
        f1.has_value(v),
        inst_well_typed(f1, v),
    ensures
        inst_well_typed(f2, v),
{
    assert(f2.values[v.0 as int] == f1.values[v.0 as int]) by {
        assert(f2.values.take(f1.values.len() as int)[v.0 as int] == f1.values[v.0 as int]);
    }
    assert forall|w: Value| f1.has_value(w) implies f2.values[w.0 as int] == f1.values[w.0 as int] by {
        assert(f2.values.take(f1.values.len() as int)[w.0 as int] == f1.values[w.0 as int]);
    }
}

proof fn lemma_term_ok_extends(m1: BuilderModel, p1: Seq<int>, m2: BuilderModel, p2: Seq<int>, t: TermModel)
    requires
        extends(m1, p1, m2, p2),
        term_ok(m1.function(), t),
    ensures
        term_ok(m2.function(), t),
{
    let f1 = m1.function();
    let f2 = m2.function();
    assert forall|w: Value| f1.has_value(w) implies f2.values[w.0 as int] == f1.values[w.0 as int] by {
        assert(m2.values.take(m1.values.len() as int)[w.0 as int] == m1.values[w.0 as int]);
    }
    assert forall|b: Block| f1.has_block(b) implies f2.params_of(b) == f1.params_of(b) by {
        assert(m2.blocks[b.0 as int].params == m1.blocks[b.0 as int].params);
    }
    match t {
        TermModel::Jump(target, args) => {
            assert(f2.params_of(target) == f1.params_of(target));
            assert forall|i: int| 0 <= i < args.len() implies {
                &&& f2.has_value(#[trigger] args[i])
                &&& f2.has_value(f2.params_of(target)[i])
                &&& ty(f2, args[i]) == ty(f2, f2.params_of(target)[i])
            } by {
                assert(f1.has_value(args[i]));
                assert(f1.has_value(f1.params_of(target)[i]));
            }
        },
        TermModel::Branch { cond, then_block, then_args, else_block, else_args } => {
            assert(f2.params_of(then_block) == f1.params_of(then_block));
            assert(f2.params_of(else_block) == f1.params_of(else_block));
            assert forall|i: int| 0 <= i < then_args.len() implies {
                &&& f2.has_value(#[trigger] then_args[i])
                &&& f2.has_value(f2.params_of(then_block)[i])
                &&& ty(f2, then_args[i]) == ty(f2, f2.params_of(then_block)[i])
            } by {
                assert(f1.has_value(then_args[i]));
                assert(f1.has_value(f1.params_of(then_block)[i]));
            }
            assert forall|i: int| 0 <= i < else_args.len() implies {
                &&& f2.has_value(#[trigger] else_args[i])
                &&& f2.has_value(f2.params_of(else_block)[i])
                &&& ty(f2, else_args[i]) == ty(f2, f2.params_of(else_block)[i])
            } by {
                assert(f1.has_value(else_args[i]));
                assert(f1.has_value(f1.params_of(else_block)[i]));
            }
        },
        _ => {},
    }
}

/// The core carries over to an extension whose new instructions and changed
/// terminators satisfy it on their own.
proof fn lemma_core_preserved(m: BuilderModel, p: Seq<int>, g: BuilderModel, p2: Seq<int>)
    requires
        lw_core(m, p),
        extends(m, p, g, p2),
        g.blocks.len() <= u32::MAX,
        g.values.len() <= u32::MAX,
        listings_consistent(g.function()),
        no_repeats(g.function()),
        tree_ok(p2, g.blocks.len() as int),
        edges_respect(cfg(g.function()), p2),
        forall|b: int, k: int|
            0 <= b < g.blocks.len() && 0 <= k < g.blocks[b].insts.len() && !(b < m.blocks.len() && k
                < m.blocks[b].insts.len()) ==> inst_well_typed(g.function(), #[trigger] g.blocks[b].insts[k])
                && inst_ops_ok(g, p2, b, k),
        forall|b: int|
            0 <= b < g.blocks.len() && (#[trigger] g.blocks[b].term) is Some && !(b < m.blocks.len()
                && g.blocks[b].term == m.blocks[b].term) ==> term_ok(g.function(), g.blocks[b].term.unwrap())
                && term_ops_ok(g, p2, b),
    ensures
        lw_core(g, p2),
{
    let f = m.function();
    let h = g.function();
    let n = m.blocks.len() as int;
    assert(g.values[0] == m.values[0]) by {
        assert(g.values.take(m.values.len() as int)[0] == m.values[0]);
    }
    assert(g.blocks[0].params == m.blocks[0].params);
    assert forall|b: int, k: int|
        0 <= b < g.blocks.len() && 0 <= k < g.blocks[b].insts.len() implies inst_well_typed(
        h,
        #[trigger] g.blocks[b].insts[k],
    ) by {
        if b < n && k < m.blocks[b].insts.len() {
            assert(g.blocks[b].insts.take(m.blocks[b].insts.len() as int)[k] == m.blocks[b].insts[k]);
            assert(inst_well_typed(f, m.blocks[b].insts[k]));
            let v = m.blocks[b].insts[k];
            assert(f.has_value(v));
            lemma_typed_extends(f, h, v);
        }
    }
    assert forall|b: int| 0 <= b < g.blocks.len() && (#[trigger] g.blocks[b].term) is Some implies term_ok(
        h,
        g.blocks[b].term.unwrap(),
    ) by {
        if b < n && g.blocks[b].term == m.blocks[b].term {
            lemma_term_ok_extends(m, p, g, p2, m.blocks[b].term.unwrap());
        }
    }
    assert forall|b: int, i: int| 0 <= b < g.blocks.len() && 0 <= i < g.blocks[b].insts.len() implies #[trigger] inst_ops_ok(
        g,
        p2,
        b,
        i,
    ) by {
        if b < n && i < m.blocks[b].insts.len() {
            let v = m.blocks[b].insts[i];
            assert(g.blocks[b].insts.take(m.blocks[b].insts.len() as int)[i] == v);
            assert(inst_ops_ok(m, p, b, i));
            assert(f.has_value(v));
            assert(g.values.take(m.values.len() as int)[v.0 as int] == m.values[v.0 as int]);
            assert(h.inst_of(v) == f.inst_of(v));
            match f.inst_of(v) {
                Some(inst) => {
                    assert forall|k: int| 0 <= k < inst.operands().len() implies avail_here(
                        g,
                        p2,
                        b,
                        i,
                        #[trigger] inst.operands()[k],
                    ) by {
                        lemma_avail_extends(m, p, g, p2, b, i, i, inst.operands()[k]);
                    }
                },
                None => {},
            }
        }
    }
    assert forall|b: int| 0 <= b < g.blocks.len() implies #[trigger] term_ops_ok(g, p2, b) by {
        if b < n && g.blocks[b].term == m.blocks[b].term {
            assert(term_ops_ok(m, p, b));
            match m.blocks[b].term {
                Some(t) => {
                    assert forall|k: int| 0 <= k < t.operands().len() implies avail_here(
                        g,
                        p2,
                        b,
                        g.blocks[b].insts.len() as int,
                        #[trigger] t.operands()[k],
                    ) by {
                        lemma_avail_extends(
                            m,
                            p,
                            g,
                            p2,
                            b,
                            m.blocks[b].insts.len() as int,
                            g.blocks[b].insts.len() as int,
                            t.operands()[k],
                        );
                    }
                },
                None => {},
            }
        }
    }
}

/// The builder with emission switched to block `b`.
pub open spec fn switched(m: BuilderModel, b: Block) -> BuilderModel {
    BuilderModel { current: b, ..m }
}

proof fn lemma_step_switch(m: BuilderModel, p: Seq<int>, b: Block)
    requires
        lw_core(m, p),
        b.0 < m.blocks.len(),
        m.blocks[b.0 as int].term is None,
    ensures
        lw_inv(switched(m, b), p),
        extends(m, p, switched(m, b), p),
{
    let g = switched(m, b);
    lemma_steps_keep_no_repeats(m, seq![], Inst::Bconst(true), Type::Bool, TermModel::Return(None), b);
    assert(g.function() == m.function());
    assert(g.blocks == m.blocks);
    assert(g.values.take(m.values.len() as int) =~= m.values);
    assert(p.take(p.len() as int) =~= p);
    assert forall|bb: int| 0 <= bb < m.blocks.len() implies (#[trigger] g.blocks[bb]).params
        == m.blocks[bb].params && g.blocks[bb].insts.len() >= m.blocks[bb].insts.len()
        && g.blocks[bb].insts.take(m.blocks[bb].insts.len() as int) == m.blocks[bb].insts by {
        assert(m.blocks[bb].insts.take(m.blocks[bb].insts.len() as int) =~= m.blocks[bb].insts);
    }
    assert(cfg(g.function()) == cfg(m.function()));
    lemma_core_preserved(m, p, g, p);
}

proof fn lemma_step_inst(m: BuilderModel, p: Seq<int>, inst: Inst, t: Type)
    requires
        lw_inv(m, p),
        m.values.len() < u32::MAX,
        inst_well_typed(m.with_inst(inst, t).function(), Value(m.values.len() as u32)),
        forall|k: int|
            0 <= k < inst.operands().len() ==> avail_here(
                m,
                p,
                m.current.0 as int,
                m.blocks[m.current.0 as int].insts.len() as int,
                #[trigger] inst.operands()[k],
            ),
    ensures
        lw_inv(m.with_inst(inst, t), p),
        extends(m, p, m.with_inst(inst, t), p),
{
    let g = m.with_inst(inst, t);
    let c = m.current.0 as int;
    let n = m.blocks.len() as int;
    let nv = m.values.len();
    let v = Value(nv as u32);
    lemma_with_inst_consistent(m, inst, t);
    lemma_steps_keep_no_repeats(m, seq![], inst, t, TermModel::Return(None), m.current);
    assert(g.values.take(nv as int) =~= m.values);
    assert(p.take(p.len() as int) =~= p);
    assert forall|bb: int| 0 <= bb < m.blocks.len() implies (#[trigger] g.blocks[bb]).params
        == m.blocks[bb].params && g.blocks[bb].insts.len() >= m.blocks[bb].insts.len()
        && g.blocks[bb].insts.take(m.blocks[bb].insts.len() as int) == m.blocks[bb].insts by {
        assert(g.blocks[bb].insts.take(m.blocks[bb].insts.len() as int) =~= m.blocks[bb].insts);
    }
    assert(extends(m, p, g, p));
    assert forall|bb: int| 0 <= bb < n implies #[trigger] g.blocks[bb].term == m.blocks[bb].term by {}
    assert(cfg(g.function()) =~= cfg(m.function())) by {
        assert forall|bb: int| 0 <= bb < n implies succ_ids(g.function(), bb) == succ_ids(
            m.function(),
            bb,
        ) by {
            assert(g.blocks[bb].term == m.blocks[bb].term);
        }
    }
    let ins = m.blocks[c].insts;
    assert(g.blocks[c].insts == ins.push(v));
    assert(g.function().inst_of(v) == Some(inst));
    assert forall|k: int| 0 <= k < inst.operands().len() implies avail_here(
        g,
        p,
        c,
        ins.len() as int,
        #[trigger] inst.operands()[k],
    ) by {
        lemma_avail_extends(m, p, g, p, c, ins.len() as int, ins.len() as int, inst.operands()[k]);
    }
    assert(inst_ops_ok(g, p, c, ins.len() as int));
    lemma_core_preserved(m, p, g, p);
}

proof fn lemma_step_block(m: BuilderModel, p: Seq<int>, types: Seq<Type>, par: int)
    requires
        lw_inv(m, p),
        m.blocks.len() < u32::MAX,
        m.values.len() + types.len() <= u32::MAX,
        0 <= par < m.blocks.len(),
    ensures
        lw_inv(m.with_block(types), p.push(par)),
        extends(m, p, m.with_block(types), p.push(par)),
{
    let g = m.with_block(types);
    let p2 = p.push(par);
    let n = m.blocks.len() as int;
    lemma_with_block_consistent(m, types);
    lemma_steps_keep_no_repeats(m, types, Inst::Bconst(true), Type::Bool, TermModel::Return(None), m.current);
    assert(g.values.take(m.values.len() as int) =~= m.values);
    assert(p2.take(p.len() as int) =~= p);
    assert forall|bb: int| 0 <= bb < m.blocks.len() implies (#[trigger] g.blocks[bb]).params
        == m.blocks[bb].params && g.blocks[bb].insts.len() >= m.blocks[bb].insts.len()
        && g.blocks[bb].insts.take(m.blocks[bb].insts.len() as int) == m.blocks[bb].insts by {
        assert(g.blocks[bb] == m.blocks[bb]);
        assert(m.blocks[bb].insts.take(m.blocks[bb].insts.len() as int) =~= m.blocks[bb].insts);
    }
    assert(extends(m, p, g, p2));
    let gf = cfg(g.function());
    let mf = cfg(m.function());
    assert forall|a: int, k: int| 0 <= a < gf.len() && 0 <= k < gf[a].len() implies {
        let x = #[trigger] gf[a][k] as int;
        0 < x < gf.len() && above(p2, p2[x], a)
    } by {
        assert(a < n);
        assert(g.blocks[a] == m.blocks[a]);
        assert(gf[a] == mf[a]);
        let x = mf[a][k] as int;
        assert(0 < x < mf.len() && above(p, p[x], a));
        lemma_above_extends(p, p2, p[x], a);
        assert(p2[x] == p[x]);
    }
    assert(tree_ok(p2, n + 1)) by {
        assert forall|x: int| 0 < x < n + 1 implies 0 <= #[trigger] p2[x] < x by {
            if x < n {
                assert(p2[x] == p[x]);
            }
        }
    }
    lemma_core_preserved(m, p, g, p2);
}

proof fn lemma_step_term(m: BuilderModel, p: Seq<int>, t: TermModel)
    requires
        lw_inv(m, p),
        term_ok(m.function(), t),
        forall|k: int|
            0 <= k < t.operands().len() ==> avail_here(
                m,
                p,
                m.current.0 as int,
                m.blocks[m.current.0 as int].insts.len() as int,
                #[trigger] t.operands()[k],
            ),
        forall|k: int|
            0 <= k < t.successors().len() ==> {
                let x = (#[trigger] t.successors()[k]).0 as int;
                0 < x < m.blocks.len() && above(p, p[x], m.current.0 as int)
            },
    ensures
        lw_core(m.with_term(t), p),
        extends(m, p, m.with_term(t), p),
{
    let g = m.with_term(t);
    let c = m.current.0 as int;
    let n = m.blocks.len() as int;
    lemma_with_term_consistent(m, t);
    lemma_steps_keep_no_repeats(m, seq![], Inst::Bconst(true), Type::Bool, t, m.current);
    assert(g.values.take(m.values.len() as int) =~= m.values);
    assert(p.take(p.len() as int) =~= p);
    assert forall|bb: int| 0 <= bb < m.blocks.len() implies (#[trigger] g.blocks[bb]).params
        == m.blocks[bb].params && g.blocks[bb].insts.len() >= m.blocks[bb].insts.len()
        && g.blocks[bb].insts.take(m.blocks[bb].insts.len() as int) == m.blocks[bb].insts by {
        assert(m.blocks[bb].insts.take(m.blocks[bb].insts.len() as int) =~= m.blocks[bb].insts);
    }
    assert(extends(m, p, g, p));
    let gf = cfg(g.function());
    let mf = cfg(m.function());
    assert forall|a: int, k: int| 0 <= a < gf.len() && 0 <= k < gf[a].len() implies {
        let x = #[trigger] gf[a][k] as int;
        0 < x < gf.len() && above(p, p[x], a)
    } by {
        if a == c {
            assert(gf[a][k] == t.successors()[k].0 as usize);
            let x = t.successors()[k].0 as int;
            assert(0 < x < n && above(p, p[x], c));
        } else {
            assert(g.blocks[a] == m.blocks[a]);
            assert(gf[a] == mf[a]);
        }
    }
    lemma_term_ok_extends(m, p, g, p, t);
    assert forall|k: int| 0 <= k < t.operands().len() implies avail_here(
        g,
        p,
        c,
        g.blocks[c].insts.len() as int,
        #[trigger] t.operands()[k],
    ) by {
        lemma_avail_extends(
            m,
            p,
            g,
            p,
            c,
            m.blocks[c].insts.len() as int,
            m.blocks[c].insts.len() as int,
            t.operands()[k],
        );
    }
    assert(term_ops_ok(g, p, c));
    lemma_core_preserved(m, p, g, p);
}

/// An integer expression tree, the shape a front-end lowers: every node
/// has type `int`.
pub enum Expr {
    /// The function's single integer parameter.
    Param,
    /// An integer literal.
    Lit(i64),
    /// An operation on two sub-expressions.
    Arith(BinOp, Box<Expr>, Box<Expr>),
    /// `if a < b { c } else { d }`, over four sub-expressions.
    IfLt(Box<Expr>, Box<Expr>, Box<Expr>, Box<Expr>),
}

/// The tree is well-typed: every operation node is arithmetic.
pub open spec fn well_typed(e: Expr) -> bool
    decreases e,
{
    match e {
        Expr::Param => true,
        Expr::Lit(_) => true,
        Expr::Arith(op, l, r) => op.arithmetic() && well_typed(*l) && well_typed(*r),
        Expr::IfLt(a, b, c, d) => well_typed(*a) && well_typed(*b) && well_typed(*c) && well_typed(*d),
    }
}

/// The number of values lowering the tree mints.
pub open spec fn new_values(e: Expr) -> nat
    decreases e,
{
    match e {
        Expr::Param => 0,
        Expr::Lit(_) => 1,
        Expr::Arith(_, l, r) => new_values(*l) + new_values(*r) + 1,
        Expr::IfLt(a, b, c, d) => new_values(*a) + new_values(*b) + new_values(*c) + new_values(*d)
            + 2,
    }
}

/// The number of blocks lowering the tree creates.
pub open spec fn new_blocks(e: Expr) -> nat
    decreases e,
{
    match e {
        Expr::Param => 0,
        Expr::Lit(_) => 0,
        Expr::Arith(_, l, r) => new_blocks(*l) + new_blocks(*r),
        Expr::IfLt(a, b, c, d) => new_blocks(*a) + new_blocks(*b) + new_blocks(*c) + new_blocks(*d)
            + 3,
    }
}

/// Lowering a tree through the builder, from the builder's state `m`, with
/// `param` the function's parameter: the resulting state and the value that
/// holds the tree's result. A literal becomes a constant, an operation a
/// binary instruction over its operands' values; an `if` computes the
/// comparison, creates a join block with one `int` parameter and two arm
/// blocks, branches, lowers each arm into its block and jumps to the join with
/// the arm's value, and continues in the join, whose parameter is the result.
pub open spec fn lower(m: BuilderModel, e: Expr, param: Value) -> (BuilderModel, Value)
    decreases e,
{
    match e {
        Expr::Param => (m, param),
        Expr::Lit(n) => (m.with_inst(Inst::Iconst(n), Type::Int), Value(m.values.len() as u32)),
        Expr::Arith(op, l, r) => {
            let (m1, lv) = lower(m, *l, param);
            let (m2, rv) = lower(m1, *r, param);
            (m2.with_inst(Inst::Bin(op, lv, rv), m2.bin_type(op, lv)), Value(m2.values.len() as u32))
        },
        Expr::IfLt(a, b, c, d) => {
            let (m1, av) = lower(m, *a, param);
            let (m2, bv) = lower(m1, *b, param);
            let join = Block(m2.blocks.len() as u32);
            let (m9, tv) = lower(if_open(m2, av, bv), *c, param);
            let m11 = arm_close(m9, join, tv, Block((m2.blocks.len() + 2) as u32));
            let (m12, ev) = lower(m11, *d, param);
            (arm_close(m12, join, ev, join), Value((m2.values.len() + 1) as u32))
        },
    }
}

/// The opening of an `if`: the comparison `av < bv` is emitted, a join
/// block with one `int` parameter and the two arm blocks are created, the
/// current block branches on the comparison to the arms, and emission moves
/// to the first arm.
pub open spec fn if_open(m2: BuilderModel, av: Value, bv: Value) -> BuilderModel {
    let cond = Value(m2.values.len() as u32);
    let m3 = m2.with_inst(Inst::Bin(BinOp::Lt, av, bv), m2.bin_type(BinOp::Lt, av));
    let m6 = m3.with_block(seq![Type::Int]).with_block(seq![]).with_block(seq![]);
    let tb = Block((m2.blocks.len() + 1) as u32);
    let eb = Block((m2.blocks.len() + 2) as u32);
    switched(
        m6.with_term(
            TermModel::Branch {
                cond,
                then_block: tb,
                then_args: seq![],
                else_block: eb,
                else_args: seq![],
            },
        ),
        tb,
    )
}

/// The close of an arm: a jump to the join passing the arm's value, and
/// emission moves to `next`.
pub open spec fn arm_close(m: BuilderModel, join: Block, v: Value, next: Block) -> BuilderModel {
    switched(m.with_term(TermModel::Jump(join, seq![v])), next)
}

proof fn lemma_root_above(p: Seq<int>, n: int, t: int)
    requires
        tree_ok(p, n),
        0 <= t < n,
    ensures
        above(p, 0, t),
    decreases t,
{
    if t > 0 {
        lemma_root_above(p, n, p[t]);
    }
}

/// A value that is the parameter, or listed in an ancestor-or-self `s` of `t`,
/// is available at the end of `t`.
proof fn lemma_avail_end(m: BuilderModel, p: Seq<int>, s: int, t: int, v: Value)
    requires
        lw_core(m, p),
        0 <= s < m.blocks.len(),
        0 <= t < m.blocks.len(),
        above(p, s, t),
        v == Value(0) || listed(m, s, v),
    ensures
        avail_here(m, p, t, m.blocks[t].insts.len() as int, v),
{
    let ins = m.blocks[t].insts;
    assert(ins.take(ins.len() as int) =~= ins);
    if v == Value(0) && !listed(m, s, v) {
        if t == 0 {
            assert(m.blocks[0].params.contains(Value(0)));
        } else {
            lemma_root_above(p, m.blocks.len() as int, t);
            assert(listed(m, 0, Value(0)));
        }
    } else if s != t {
        assert(listed(m, s, v));
    }
}

proof fn lemma_extends_refl(m: BuilderModel, p: Seq<int>)
    ensures
        extends(m, p, m, p),
{
    assert(m.values.take(m.values.len() as int) =~= m.values);
    assert(p.take(p.len() as int) =~= p);
    assert forall|b: int| 0 <= b < m.blocks.len() implies (#[trigger] m.blocks[b]).params
        == m.blocks[b].params && m.blocks[b].insts.len() >= m.blocks[b].insts.len()
        && m.blocks[b].insts.take(m.blocks[b].insts.len() as int) == m.blocks[b].insts by {
        assert(m.blocks[b].insts.take(m.blocks[b].insts.len() as int) =~= m.blocks[b].insts);
    }
}

proof fn lemma_value_extends(m1: BuilderModel, p1: Seq<int>, m2: BuilderModel, p2: Seq<int>, v: Value)
    requires
        extends(m1, p1, m2, p2),
        v.0 < m1.values.len(),
    ensures
        v.0 < m2.values.len(),
        m2.values[v.0 as int] == m1.values[v.0 as int],
{
    assert(m2.values.take(m1.values.len() as int)[v.0 as int] == m1.values[v.0 as int]);
}

proof fn lemma_if_open(m2: BuilderModel, p2: Seq<int>, av: Value, bv: Value)
    requires
        lw_inv(m2, p2),
        m2.values.len() + 2 <= u32::MAX,
        m2.blocks.len() + 3 <= u32::MAX,
        av.0 < m2.values.len(),
        m2.values[av.0 as int].ty == Type::Int,
        bv.0 < m2.values.len(),
        m2.values[bv.0 as int].ty == Type::Int,
        avail_here(m2, p2, m2.current.0 as int, m2.blocks[m2.current.0 as int].insts.len() as int, av),
        avail_here(m2, p2, m2.current.0 as int, m2.blocks[m2.current.0 as int].insts.len() as int, bv),
    ensures
        ({
            let g = if_open(m2, av, bv);
            let s = m2.current.0 as int;
            let n2 = m2.blocks.len() as int;
            let nv2 = m2.values.len() as int;
            let p6 = p2.push(s).push(s).push(s);
            &&& lw_inv(g, p6)
            &&& extends(m2, p2, g, p6)
            &&& g.current == Block((n2 + 1) as u32)
            &&& g.blocks.len() == n2 + 3
            &&& g.values.len() == nv2 + 2
            &&& g.blocks[n2].params == seq![Value((nv2 + 1) as u32)]
            &&& g.values[nv2 + 1] == (ValueData { ty: Type::Int, def: ValueDef::Param(Block(n2 as u32)) })
            &&& g.blocks[n2].term is None
            &&& g.blocks[n2 + 2].term is None
            &&& g.blocks[s].term is Some
            &&& forall|b: int| 0 <= b < n2 && b != s ==> (#[trigger] g.blocks[b]).term == m2.blocks[b].term
            &&& p6[n2] == s
            &&& p6[n2 + 1] == s
            &&& p6[n2 + 2] == s
        }),
{
    let s = m2.current.0 as int;
    let n2 = m2.blocks.len() as int;
    let nv2 = m2.values.len() as int;
    let cond = Value(nv2 as u32);
    let inst = Inst::Bin(BinOp::Lt, av, bv);
    let m3 = m2.with_inst(inst, m2.bin_type(BinOp::Lt, av));
    assert(m2.bin_type(BinOp::Lt, av) == Type::Bool);
    assert(inst.operands() == seq![av, bv]);
    assert(m3.values[nv2] == ValueData { ty: Type::Bool, def: ValueDef::Inst(m2.current, inst) });
    assert(m3.function().inst_of(cond) == Some(inst));
    assert(m3.values[av.0 as int] == m2.values[av.0 as int]);
    assert(m3.values[bv.0 as int] == m2.values[bv.0 as int]);
    assert(inst_well_typed(m3.function(), cond));
    lemma_step_inst(m2, p2, inst, Type::Bool);
    let p4 = p2.push(s);
    let m4 = m3.with_block(seq![Type::Int]);
    lemma_step_block(m3, p2, seq![Type::Int], s);
    let p5 = p4.push(s);
    let m5 = m4.with_block(seq![]);
    lemma_step_block(m4, p4, seq![], s);
    let p6 = p5.push(s);
    let m6 = m5.with_block(seq![]);
    lemma_step_block(m5, p5, seq![], s);
    lemma_extends_trans(m2, p2, m3, p2, m4, p4);
    lemma_extends_trans(m2, p2, m4, p4, m5, p5);
    lemma_extends_trans(m2, p2, m5, p5, m6, p6);
    let tb = Block((n2 + 1) as u32);
    let eb = Block((n2 + 2) as u32);
    let t = TermModel::Branch {
        cond,
        then_block: tb,
        then_args: seq![],
        else_block: eb,
        else_args: seq![],
    };
    let f6 = m6.function();
    lemma_value_extends(m3, p2, m6, p6, cond);
    assert(m6.blocks[n2 + 1].params == fresh_params(nv2 as nat + 1, 0));
    assert(m6.blocks[n2 + 1].params =~= seq![]);
    assert(m6.blocks[n2 + 2].params =~= seq![]);
    assert(f6.params_of(tb) =~= seq![]);
    assert(f6.params_of(eb) =~= seq![]);
    assert(term_ok(f6, t));
    assert(m6.blocks[s].insts == m3.blocks[s].insts);
    assert(m3.blocks[s].insts.last() == cond);
    assert(listed(m6, s, cond));
    lemma_avail_end(m6, p6, s, s, cond);
    assert(t.operands() =~= seq![cond]);
    assert(t.successors() =~= seq![tb, eb]);
    assert(p6[n2 + 1] == s);
    assert(p6[n2 + 2] == s);
    lemma_step_term(m6, p6, t);
    let m7 = m6.with_term(t);
    lemma_extends_trans(m2, p2, m6, p6, m7, p6);
    lemma_step_switch(m7, p6, tb);
    lemma_extends_trans(m2, p2, m7, p6, switched(m7, tb), p6);
    assert(m6.blocks[n2].params == fresh_params(nv2 as nat + 1, 1));
    assert(m6.blocks[n2].params =~= seq![Value((nv2 + 1) as u32)]);
    assert(m6.values[nv2 + 1] == param_data(seq![Type::Int], Block(n2 as u32))[0]);
}

proof fn lemma_arm_close(m: BuilderModel, p: Seq<int>, join: Block, jv: Value, v: Value, next: Block)
    requires
        lw_inv(m, p),
        0 < join.0 < m.blocks.len(),
        m.blocks[join.0 as int].params == seq![jv],
        jv.0 < m.values.len(),
        m.values[jv.0 as int].ty == Type::Int,
        v.0 < m.values.len(),
        m.values[v.0 as int].ty == Type::Int,
        v == Value(0) || listed(m, m.current.0 as int, v),
        above(p, p[join.0 as int], m.current.0 as int),
        next.0 < m.blocks.len(),
        next != m.current,
        m.blocks[next.0 as int].term is None,
    ensures
        ({
            let g = arm_close(m, join, v, next);
            &&& lw_inv(g, p)
            &&& extends(m, p, g, p)
            &&& g.blocks[m.current.0 as int].term is Some
            &&& forall|b: int|
                0 <= b < m.blocks.len() && b != m.current.0 ==> (#[trigger] g.blocks[b]).term
                    == m.blocks[b].term
            &&& g.blocks.len() == m.blocks.len()
            &&& g.values == m.values
            &&& g.current == next
        }),
{
    let c = m.current.0 as int;
    let t = TermModel::Jump(join, seq![v]);
    lemma_avail_end(m, p, c, c, v);
    let f = m.function();
    assert(f.params_of(join) == seq![jv]);
    assert(term_ok(f, t));
    assert(t.operands() =~= seq![v]);
    assert(t.successors() =~= seq![join]);
    lemma_step_term(m, p, t);
    let g7 = m.with_term(t);
    lemma_step_switch(g7, p, next);
    lemma_extends_trans(m, p, g7, p, switched(g7, next), p);
}

/// Every block of `m2` other than its current one keeps its terminator from
/// `m` when it is an old block other than `m`'s current one, and is
/// terminated otherwise.
pub open spec fn settled(m: BuilderModel, m2: BuilderModel) -> bool {
    forall|b: int|
        0 <= b < m2.blocks.len() && b != m2.current.0 ==> if b < m.blocks.len() && b != m.current.0 {
            (#[trigger] m2.blocks[b]).term == m.blocks[b].term
        } else {
            m2.blocks[b].term is Some
        }
}

/// What lowering a tree from `m` guarantees of the resulting state `m2`,
/// the result value `v` and the grown tree `p2`.
pub open spec fn lowered(
    m: BuilderModel,
    p: Seq<int>,
    e: Expr,
    m2: BuilderModel,
    v: Value,
    p2: Seq<int>,
) -> bool {
    &&& lw_inv(m2, p2)
    &&& extends(m, p, m2, p2)
    &&& above(p2, m.current.0 as int, m2.current.0 as int)
    &&& (m2.current == m.current || m2.current.0 >= m.blocks.len())
    &&& (v == Value(0) || listed(m2, m2.current.0 as int, v))
    &&& v.0 < m2.values.len()
    &&& m2.values[v.0 as int].ty == Type::Int
    &&& m2.values.len() == m.values.len() + new_values(e)
    &&& m2.blocks.len() == m.blocks.len() + new_blocks(e)
    &&& settled(m, m2)
}

/// Every block of `mk` other than its current one and the pending blocks `x`
/// and `y` keeps its terminator from `m` when it is an old block other than
/// `m`'s current one, and is terminated otherwise.
pub open spec fn settled_except(m: BuilderModel, mk: BuilderModel, x: int, y: int) -> bool {
    forall|b: int|
        0 <= b < mk.blocks.len() && b != x && b != y && b != mk.current.0 ==> if b < m.blocks.len()
            && b != m.current.0 {
            (#[trigger] mk.blocks[b]).term == m.blocks[b].term
        } else {
            mk.blocks[b].term is Some
        }
}

/// The state inside the lowering of an `if` started from `m`: the comparison
/// was emitted in block `s`, the join is block `n2` (with parameter value
/// `nv2 + 1`), and the arms are blocks `n2 + 1` and `n2 + 2`, all children of
/// `s` in the tree.
pub open spec fn if_ctx(
    m: BuilderModel,
    p: Seq<int>,
    n2: int,
    nv2: int,
    s: int,
    mk: BuilderModel,
    pk: Seq<int>,
) -> bool {
    &&& lw_inv(mk, pk)
    &&& extends(m, p, mk, pk)
    &&& 0 <= s < n2
    &&& 0 <= nv2
    &&& n2 >= m.blocks.len()
    &&& n2 + 3 <= mk.blocks.len()
    &&& (s == m.current.0 || s >= m.blocks.len())
    &&& above(pk, m.current.0 as int, s)
    &&& pk[n2] == s
    &&& pk[n2 + 1] == s
    &&& pk[n2 + 2] == s
    &&& mk.blocks[n2].params == seq![Value((nv2 + 1) as u32)]
    &&& nv2 + 1 < mk.values.len()
    &&& mk.values[nv2 + 1].ty == Type::Int
    &&& mk.blocks[n2].term is None
}

proof fn lemma_if_head(m: BuilderModel, p: Seq<int>, a: Expr, b: Expr, p1: Seq<int>, p2: Seq<int>) -> (p6: Seq<int>)
    requires
        lw_inv(m, p),
        lowered(m, p, a, lower(m, a, Value(0)).0, lower(m, a, Value(0)).1, p1),
        lowered(
            lower(m, a, Value(0)).0,
            p1,
            b,
            lower(lower(m, a, Value(0)).0, b, Value(0)).0,
            lower(lower(m, a, Value(0)).0, b, Value(0)).1,
            p2,
        ),
        lower(lower(m, a, Value(0)).0, b, Value(0)).0.values.len() + 2 <= u32::MAX,
        lower(lower(m, a, Value(0)).0, b, Value(0)).0.blocks.len() + 3 <= u32::MAX,
    ensures
        ({
            let (m1, av) = lower(m, a, Value(0));
            let (m2, bv) = lower(m1, b, Value(0));
            let n2 = m2.blocks.len() as int;
            let nv2 = m2.values.len() as int;
            let m8 = if_open(m2, av, bv);
            &&& if_ctx(m, p, n2, nv2, m2.current.0 as int, m8, p6)
            &&& settled_except(m, m8, n2, n2 + 2)
            &&& m8.current == Block((n2 + 1) as u32)
            &&& m8.blocks[n2 + 2].term is None
            &&& m8.values.len() == nv2 + 2
            &&& m8.blocks.len() == n2 + 3
        }),
{
    let pv = Value(0);
    let c = m.current.0 as int;
    let (m1, av) = lower(m, a, pv);
    let (m2, bv) = lower(m1, b, pv);
    let s1 = m1.current.0 as int;
    let s = m2.current.0 as int;
    let n2 = m2.blocks.len() as int;
    if av != pv {
        lemma_listed_extends(m1, p1, m2, p2, s1, av);
    }
    lemma_above_extends(p1, p2, c, s1);
    lemma_above_trans(p2, c, s1, s);
    lemma_avail_end(m2, p2, s1, s, av);
    lemma_avail_end(m2, p2, s, s, bv);
    lemma_value_extends(m1, p1, m2, p2, av);
    lemma_extends_trans(m, p, m1, p1, m2, p2);
    lemma_if_open(m2, p2, av, bv);
    let m8 = if_open(m2, av, bv);
    let p6 = p2.push(s).push(s).push(s);
    lemma_extends_trans(m, p, m2, p2, m8, p6);
    lemma_above_extends(p2, p6, c, s);
    assert forall|bb: int|
        0 <= bb < m8.blocks.len() && bb != n2 && bb != n2 + 2 && bb != m8.current.0 implies if bb
        < m.blocks.len() && bb != m.current.0 {
        (#[trigger] m8.blocks[bb]).term == m.blocks[bb].term
    } else {
        m8.blocks[bb].term is Some
    } by {
        assert(settled(m, m1));
        assert(settled(m1, m2));
        if bb != s {
            assert(m8.blocks[bb].term == m2.blocks[bb].term);
            if bb < m1.blocks.len() && bb != m1.current.0 {
                assert(m2.blocks[bb].term == m1.blocks[bb].term);
            }
        }
    }
    p6
}

proof fn lemma_if_arm(
    m: BuilderModel,
    p: Seq<int>,
    n2: int,
    nv2: int,
    s: int,
    mk: BuilderModel,
    pk: Seq<int>,
    sub: Expr,
    pk2: Seq<int>,
    next: int,
)
    requires
        if_ctx(m, p, n2, nv2, s, mk, pk),
        mk.current.0 == n2 + 1 || mk.current.0 == n2 + 2,
        next == n2 || next == n2 + 2,
        next != mk.current.0,
        mk.blocks[next].term is None,
        settled_except(m, mk, n2, next),
        lowered(mk, pk, sub, lower(mk, sub, Value(0)).0, lower(mk, sub, Value(0)).1, pk2),
    ensures
        ({
            let (mk2, tv) = lower(mk, sub, Value(0));
            let g = arm_close(mk2, Block(n2 as u32), tv, Block(next as u32));
            &&& if_ctx(m, p, n2, nv2, s, g, pk2)
            &&& settled_except(m, g, n2, n2)
            &&& g.current == Block(next as u32)
            &&& g.values.len() == mk2.values.len()
            &&& g.blocks.len() == mk2.blocks.len()
        }),
{
    let (mk2, tv) = lower(mk, sub, Value(0));
    let cur = mk.current.0 as int;
    let t2 = mk2.current.0 as int;
    let join = Block(n2 as u32);
    let jv = Value((nv2 + 1) as u32);
    lemma_extends_trans(m, p, mk, pk, mk2, pk2);
    assert(pk2[n2] == s) by {
        assert(pk2.take(pk.len() as int)[n2] == pk[n2]);
    }
    assert(pk2[cur] == s) by {
        assert(pk2.take(pk.len() as int)[cur] == pk[cur]);
    }
    assert(pk2[n2 + 1] == s) by {
        assert(pk2.take(pk.len() as int)[n2 + 1] == pk[n2 + 1]);
    }
    assert(pk2[n2 + 2] == s) by {
        assert(pk2.take(pk.len() as int)[n2 + 2] == pk[n2 + 2]);
    }
    assert(above(pk2, s, s));
    assert(above(pk2, s, cur));
    lemma_above_trans(pk2, s, cur, t2);
    assert(mk2.blocks[n2].params == mk.blocks[n2].params);
    lemma_value_extends(mk, pk, mk2, pk2, jv);
    assert(mk2.blocks[next].term is None) by {
        assert(settled(mk, mk2));
    }
    assert(mk2.blocks[n2].term is None) by {
        assert(settled(mk, mk2));
    }
    lemma_arm_close(mk2, pk2, join, jv, tv, Block(next as u32));
    let g = arm_close(mk2, join, tv, Block(next as u32));
    lemma_extends_trans(m, p, mk2, pk2, g, pk2);
    lemma_above_extends(pk, pk2, m.current.0 as int, s);
    assert(g.blocks[n2].params == mk2.blocks[n2].params);
    lemma_value_extends(mk2, pk2, g, pk2, jv);
    assert forall|bb: int|
        0 <= bb < g.blocks.len() && bb != n2 && bb != n2 && bb != g.current.0 implies if bb
        < m.blocks.len() && bb != m.current.0 {
        (#[trigger] g.blocks[bb]).term == m.blocks[bb].term
    } else {
        g.blocks[bb].term is Some
    } by {
        assert(settled(mk, mk2));
        if bb != t2 {
            assert(g.blocks[bb].term == mk2.blocks[bb].term);
            if bb < mk.blocks.len() && bb != mk.current.0 {
                assert(mk2.blocks[bb].term == mk.blocks[bb].term);
            }
        }
    }
}

proof fn lemma_if_tail(
    m: BuilderModel,
    p: Seq<int>,
    e: Expr,
    n2: int,
    nv2: int,
    s: int,
    g: BuilderModel,
    pk: Seq<int>,
)
    requires
        if_ctx(m, p, n2, nv2, s, g, pk),
        g.current == Block(n2 as u32),
        settled_except(m, g, n2, n2),
        g.values.len() == m.values.len() + new_values(e),
        g.blocks.len() == m.blocks.len() + new_blocks(e),
    ensures
        lowered(m, p, e, g, Value((nv2 + 1) as u32), pk),
{
    let jv = Value((nv2 + 1) as u32);
    assert(g.blocks[n2].params[0] == jv);
    assert(listed(g, n2, jv));
    assert(above(pk, m.current.0 as int, n2));
    assert forall|bb: int| 0 <= bb < g.blocks.len() && bb != g.current.0 implies if bb
        < m.blocks.len() && bb != m.current.0 {
        (#[trigger] g.blocks[bb]).term == m.blocks[bb].term
    } else {
        g.blocks[bb].term is Some
    } by {
    }
}

#[verifier::spinoff_prover]
proof fn lemma_lower(m: BuilderModel, p: Seq<int>, e: Expr) -> (p2: Seq<int>)
    requires
        lw_inv(m, p),
        well_typed(e),
        m.values.len() + new_values(e) <= u32::MAX,
        m.blocks.len() + new_blocks(e) <= u32::MAX,
    ensures
        lowered(m, p, e, lower(m, e, Value(0)).0, lower(m, e, Value(0)).1, p2),
    decreases e,
{
    let pv = Value(0);
    let c = m.current.0 as int;
    match e {
        Expr::Param => {
            lemma_extends_refl(m, p);
            assert(m.blocks[0].params.contains(Value(0)));
            p
        },
        Expr::Lit(k) => {
            let inst = Inst::Iconst(k);
            let g = m.with_inst(inst, Type::Int);
            let v = Value(m.values.len() as u32);
            assert(g.function().inst_of(v) == Some(inst));
            assert(inst_well_typed(g.function(), v));
            assert(inst.operands() =~= seq![]);
            lemma_step_inst(m, p, inst, Type::Int);
            assert(g.blocks[c].insts.last() == v);
            assert(listed(g, c, v));
            p
        },
        Expr::Arith(op, l, r) => {
            let p1 = lemma_lower(m, p, *l);
            let p2 = lemma_lower(lower(m, *l, pv).0, p1, *r);
            lemma_lower_arith(m, p, op, *l, *r, p1, p2);
            p2
        },
        Expr::IfLt(a, b, cc, d) => {
            let p1 = lemma_lower(m, p, *a);
            let (m1, av) = lower(m, *a, pv);
            let p2 = lemma_lower(m1, p1, *b);
            let (m2, bv) = lower(m1, *b, pv);
            let n2 = m2.blocks.len() as int;
            let nv2 = m2.values.len() as int;
            let s = m2.current.0 as int;
            let p6 = lemma_if_head(m, p, *a, *b, p1, p2);
            let m8 = if_open(m2, av, bv);
            let p9 = lemma_lower(m8, p6, *cc);
            lemma_if_arm(m, p, n2, nv2, s, m8, p6, *cc, p9, n2 + 2);
            let (m9, tv) = lower(m8, *cc, pv);
            let m11 = arm_close(m9, Block(n2 as u32), tv, Block((n2 + 2) as u32));
            let p12 = lemma_lower(m11, p9, *d);
            lemma_if_arm(m, p, n2, nv2, s, m11, p9, *d, p12, n2);
            let (m12, ev) = lower(m11, *d, pv);
            let g = arm_close(m12, Block(n2 as u32), ev, Block(n2 as u32));
            lemma_if_tail(m, p, e, n2, nv2, s, g, p12);
            p12
        },
    }
}

proof fn lemma_lower_arith(m: BuilderModel, p: Seq<int>, op: BinOp, l: Expr, r: Expr, p1: Seq<int>, p2: Seq<int>)
    requires
        lw_inv(m, p),
        op.arithmetic(),
        lowered(m, p, l, lower(m, l, Value(0)).0, lower(m, l, Value(0)).1, p1),
        lowered(
            lower(m, l, Value(0)).0,
            p1,
            r,
            lower(lower(m, l, Value(0)).0, r, Value(0)).0,
            lower(lower(m, l, Value(0)).0, r, Value(0)).1,
            p2,
        ),
        lower(lower(m, l, Value(0)).0, r, Value(0)).0.values.len() + 1 <= u32::MAX,
    ensures
        ({
            let (m1, lv) = lower(m, l, Value(0));
            let (m2, rv) = lower(m1, r, Value(0));
            let g = m2.with_inst(Inst::Bin(op, lv, rv), m2.bin_type(op, lv));
            &&& lw_inv(g, p2)
            &&& extends(m, p, g, p2)
            &&& above(p2, m.current.0 as int, g.current.0 as int)
            &&& (g.current == m.current || g.current.0 >= m.blocks.len())
            &&& listed(g, g.current.0 as int, Value(m2.values.len() as u32))
            &&& g.values[m2.values.len() as int].ty == Type::Int
            &&& g.values.len() == m2.values.len() + 1
            &&& g.blocks.len() == m2.blocks.len()
            &&& settled(m, g)
        }),
{
    let pv = Value(0);
    let c = m.current.0 as int;
    let (m1, lv) = lower(m, l, pv);
    let (m2, rv) = lower(m1, r, pv);
    let s1 = m1.current.0 as int;
    let s2 = m2.current.0 as int;
    if lv != pv {
        lemma_listed_extends(m1, p1, m2, p2, s1, lv);
    }
    lemma_above_extends(p1, p2, c, s1);
    lemma_above_trans(p2, c, s1, s2);
    lemma_avail_end(m2, p2, s1, s2, lv);
    lemma_avail_end(m2, p2, s2, s2, rv);
    lemma_value_extends(m1, p1, m2, p2, lv);
    let inst = Inst::Bin(op, lv, rv);
    let t = m2.bin_type(op, lv);
    assert(t == Type::Int);
    let g = m2.with_inst(inst, t);
    let v = Value(m2.values.len() as u32);
    assert(inst.operands() == seq![lv, rv]);
    assert(g.values[lv.0 as int] == m2.values[lv.0 as int]);
    assert(g.values[rv.0 as int] == m2.values[rv.0 as int]);
    assert(g.function().inst_of(v) == Some(inst));
    assert(inst_well_typed(g.function(), v));
    lemma_step_inst(m2, p2, inst, t);
    lemma_extends_trans(m, p, m1, p1, m2, p2);
    lemma_extends_trans(m, p, m2, p2, g, p2);
    assert(g.blocks[s2].insts.last() == v);
    assert(listed(g, s2, v));
    assert forall|b: int| 0 <= b < g.blocks.len() && b != g.current.0 implies if b < m.blocks.len()
        && b != m.current.0 {
        (#[trigger] g.blocks[b]).term == m.blocks[b].term
    } else {
        g.blocks[b].term is Some
    } by {
        assert(g.blocks[b].term == m2.blocks[b].term);
        assert(settled(m1, m2));
        assert(settled(m, m1));
        if b < m1.blocks.len() && b != m1.current.0 {
            assert(m2.blocks[b].term == m1.blocks[b].term);
        }
    }
}

/// The builder as [`Builder::new`](crate::Builder::new) starts it for a
/// function of one `int` parameter returning `int`.
pub open spec fn start(name: Seq<char>) -> BuilderModel {
    BuilderModel {
        name,
        params: seq![Type::Int],
        ret: Type::Int,
        entry: Block(0),
        blocks: seq![empty_block(fresh_params(0, 1))],
        values: param_data(seq![Type::Int], Block(0)),
        current: Block(0),
    }
}

/// The function a front-end builds from a tree: start the builder, lower the
/// tree with the entry's parameter as the tree's parameter, and return the
/// result.
pub open spec fn lowered_function(name: Seq<char>, e: Expr) -> FunctionModel {
    let (m1, v) = lower(start(name), e, Value(0));
    m1.with_term(TermModel::Return(Some(v))).function()
}

proof fn lemma_avail_to_available(g: BuilderModel, p: Seq<int>, b: int, i: int, v: Value)
    requires
        lw_core(g, p),
        0 <= b < g.blocks.len(),
        0 <= i <= g.blocks[b].insts.len(),
        avail_here(g, p, b, i, v),
    ensures
        available(g.function(), b as usize, i, v),
{
    let f = g.function();
    let n = g.blocks.len() as int;
    if exists|d: int| 0 <= d < n && d != b && above(p, d, b) && #[trigger] listed(g, d, v) {
        let d = choose|d: int| 0 <= d < n && d != b && above(p, d, b) && #[trigger] listed(g, d, v);
        assert(entry_id(f) == 0);
        assert(cfg(f).len() == n);
        assert forall|q: Seq<usize>| is_path(cfg(f), entry_id(f), q) && q.last() == b as usize implies q.contains(
            d as usize,
        ) by {
            lemma_ancestors_dominate(cfg(f), p, d, q);
        }
        assert(dominates(f, d as usize, b as usize));
        assert(strictly_dominates(f, d as usize, b as usize));
        assert(listed_in(f, d as usize, v));
    }
}

/// A function lowered through the builder from any well-typed integer
/// expression tree validates: starting a builder for `fn(int) -> int`,
/// lowering the tree (literals to constants, operations to binary
/// instructions, each `if` to a comparison, a branch to two arm blocks and a
/// jump from each to a join block whose parameter carries the result), and
/// returning its value yields a well-formed function, as long as its handles
/// fit in `u32`.
pub proof fn lemma_lowered_expression_validates(name: Seq<char>, e: Expr)
    requires
        well_typed(e),
        1 + new_values(e) <= u32::MAX,
        1 + new_blocks(e) <= u32::MAX,
    ensures
        well_formed(lowered_function(name, e)),
        validation(lowered_function(name, e)) is Ok,
{
    let m0 = start(name);
    let p0 = seq![0int];
    assert(m0.blocks[0].params =~= seq![Value(0)]);
    assert(m0.blocks[0].params.contains(Value(0))) by {
        assert(m0.blocks[0].params[0] == Value(0));
    }
    assert(m0.values =~= seq![ValueData { ty: Type::Int, def: ValueDef::Param(Block(0)) }]);
    assert(listings_consistent(m0.function()));
    assert(no_repeats(m0.function())) by {
        assert forall|b: int| 0 <= b < m0.blocks.len() implies (#[trigger] m0.blocks[b]).params.no_duplicates()
            && m0.blocks[b].insts.no_duplicates() by {
            assert(b == 0);
        }
    }
    assert(cfg(m0.function()) =~= seq![seq![]]);
    assert(edges_respect(cfg(m0.function()), p0));
    assert forall|b: int| 0 <= b < 1 implies #[trigger] term_ops_ok(m0, p0, b) by {}
    assert(lw_inv(m0, p0));
    let p1 = lemma_lower(m0, p0, e);
    let (m1, v) = lower(m0, e, Value(0));
    let cur = m1.current.0 as int;
    let t = TermModel::Return(Some(v));
    lemma_avail_end(m1, p1, cur, cur, v);
    assert(t.operands() =~= seq![v]);
    assert(t.successors() =~= seq![]);
    assert(term_ok(m1.function(), t));
    lemma_step_term(m1, p1, t);
    let g = m1.with_term(t);
    let f = g.function();
    let n = g.blocks.len() as int;
    assert(f == lowered_function(name, e));
    assert forall|b: int| 0 <= b < n implies #[trigger] block_ok(f, b) by {
        assert(settled(m0, m1));
        if b != cur {
            assert(g.blocks[b].term == m1.blocks[b].term);
        }
        assert(g.blocks[b].term is Some);
        assert(f.blocks[b].params.no_duplicates() && f.blocks[b].insts.no_duplicates());
        let blk = Block(b as u32);
        assert forall|k: int| 0 <= k < f.blocks[b].params.len() implies crate::laws::param_ok(
            f,
            #[trigger] f.blocks[b].params[k],
            blk,
        ) by {
            let v = f.blocks[b].params[k];
            assert(f.has_value(v) && f.values[v.0 as int].def == ValueDef::Param(Block(b as u32)));
        }
        assert forall|k: int| 0 <= k < f.blocks[b].insts.len() implies crate::laws::inst_result_ok(
            f,
            #[trigger] f.blocks[b].insts[k],
            blk,
        ) by {
            let v = f.blocks[b].insts[k];
            assert(f.has_value(v));
        }
    }
    assert forall|b: usize| b < f.blocks.len() && #[trigger] crate::dominance::reachable(f, b) implies uses_reached(
        f,
        b,
    ) by {
        let bi = b as int;
        let insts = f.blocks[bi].insts;
        assert forall|i: int, k: int|
            0 <= i < insts.len() && #[trigger] f.inst_of(insts[i]) is Some && 0 <= k < f.inst_of(
                insts[i],
            ).unwrap().operands().len() implies available(
            f,
            b,
            i,
            #[trigger] f.inst_of(insts[i]).unwrap().operands()[k],
        ) by {
            assert(inst_ops_ok(g, p1, bi, i));
            lemma_avail_to_available(g, p1, bi, i, f.inst_of(insts[i]).unwrap().operands()[k]);
        }
        assert(block_ok(f, bi));
        let tt = f.blocks[bi].term.unwrap();
        assert forall|k: int| 0 <= k < tt.operands().len() implies available(
            f,
            b,
            insts.len() as int,
            #[trigger] tt.operands()[k],
        ) by {
            assert(term_ops_ok(g, p1, bi));
            lemma_avail_to_available(g, p1, bi, insts.len() as int, tt.operands()[k]);
        }
    }
    assert(well_formed(f));
    lemma_validates_iff_well_formed(f);
}

} // verus!
