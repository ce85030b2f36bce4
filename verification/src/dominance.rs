//! SSA dominance: every use in reachable code must be reached by its single
//! definition. The specification speaks of paths through the control-flow
//! graph. The check finds the reachable blocks by a depth-first postorder and,
//! for every block, the blocks reachable from the entry while avoiding it,
//! which is exactly what it does not dominate; from those it finds each
//! block's immediate dominator. It then walks the dominator tree once in
//! preorder, keeping a single set of available values: what the blocks on
//! the path down to the current block list, extended on entering a block and
//! shrunk on leaving one.

use vstd::prelude::*;

use crate::entity::{Block, Value};
use crate::function::{Function, FunctionModel};
use crate::graph::{
    closed_graph, dominates_in, graph, is_path, postorder, reaches, reaches_avoiding,
    strictly_dominates_in,
};
use crate::inst::{Inst, Terminator};
use crate::domtree::{
    avoid_table, dom_chain, dom_children, dom_preorder, idom, idoms_exist, idoms_from, is_idom,
    lemma_chain_distinct, lemma_chain_sdom, lemma_entry_dominators, lemma_idom_unique,
    lemma_preorder_covers, lemma_reachable_in_range, lemma_stack_push, preorder_from, stack_order,
    with_depth, lemma_children_are_children,
};
use crate::validate::{
    first_some, lemma_first_some, lemma_first_some_concat, lemma_first_some_same,
    lemma_first_some_single, or_else,
    ValidationError,
};

verus! {

/// The block numbers a block's terminator can transfer control to.
pub open spec fn succ_ids(f: FunctionModel, b: int) -> Seq<usize> {
    match f.blocks[b].term {
        Some(t) => t.successors().map_values(|blk: Block| blk.0 as usize),
        None => seq![],
    }
}

/// The control-flow graph: each block's successor block numbers.
pub open spec fn cfg(f: FunctionModel) -> Seq<Seq<usize>> {
    Seq::new(f.blocks.len(), |b: int| succ_ids(f, b))
}

/// The entry's block number.
pub open spec fn entry_id(f: FunctionModel) -> usize {
    f.entry.0 as usize
}

/// Some path of control flow from the entry ends at block `b`.
pub open spec fn reachable(f: FunctionModel, b: usize) -> bool {
    reaches(cfg(f), entry_id(f), b)
}

/// Every path of control flow from the entry to block `b` passes block `a`.
pub open spec fn dominates(f: FunctionModel, a: usize, b: usize) -> bool {
    dominates_in(cfg(f), entry_id(f), a, b)
}

/// Block `a` dominates block `b` and is not `b`.
pub open spec fn strictly_dominates(f: FunctionModel, a: usize, b: usize) -> bool {
    strictly_dominates_in(cfg(f), entry_id(f), a, b)
}

/// Value `v` is listed in block `a`, as a parameter or an instruction result.
pub open spec fn listed_in(f: FunctionModel, a: usize, v: Value) -> bool {
    f.blocks[a as int].params.contains(v) || f.blocks[a as int].insts.contains(v)
}

/// Value `v` is listed in a block numbered below `lim` that strictly dominates
/// block `b`.
pub open spec fn listed_above(f: FunctionModel, b: usize, lim: int, v: Value) -> bool {
    exists|a: usize| a < lim && strictly_dominates(f, a, b) && #[trigger] listed_in(f, a, v)
}

/// Value `v` is available just before instruction position `i` of block `b`:
/// it is listed in a block that strictly dominates `b`, or it is a parameter of
/// `b`, or it is the result of one of the first `i` instructions of `b`.
pub open spec fn available(f: FunctionModel, b: usize, i: int, v: Value) -> bool {
    ||| listed_above(f, b, f.blocks.len() as int, v)
    ||| f.blocks[b as int].params.contains(v)
    ||| f.blocks[b as int].insts.take(i).contains(v)
}

/// A use of `v` at position `i` of block `b` is an error unless `v` is available.
pub open spec fn use_check(f: FunctionModel, b: usize, i: int) -> spec_fn(Value) -> Option<
    ValidationError,
> {
    |v: Value|
        if available(f, b, i, v) {
            None
        } else {
            Some(ValidationError::UseBeforeDef { value: v, block: Block(b as u32) })
        }
}

/// The first unavailable operand of the instruction at position `i` of block `b`.
pub open spec fn inst_use_error(f: FunctionModel, b: usize, i: int) -> Option<ValidationError> {
    match f.inst_of(f.blocks[b as int].insts[i]) {
        Some(inst) => first_some(inst.operands(), use_check(f, b, i), 0),
        None => None,
    }
}

/// The check applied to each instruction position of block `b`.
pub open spec fn inst_use_check(f: FunctionModel, b: usize) -> spec_fn(int) -> Option<
    ValidationError,
> {
    |i: int| inst_use_error(f, b, i)
}

/// The first use in block `b`, in program order (instruction operands, then the
/// terminator's), whose value is not available there.
pub open spec fn use_error(f: FunctionModel, b: usize) -> Option<ValidationError> {
    let insts = f.blocks[b as int].insts;
    or_else(
        first_some(Seq::new(insts.len(), |i: int| i), inst_use_check(f, b), 0),
        match f.blocks[b as int].term {
            Some(t) => first_some(t.operands(), use_check(f, b, insts.len() as int), 0),
            None => None,
        },
    )
}

/// The check applied to each block the dominance check visits.
pub open spec fn block_use_check(f: FunctionModel) -> spec_fn(usize) -> Option<ValidationError> {
    |b: usize| use_error(f, b)
}

/// The first dominance violation. The reachable blocks are visited in
/// preorder of the dominator tree, a block's children from the
/// highest-numbered down; within a block, uses are checked in program order.
pub open spec fn dominance_error(f: FunctionModel) -> Option<ValidationError> {
    first_some(dom_preorder(f), block_use_check(f), 0)
}

/// No dominance violation is reported exactly when every use in every
/// reachable block is available.
pub proof fn lemma_dominance_error_none(f: FunctionModel)
    requires
        entry_id(f) < f.blocks.len(),
        f.blocks.len() <= u32::MAX,
    ensures
        dominance_error(f) is None <==> forall|b: usize|
            b < f.blocks.len() && #[trigger] reachable(f, b) ==> use_error(f, b) is None,
{
    let order = dom_preorder(f);
    let chk = block_use_check(f);
    lemma_preorder_covers(f);
    lemma_first_some(order, chk, 0);
    if dominance_error(f) is None {
        assert forall|b: usize| b < f.blocks.len() && #[trigger] reachable(f, b) implies use_error(
            f,
            b,
        ) is None by {
            assert(order.contains(b));
            let j = choose|j: int| 0 <= j < order.len() && order[j] == b;
            assert(chk(order[j]) is None);
        }
    }
    if forall|b: usize| b < f.blocks.len() && #[trigger] reachable(f, b) ==> use_error(f, b) is None {
        assert forall|j: int| 0 <= j < order.len() implies #[trigger] chk(order[j]) is None by {
            assert(order.contains(order[j]));
            assert(reachable(f, order[j]));
            lemma_reachable_in_range(f, order[j]);
        }
    }
}

/// What the structural checks establish and the dominance check relies on: the
/// entry exists, every block is terminated, every target exists, and every
/// listed value exists.
pub open spec fn structurally_sound(f: FunctionModel) -> bool {
    &&& f.has_block(f.entry)
    &&& forall|b: int| 0 <= b < f.blocks.len() ==> #[trigger] f.blocks[b].term is Some
    &&& closed_graph(cfg(f))
    &&& forall|a: usize, v: Value|
        a < f.blocks.len() && #[trigger] listed_in(f, a, v) ==> f.has_value(v) && f.block_of(v) == Some(
            Block(a as u32),
        )
}

proof fn lemma_unlisted_unavailable(f: FunctionModel, b: usize, i: int, v: Value)
    requires
        structurally_sound(f),
        b < f.blocks.len(),
        0 <= i <= f.blocks[b as int].insts.len(),
        !f.has_value(v),
    ensures
        !available(f, b, i, v),
{
    if listed_above(f, b, f.blocks.len() as int, v) {
        let w = choose|w: usize|
            w < f.blocks.len() && strictly_dominates(f, w, b) && #[trigger] listed_in(f, w, v);
    }
    if f.blocks[b as int].params.contains(v) {
        assert(listed_in(f, b, v));
    }
    if f.blocks[b as int].insts.take(i).contains(v) {
        let j = choose|j: int| 0 <= j < i && f.blocks[b as int].insts.take(i)[j] == v;
        assert(f.blocks[b as int].insts[j] == v);
        assert(f.blocks[b as int].insts.contains(v));
        assert(listed_in(f, b, v));
    }
}

fn is_available(avail: &Vec<bool>, v: Value) -> (r: bool)
    ensures
        r == (v.0 < avail@.len() && avail@[v.0 as int]),
{
    let i = v.index();
    i < avail.len() && avail[i]
}

/// The marks equal `available` at position `i` of block `b`, for every value.
pub open spec fn marks_available(f: FunctionModel, b: usize, i: int, avail: Seq<bool>) -> bool {
    forall|j: usize| j < avail.len() ==> #[trigger] avail[j as int] == available(f, b, i, Value(j as u32))
}

proof fn lemma_marks_give(f: FunctionModel, b: usize, i: int, avail: Seq<bool>, v: Value)
    requires
        structurally_sound(f),
        b < f.blocks.len(),
        0 <= i <= f.blocks[b as int].insts.len(),
        avail.len() == f.values.len(),
        marks_available(f, b, i, avail),
    ensures
        (v.0 < avail.len() && avail[v.0 as int]) == available(f, b, i, v),
{
    if v.0 < avail.len() {
        assert(avail[(v.0 as usize) as int] == available(f, b, i, Value((v.0 as usize) as u32)));
    } else {
        lemma_unlisted_unavailable(f, b, i, v);
    }
}

/// Value `v` is marked in `avail`.
pub open spec fn marked(avail: Seq<bool>, v: Value) -> bool {
    v.0 < avail.len() && avail[v.0 as int]
}

/// A use of `v` in block `block` is an error unless `avail` marks `v`.
pub open spec fn mark_check(avail: Seq<bool>, block: Block) -> spec_fn(Value) -> Option<ValidationError> {
    |v: Value|
        if marked(avail, v) {
            None
        } else {
            Some(ValidationError::UseBeforeDef { value: v, block })
        }
}

/// Checks the uses of one instruction against the marks `avail`: the first
/// operand not marked is the error, in `block`.
pub fn inst_uses(inst: &Inst, avail: &Vec<bool>, block: Block) -> (r: Option<ValidationError>)
    ensures
        r == first_some(inst.operands(), mark_check(avail@, block), 0),
{
    proof {
        reveal_with_fuel(first_some, 3);
    }
    match inst {
        Inst::Bin(_, l, r) => {
            if !is_available(avail, *l) {
                return Some(ValidationError::UseBeforeDef { value: *l, block });
            }
            if !is_available(avail, *r) {
                return Some(ValidationError::UseBeforeDef { value: *r, block });
            }
            None
        },
        Inst::Un(_, x) => {
            if !is_available(avail, *x) {
                return Some(ValidationError::UseBeforeDef { value: *x, block });
            }
            None
        },
        _ => None,
    }
}

/// Checks the uses `args`, which stand at positions `off..` of the operand
/// sequence `ops`, against the marks `avail`.
fn args_uses(
    args: &Vec<Value>,
    avail: &Vec<bool>,
    block: Block,
    Ghost(ops): Ghost<Seq<Value>>,
    Ghost(off): Ghost<int>,
) -> (r: Option<ValidationError>)
    requires
        0 <= off,
        off + args@.len() <= ops.len(),
        forall|k: int| 0 <= k < args@.len() ==> ops[off + k] == args@[k],
    ensures
        r is Some ==> r == first_some(ops, mark_check(avail@, block), off),
        r is None ==> first_some(ops, mark_check(avail@, block), off) == first_some(
            ops,
            mark_check(avail@, block),
            off + args@.len(),
        ),
{
    let ghost c = mark_check(avail@, block);
    let mut k: usize = 0;
    while k < args.len()
        invariant
            c == mark_check(avail@, block),
            0 <= off,
            off + args@.len() <= ops.len(),
            forall|k: int| 0 <= k < args@.len() ==> ops[off + k] == args@[k],
            k <= args@.len(),
            first_some(ops, c, off) == first_some(ops, c, off + k),
        decreases args@.len() - k,
    {
        let v = args[k];
        proof {
            assert(ops[off + k] == v);
        }
        if !is_available(avail, v) {
            return Some(ValidationError::UseBeforeDef { value: v, block });
        }
        k = k + 1;
    }
    None
}

/// Checks the uses of a terminator against the marks `avail`: the first
/// operand, in order (the returned value; the jump's arguments; the branch's
/// condition, then-arguments and else-arguments), that is not marked is the
/// error, in `block`.
pub fn term_uses(t: &Terminator, avail: &Vec<bool>, block: Block) -> (r: Option<ValidationError>)
    ensures
        r == first_some(t@.operands(), mark_check(avail@, block), 0),
{
    let ghost ops = t@.operands();
    proof {
        reveal_with_fuel(first_some, 2);
    }
    match t {
        Terminator::Return(None) => None,
        Terminator::Return(Some(v)) => {
            if !is_available(avail, *v) {
                Some(ValidationError::UseBeforeDef { value: *v, block })
            } else {
                None
            }
        },
        Terminator::Jump(_, args) => {
            let r = args_uses(args, avail, block, Ghost(ops), Ghost(0));
            r
        },
        Terminator::Branch { cond, then_args, else_args, .. } => {
            if !is_available(avail, *cond) {
                return Some(ValidationError::UseBeforeDef { value: *cond, block });
            }
            let r = args_uses(then_args, avail, block, Ghost(ops), Ghost(1));
            if r.is_some() {
                return r;
            }
            let r = args_uses(else_args, avail, block, Ghost(ops), Ghost(1 + then_args@.len() as int));
            r
        },
    }
}

/// Where the marks equal availability at position `i` of block `b`, checking
/// uses against the marks is checking them against availability.
proof fn lemma_marks_check(f: FunctionModel, b: usize, i: int, avail: Seq<bool>, ops: Seq<Value>)
    requires
        structurally_sound(f),
        b < f.blocks.len(),
        b <= u32::MAX,
        0 <= i <= f.blocks[b as int].insts.len(),
        avail.len() == f.values.len(),
        marks_available(f, b, i, avail),
    ensures
        first_some(ops, mark_check(avail, Block(b as u32)), 0) == first_some(ops, use_check(f, b, i), 0),
{
    assert forall|j: int| 0 <= j < ops.len() implies #[trigger] mark_check(avail, Block(b as u32))(ops[j])
        == use_check(f, b, i)(ops[j]) by {
        lemma_marks_give(f, b, i, avail, ops[j]);
    }
    lemma_first_some_same(ops, mark_check(avail, Block(b as u32)), use_check(f, b, i), 0);
}

/// Marks the values of `vals`, which are listed in some block, and returns
/// nothing; used to add a block's listings to the available set.
fn mark_all(avail: &mut Vec<bool>, vals: &[Value], Ghost(f): Ghost<FunctionModel>, Ghost(a): Ghost<usize>)
    requires
        structurally_sound(f),
        a < f.blocks.len(),
        f.values.len() <= u32::MAX,
        old(avail)@.len() == f.values.len(),
        forall|k: int| 0 <= k < vals@.len() ==> listed_in(f, a, #[trigger] vals@[k]),
    ensures
        final(avail)@.len() == old(avail)@.len(),
        forall|j: int|
            0 <= j < old(avail)@.len() ==> #[trigger] final(avail)@[j] == (old(avail)@[j]
                || vals@.contains(Value(j as u32))),
{
    let ghost start = avail@;
    let mut k: usize = 0;
    while k < vals.len()
        invariant
            structurally_sound(f),
            a < f.blocks.len(),
            start.len() == f.values.len(),
            f.values.len() <= u32::MAX,
            avail@.len() == start.len(),
            forall|k: int| 0 <= k < vals@.len() ==> listed_in(f, a, #[trigger] vals@[k]),
            k <= vals@.len(),
            forall|j: int|
                0 <= j < start.len() ==> #[trigger] avail@[j] == (start[j] || vals@.take(
                    k as int,
                ).contains(Value(j as u32))),
        decreases vals@.len() - k,
    {
        let v = vals[k];
        proof {
            assert(listed_in(f, a, vals@[k as int]));
        }
        avail.set(v.index(), true);
        proof {
            assert(vals@.take(k + 1) =~= vals@.take(k as int).push(v));
            assert forall|j: int| 0 <= j < start.len() implies #[trigger] avail@[j] == (start[j]
                || vals@.take(k + 1).contains(Value(j as u32))) by {
                if j == v.0 {
                    assert(vals@.take(k + 1)[k as int] == v);
                } else {
                    if vals@.take(k + 1).contains(Value(j as u32)) {
                        let w = choose|w: int|
                            0 <= w < k + 1 && #[trigger] vals@.take(k + 1)[w] == Value(j as u32);
                        assert(w != k);
                        assert(vals@.take(k as int)[w] == Value(j as u32));
                    }
                }
            }
        }
        k = k + 1;
    }
    proof {
        assert(vals@.take(vals@.len() as int) =~= vals@);
    }
}

/// Value `v` is listed in one of the blocks on `path`.
pub open spec fn listed_on(f: FunctionModel, path: Seq<usize>, v: Value) -> bool {
    exists|i: int| 0 <= i < path.len() && #[trigger] listed_in(f, path[i], v)
}

/// A pending visit of block `it.0`, with depth bound `it.1`, below the first
/// `it.2` blocks of the open path: the entry below none, or else a reachable
/// block other than the entry whose immediate dominator is the last of them.
pub open spec fn open_item(f: FunctionModel, path: Seq<usize>, it: (usize, usize, usize)) -> bool {
    &&& it.0 < f.blocks.len()
    &&& it.2 <= path.len()
    &&& it.2 == 0 ==> it.0 == entry_id(f)
    &&& it.2 > 0 ==> reachable(f, it.0) && it.0 != entry_id(f) && idom(f, it.0) == path[it.2 - 1]
}

/// Leaving the last block of a path of distinct blocks forgets exactly what
/// that block lists: a value is listed in exactly one block.
proof fn lemma_leave_block(f: FunctionModel, path: Seq<usize>, v: Value)
    requires
        structurally_sound(f),
        f.blocks.len() <= u32::MAX,
        path.len() >= 1,
        path.no_duplicates(),
        forall|i: int| 0 <= i < path.len() ==> #[trigger] path[i] < f.blocks.len(),
    ensures
        (listed_on(f, path, v) && !listed_in(f, path.last(), v)) == listed_on(f, path.drop_last(), v),
{
    let a = path.last();
    let q = path.drop_last();
    if listed_on(f, path, v) && !listed_in(f, a, v) {
        let i = choose|i: int| 0 <= i < path.len() && #[trigger] listed_in(f, path[i], v);
        assert(i != path.len() - 1);
        assert(q[i] == path[i]);
    }
    if listed_on(f, q, v) {
        let i = choose|i: int| 0 <= i < q.len() && #[trigger] listed_in(f, q[i], v);
        assert(q[i] == path[i]);
        assert(path[i] < f.blocks.len());
        assert(path[path.len() - 1] < f.blocks.len());
        if listed_in(f, a, v) {
            assert(f.block_of(v) == Some(Block(a as u32)));
            assert(f.block_of(v) == Some(Block(path[i] as u32)));
            assert(path[i] == path[path.len() - 1]);
        }
    }
}

/// Entering block `b` adds what it lists.
proof fn lemma_listed_on_push(f: FunctionModel, path: Seq<usize>, b: usize, v: Value)
    ensures
        listed_on(f, path.push(b), v) == (listed_on(f, path, v) || listed_in(f, b, v)),
{
    let p2 = path.push(b);
    if listed_on(f, p2, v) {
        let i = choose|i: int| 0 <= i < p2.len() && #[trigger] listed_in(f, p2[i], v);
        if i < path.len() {
            assert(path[i] == p2[i]);
        }
    }
    if listed_on(f, path, v) {
        let i = choose|i: int| 0 <= i < path.len() && #[trigger] listed_in(f, path[i], v);
        assert(p2[i] == path[i]);
    }
    if listed_in(f, b, v) {
        assert(p2[path.len() as int] == b);
    }
}

/// On the path down to block `b`, the values listed are exactly those listed
/// in the blocks that strictly dominate `b`.
proof fn lemma_marks_are_dominators(f: FunctionModel, path: Seq<usize>, b: usize, k: usize, d: usize)
    requires
        entry_id(f) < f.blocks.len(),
        f.blocks.len() <= u32::MAX,
        idoms_exist(f),
        path.len() == d,
        path.len() == 0 || dom_chain(f, path),
        forall|i: int| 0 <= i < path.len() ==> #[trigger] path[i] < f.blocks.len(),
        open_item(f, path, (b, k, d)),
    ensures
        forall|v: Value| #[trigger] listed_on(f, path, v) == listed_above(f, b, f.blocks.len() as int, v),
{
    let n = f.blocks.len() as int;
    if d == 0 {
        assert(b == entry_id(f));
        assert forall|v: Value| #[trigger] listed_on(f, path, v) == listed_above(f, b, n, v) by {
            if listed_above(f, b, n, v) {
                let a = choose|a: usize| a < n && strictly_dominates(f, a, b) && #[trigger] listed_in(f, a, v);
                lemma_entry_dominators(f, a);
            }
        }
    } else {
        assert(reachable(f, b) && b != entry_id(f) && idom(f, b) == path[d - 1]);
        lemma_chain_sdom(f, path, b);
        assert forall|v: Value| #[trigger] listed_on(f, path, v) == listed_above(f, b, n, v) by {
            if listed_above(f, b, n, v) {
                let a = choose|a: usize| a < n && strictly_dominates(f, a, b) && #[trigger] listed_in(f, a, v);
                assert(path.contains(a));
                let i = choose|i: int| 0 <= i < path.len() && path[i] == a;
                assert(listed_in(f, path[i], v));
            }
            if listed_on(f, path, v) {
                let i = choose|i: int| 0 <= i < path.len() && #[trigger] listed_in(f, path[i], v);
                assert(path.contains(path[i]));
                assert(strictly_dominates(f, path[i], b));
                assert(path[i] < n);
            }
        }
    }
}

/// Entering block `b` at position `d` extends the path down the dominator
/// tree.
proof fn lemma_enter_block(f: FunctionModel, path: Seq<usize>, b: usize, d: usize)
    requires
        path.len() == d,
        path.len() == 0 || dom_chain(f, path),
        d == 0 ==> b == entry_id(f),
        d > 0 ==> reachable(f, b) && b != entry_id(f) && idom(f, b) == path[d - 1],
    ensures
        dom_chain(f, path.push(b)),
{
    let p2 = path.push(b);
    assert forall|i: int| 1 <= i < p2.len() implies reachable(f, #[trigger] p2[i]) && p2[i] != entry_id(f)
        && idom(f, p2[i]) == p2[i - 1] by {
        if i < path.len() {
            assert(p2[i] == path[i]);
            assert(reachable(f, path[i]));
        }
        assert(p2[i - 1] == path[i - 1]);
    }
    if d > 0 {
        assert(p2[0] == path[0]);
    }
}

/// Clears the marks of the values `vals`, which are listed in block `a`.
fn clear_all(avail: &mut Vec<bool>, vals: &[Value], Ghost(f): Ghost<FunctionModel>, Ghost(a): Ghost<usize>)
    requires
        structurally_sound(f),
        a < f.blocks.len(),
        f.values.len() <= u32::MAX,
        old(avail)@.len() == f.values.len(),
        forall|k: int| 0 <= k < vals@.len() ==> listed_in(f, a, #[trigger] vals@[k]),
    ensures
        final(avail)@.len() == old(avail)@.len(),
        forall|j: int|
            0 <= j < old(avail)@.len() ==> #[trigger] final(avail)@[j] == (old(avail)@[j]
                && !vals@.contains(Value(j as u32))),
{
    let ghost start = avail@;
    let mut k: usize = 0;
    while k < vals.len()
        invariant
            structurally_sound(f),
            a < f.blocks.len(),
            start.len() == f.values.len(),
            f.values.len() <= u32::MAX,
            avail@.len() == start.len(),
            forall|k: int| 0 <= k < vals@.len() ==> listed_in(f, a, #[trigger] vals@[k]),
            k <= vals@.len(),
            forall|j: int|
                0 <= j < start.len() ==> #[trigger] avail@[j] == (start[j] && !vals@.take(
                    k as int,
                ).contains(Value(j as u32))),
        decreases vals@.len() - k,
    {
        let v = vals[k];
        proof {
            assert(listed_in(f, a, vals@[k as int]));
        }
        avail.set(v.index(), false);
        proof {
            assert(vals@.take(k + 1) =~= vals@.take(k as int).push(v));
            assert forall|j: int| 0 <= j < start.len() implies #[trigger] avail@[j] == (start[j]
                && !vals@.take(k + 1).contains(Value(j as u32))) by {
                if j == v.0 {
                    assert(vals@.take(k + 1)[k as int] == v);
                } else {
                    if vals@.take(k + 1).contains(Value(j as u32)) {
                        let w = choose|w: int|
                            0 <= w < k + 1 && #[trigger] vals@.take(k + 1)[w] == Value(j as u32);
                        assert(w != k);
                        assert(vals@.take(k as int)[w] == Value(j as u32));
                    }
                    if vals@.take(k as int).contains(Value(j as u32)) {
                        let w = choose|w: int| 0 <= w < k && #[trigger] vals@.take(k as int)[w] == Value(j as u32);
                        assert(vals@.take(k + 1)[w] == Value(j as u32));
                    }
                }
            }
        }
        k = k + 1;
    }
    proof {
        assert(vals@.take(vals@.len() as int) =~= vals@);
    }
}

/// Checks the uses of block `b`, given `avail` marking what the blocks that
/// strictly dominate `b` list: every operand must be available where it is
/// read. On success `avail` also marks what `b` lists.
fn block_uses(func: &Function, b: usize, avail: &mut Vec<bool>) -> (r: Option<ValidationError>)
    requires
        structurally_sound(func@),
        b < func@.blocks.len(),
        func@.blocks.len() <= u32::MAX,
        func@.values.len() <= u32::MAX,
        old(avail)@.len() == func@.values.len(),
        forall|j: int|
            0 <= j < func@.values.len() ==> #[trigger] old(avail)@[j] == listed_above(
                func@,
                b,
                func@.blocks.len() as int,
                Value(j as u32),
            ),
    ensures
        r == use_error(func@, b),
        final(avail)@.len() == old(avail)@.len(),
        r is None ==> forall|j: int|
            0 <= j < func@.values.len() ==> #[trigger] final(avail)@[j] == (old(avail)@[j] || listed_in(
                func@,
                b,
                Value(j as u32),
            )),
{
    let ghost f = func@;
    let ghost start = avail@;
    let n = func.block_count();
    let nv = func.value_count();
    let blk = Block(b as u32);
    let ps = func.block_params(blk);
    proof {
        assert forall|k: int| 0 <= k < ps@.len() implies listed_in(f, b, #[trigger] ps@[k]) by {
            assert(f.blocks[b as int].params[k] == ps@[k]);
        }
    }
    mark_all(avail, ps, Ghost(f), Ghost(b));
    let insts = func.insts(blk);
    let m = insts.len();
    let ghost ids = Seq::new(m as nat, |i: int| i);
    let ghost ic = inst_use_check(f, b);
    proof {
        assert forall|j: usize| j < avail@.len() implies #[trigger] avail@[j as int] == available(
            f,
            b,
            0,
            Value(j as u32),
        ) by {
            assert(f.blocks[b as int].insts.take(0) =~= Seq::<Value>::empty());
        }
    }
    let mut i: usize = 0;
    while i < m
        invariant
            f == func@,
            structurally_sound(f),
            n == f.blocks.len(),
            nv == f.values.len(),
            n <= u32::MAX,
            nv <= u32::MAX,
            b < n,
            insts@ == f.blocks[b as int].insts,
            m == insts@.len(),
            ids == Seq::new(m as nat, |i: int| i),
            ic == inst_use_check(f, b),
            i <= m,
            avail@.len() == nv,
            old(avail)@.len() == nv,
            start.len() == nv,
            forall|j: int| 0 <= j < nv ==> #[trigger] start[j] == listed_above(f, b, n as int, Value(j as u32)),
            marks_available(f, b, i as int, avail@),
            first_some(ids, ic, 0) == first_some(ids, ic, i as int),
        decreases m - i,
    {
        let w = insts[i];
        proof {
            assert(ids[i as int] == i);
        }
        match func.inst(w) {
            Some(inst) => {
                let r = inst_uses(inst, avail, Block(b as u32));
                proof {
                    lemma_marks_check(f, b, i as int, avail@, inst.operands());
                }
                if r.is_some() {
                    return r;
                }
            },
            None => {},
        }
        proof {
            assert(listed_in(f, b, w)) by {
                assert(f.blocks[b as int].insts[i as int] == w);
            }
        }
        let ghost before = avail@;
        avail.set(w.index(), true);
        proof {
            let ins = f.blocks[b as int].insts;
            assert(ins.take(i + 1) =~= ins.take(i as int).push(w));
            assert forall|j: usize| j < avail@.len() implies #[trigger] avail@[j as int] == available(
                f,
                b,
                i + 1,
                Value(j as u32),
            ) by {
                assert(before[j as int] == available(f, b, i as int, Value(j as u32)));
                if ins.take(i as int).contains(Value(j as u32)) {
                    let q = choose|q: int| 0 <= q < i && #[trigger] ins.take(i as int)[q] == Value(j as u32);
                    assert(ins.take(i + 1)[q] == Value(j as u32));
                }
                if ins.take(i + 1).contains(Value(j as u32)) && j != w.0 {
                    let q = choose|q: int| 0 <= q < i + 1 && #[trigger] ins.take(i + 1)[q] == Value(j as u32);
                    assert(q != i);
                    assert(ins.take(i as int)[q] == Value(j as u32));
                }
                if j == w.0 {
                    assert(ins.take(i + 1)[i as int] == w);
                }
            }
        }
        i = i + 1;
    }
    proof {
        assert(f.blocks[b as int].insts.take(m as int) =~= f.blocks[b as int].insts);
        assert forall|j: int| 0 <= j < nv implies #[trigger] avail@[j] == (start[j] || listed_in(
            f,
            b,
            Value(j as u32),
        )) by {
            assert(avail@[(j as usize) as int] == available(f, b, m as int, Value((j as usize) as u32)));
        }
    }
    match func.terminator(blk) {
        Some(t) => {
            let r = term_uses(t, avail, blk);
            proof {
                lemma_marks_check(f, b, m as int, avail@, t@.operands());
            }
            r
        },
        None => None,
    }
}

/// The first dominance violation, given the structural facts: finds each
/// block's immediate dominator, then walks the dominator tree in preorder with
/// an explicit stack and one availability vector, checking each block's uses
/// as it is entered. The dominators cost `O(n * (n + e))` time and `n * n`
/// booleans (see [`compute_idoms`](crate::domtree::compute_idoms)); the walk
/// scans the blocks once per block entered to find its children.
pub fn check_dominance(func: &Function) -> (r: Option<ValidationError>)
    requires
        structurally_sound(func@),
    ensures
        r == dominance_error(func@),
{
    let ghost f = func@;
    let n = func.block_count();
    let nv = func.value_count();
    let mut succs: Vec<Vec<usize>> = Vec::new();
    let mut b: usize = 0;
    while b < n
        invariant
            f == func@,
            structurally_sound(f),
            n == f.blocks.len(),
            n <= u32::MAX,
            b <= n,
            succs@.len() == b,
            forall|a: int| 0 <= a < b ==> (#[trigger] succs@[a])@ == succ_ids(f, a),
        decreases n - b,
    {
        let t = func.terminator(Block(b as u32)).unwrap();
        let targets = t.successors();
        let mut ids: Vec<usize> = Vec::new();
        let mut k: usize = 0;
        while k < targets.len()
            invariant
                k <= targets@.len(),
                ids@.len() == k,
                forall|q: int| 0 <= q < k ==> ids@[q] == targets@[q].0 as usize,
            decreases targets@.len() - k,
        {
            ids.push(targets[k].index());
            k = k + 1;
        }
        proof {
            assert(ids@ =~= succ_ids(f, b as int));
        }
        succs.push(ids);
        b = b + 1;
    }
    proof {
        assert(graph(&succs) =~= cfg(f));
    }
    let entry = func.entry().index();
    let order = postorder(&succs, entry);
    let avoid = avoid_table(&succs, entry);
    let idoms = idoms_from(&succs, entry, &order, &avoid);
    proof {
        assert forall|x: usize| x < n implies (#[trigger] idoms@[x as int] is Some == reachable(f, x)) by {}
        assert forall|x: usize|
            x < n && reachable(f, x) && x != entry implies #[trigger] idoms@[x as int] == Some(idom(f, x)) by {
            let d = idoms@[x as int].unwrap();
            assert(is_idom(f, d, x));
            lemma_idom_unique(f, d, x);
        }
    }
    let ghost chk = block_use_check(f);
    proof {
        assert forall|x: usize| reachable(f, x) && x != entry_id(f) implies #[trigger] is_idom(
            f,
            idom(f, x),
            x,
        ) by {
            lemma_reachable_in_range(f, x);
            assert(idoms@[x as int] == Some(idom(f, x)));
        }
        assert(idoms_exist(f));
    }
    let mut avail: Vec<bool> = Vec::new();
    let mut u: usize = 0;
    while u < nv
        invariant
            u <= nv,
            avail@.len() == u,
            forall|q: int| 0 <= q < u ==> !avail@[q],
        decreases nv - u,
    {
        avail.push(false);
        u = u + 1;
    }
    let mut path: Vec<usize> = Vec::new();
    let mut stack: Vec<(usize, usize, usize)> = Vec::new();
    stack.push((entry, n, 0));
    proof {
        assert(stack@ =~= seq![(entry, n, 0usize)]);
        assert(stack@.last() == (entry, n, 0usize));
        assert(stack@.drop_last() =~= Seq::<(usize, usize, usize)>::empty());
        assert(stack_order(f, Seq::<(usize, usize, usize)>::empty()) =~= Seq::<usize>::empty());
        assert(stack_order(f, stack@) == dom_preorder(f) + Seq::<usize>::empty());
        assert(dom_preorder(f) + Seq::<usize>::empty() =~= dom_preorder(f));
    }
    while stack.len() > 0
        invariant
            f == func@,
            structurally_sound(f),
            n == f.blocks.len(),
            n <= u32::MAX,
            nv == f.values.len(),
            nv <= u32::MAX,
            entry == entry_id(f),
            entry < n,
            idoms_exist(f),
            idoms@.len() == n,
            forall|x: usize| x < n ==> (#[trigger] idoms@[x as int] is Some == reachable(f, x)),
            forall|x: usize|
                x < n && reachable(f, x) && x != entry ==> #[trigger] idoms@[x as int] == Some(idom(f, x)),
            chk == block_use_check(f),
            avail@.len() == nv,
            forall|q: int| 0 <= q < nv ==> #[trigger] avail@[q] == listed_on(f, path@, Value(q as u32)),
            path@.len() == 0 || dom_chain(f, path@),
            forall|i: int| 0 <= i < path@.len() ==> #[trigger] path@[i] < n,
            forall|j: int|
                0 <= j < stack@.len() ==> open_item(f, path@, #[trigger] stack@[j]),
            forall|j: int, j2: int|
                0 <= j <= j2 < stack@.len() ==> (#[trigger] stack@[j]).2 <= (#[trigger] stack@[j2]).2,
            first_some(dom_preorder(f), chk, 0) == first_some(stack_order(f, stack@), chk, 0),
        decreases stack_order(f, stack@).len(),
    {
        let ghost before = stack@;
        let (b, k, d) = stack.pop().unwrap();
        let ghost rest = stack@;
        proof {
            assert(before.drop_last() =~= rest);
            assert(before.last() == (b, k, d));
            assert(open_item(f, path@, before[before.len() - 1]));
            assert(stack_order(f, before) == preorder_from(f, b, k as nat) + stack_order(f, rest));
            lemma_first_some_concat(preorder_from(f, b, k as nat), stack_order(f, rest), chk);
            assert forall|j: int| 0 <= j < rest.len() implies (#[trigger] rest[j]).2 <= d by {
                assert(rest[j] == before[j]);
                assert(before[j].2 <= before[before.len() - 1].2);
            }
            assert forall|j: int| 0 <= j < rest.len() implies open_item(f, path@, #[trigger] rest[j]) by {
                assert(rest[j] == before[j]);
            }
            assert forall|j: int, j2: int|
                0 <= j <= j2 < rest.len() implies (#[trigger] rest[j]).2 <= (#[trigger] rest[j2]).2 by {
                assert(rest[j] == before[j]);
                assert(rest[j2] == before[j2]);
            }
        }
        // Leave the blocks below `b`'s place in the tree, forgetting what they list.
        while path.len() > d
            invariant
                f == func@,
                structurally_sound(f),
                n == f.blocks.len(),
                n <= u32::MAX,
                nv == f.values.len(),
                nv <= u32::MAX,
                entry == entry_id(f),
                entry < n,
                idoms_exist(f),
                avail@.len() == nv,
                forall|q: int| 0 <= q < nv ==> #[trigger] avail@[q] == listed_on(f, path@, Value(q as u32)),
                path@.len() == 0 || dom_chain(f, path@),
                forall|i: int| 0 <= i < path@.len() ==> #[trigger] path@[i] < n,
                path@.len() >= d,
                forall|j: int| 0 <= j < rest.len() ==> open_item(f, path@, #[trigger] rest[j]),
                forall|j: int| 0 <= j < rest.len() ==> (#[trigger] rest[j]).2 <= d,
                open_item(f, path@, (b, k, d)),
                stack@ == rest,
            decreases path@.len(),
        {
            let ghost old_path = path@;
            let a = path.pop().unwrap();
            proof {
                assert(old_path.drop_last() =~= path@);
                assert(old_path[old_path.len() - 1] == a);
                lemma_chain_distinct(f, old_path);
            }
            let blk = Block(a as u32);
            let ps = func.block_params(blk);
            proof {
                assert(old_path[old_path.len() - 1] < n);
                assert forall|q: int| 0 <= q < ps@.len() implies listed_in(f, a, #[trigger] ps@[q]) by {
                    assert(f.blocks[a as int].params[q] == ps@[q]);
                }
            }
            clear_all(&mut avail, ps, Ghost(f), Ghost(a));
            let is = func.insts(blk);
            proof {
                assert forall|q: int| 0 <= q < is@.len() implies listed_in(f, a, #[trigger] is@[q]) by {
                    assert(f.blocks[a as int].insts[q] == is@[q]);
                }
            }
            clear_all(&mut avail, is, Ghost(f), Ghost(a));
            proof {
                assert forall|q: int| 0 <= q < nv implies #[trigger] avail@[q] == listed_on(
                    f,
                    path@,
                    Value(q as u32),
                ) by {
                    let v = Value(q as u32);
                    lemma_leave_block(f, old_path, v);
                }
                if path@.len() > 0 {
                    assert forall|i: int| 1 <= i < path@.len() implies reachable(f, #[trigger] path@[i])
                        && path@[i] != entry_id(f) && idom(f, path@[i]) == path@[i - 1] by {
                        assert(path@[i] == old_path[i]);
                        assert(reachable(f, old_path[i]));
                    }
                    assert(path@[0] == old_path[0]);
                }
                assert forall|j: int| 0 <= j < rest.len() implies open_item(f, path@, #[trigger] rest[j]) by {
                    assert(open_item(f, old_path, rest[j]));
                    if rest[j].2 > 0 {
                        assert(path@[rest[j].2 - 1] == old_path[rest[j].2 - 1]);
                    }
                }
                if d > 0 {
                    assert(path@[d - 1] == old_path[d - 1]);
                }
            }
        }
        proof {
            lemma_marks_are_dominators(f, path@, b, k, d);
        }
        let r = block_uses(func, b, &mut avail);
        let ghost tail = if k == 0 {
            Seq::<usize>::empty()
        } else {
            crate::domtree::preorder_list(f, dom_children(f, b, n as int), (k - 1) as nat)
        };
        proof {
            assert(preorder_from(f, b, k as nat) =~= seq![b] + tail);
            lemma_first_some_concat(seq![b], tail, chk);
            lemma_first_some_single(b, chk);
            lemma_first_some_concat(tail, stack_order(f, rest), chk);
        }
        if r.is_some() {
            return r;
        }
        let ghost short = path@;
        path.push(b);
        proof {
            lemma_enter_block(f, short, b, d);
            assert forall|i: int| 0 <= i < path@.len() implies #[trigger] path@[i] < n by {
                if i < short.len() {
                    assert(path@[i] == short[i]);
                }
            }
            assert forall|q: int| 0 <= q < nv implies #[trigger] avail@[q] == listed_on(
                f,
                path@,
                Value(q as u32),
            ) by {
                lemma_listed_on_push(f, short, b, Value(q as u32));
            }
            assert forall|j: int| 0 <= j < rest.len() implies open_item(f, path@, #[trigger] rest[j]) by {
                assert(open_item(f, short, rest[j]));
                if rest[j].2 > 0 {
                    assert(path@[rest[j].2 - 1] == short[rest[j].2 - 1]);
                }
            }
        }
        if k > 0 {
            let ghost base = stack@;
            let below = path.len();
            assert(below == d + 1);
            push_children(&mut stack, &idoms, entry, b, k - 1, below, Ghost(f));
            proof {
                lemma_stack_push(f, base, dom_children(f, b, n as int), (k - 1) as usize, (d + 1) as usize);
                let added = with_depth(dom_children(f, b, n as int), (k - 1) as usize, (d + 1) as usize);
                assert forall|j: int| 0 <= j < stack@.len() implies open_item(f, path@, #[trigger] stack@[j]) by {
                    if j >= base.len() {
                        assert(stack@[j] == added[j - base.len()]);
                        lemma_children_are_children(f, b, n as int, j - base.len());
                    } else {
                        assert(stack@[j] == base[j]);
                    }
                }
                assert forall|j: int, j2: int|
                    0 <= j <= j2 < stack@.len() implies (#[trigger] stack@[j]).2 <= (#[trigger] stack@[j2]).2 by {
                    if j2 >= base.len() {
                        assert(stack@[j2] == added[j2 - base.len()]);
                    } else {
                        assert(stack@[j2] == base[j2]);
                    }
                    if j >= base.len() {
                        assert(stack@[j] == added[j - base.len()]);
                    } else {
                        assert(stack@[j] == base[j]);
                    }
                }
            }
        } else {
            proof {
                assert(preorder_from(f, b, k as nat) =~= seq![b]);
                assert(tail + stack_order(f, rest) =~= stack_order(f, rest));
            }
        }
    }
    None
}

/// Pushes the children of block `b` in the dominator tree, in increasing
/// order, each with depth bound `k` and path position `d`.
fn push_children(
    stack: &mut Vec<(usize, usize, usize)>,
    idoms: &Vec<Option<usize>>,
    entry: usize,
    b: usize,
    k: usize,
    d: usize,
    Ghost(f): Ghost<FunctionModel>,
)
    requires
        entry == entry_id(f),
        idoms@.len() == f.blocks.len(),
        forall|x: usize| x < f.blocks.len() ==> (#[trigger] idoms@[x as int] is Some == reachable(f, x)),
        forall|x: usize|
            x < f.blocks.len() && reachable(f, x) && x != entry_id(f) ==> #[trigger] idoms@[x as int] == Some(
                idom(f, x),
            ),
    ensures
        final(stack)@ == old(stack)@ + with_depth(dom_children(f, b, f.blocks.len() as int), k, d),
{
    let ghost base = stack@;
    let n = idoms.len();
    let mut c: usize = 0;
    while c < n
        invariant
            n == f.blocks.len(),
            entry == entry_id(f),
            idoms@.len() == n,
            forall|x: usize| x < n ==> (#[trigger] idoms@[x as int] is Some == reachable(f, x)),
            forall|x: usize|
                x < n && reachable(f, x) && x != entry_id(f) ==> #[trigger] idoms@[x as int] == Some(
                    idom(f, x),
                ),
            base == old(stack)@,
            c <= n,
            stack@ == base + with_depth(dom_children(f, b, c as int), k, d),
        decreases n - c,
    {
        let ghost kids = dom_children(f, b, c as int);
        proof {
            assert(idoms@[c as int] is Some == reachable(f, c));
        }
        let is_child = match idoms[c] {
            Some(p) => c != entry && p == b,
            None => false,
        };
        if is_child {
            stack.push((c, k, d));
            proof {
                assert(dom_children(f, b, c + 1) == kids.push(c));
                assert(with_depth(kids.push(c), k, d) =~= with_depth(kids, k, d).push((c, k, d)));
            }
        } else {
            proof {
                if reachable(f, c) && c != entry_id(f) {
                    assert(idoms@[c as int] == Some(idom(f, c)));
                }
                assert(dom_children(f, b, c + 1) == kids);
            }
        }
        c = c + 1;
    }
}


} // verus!
