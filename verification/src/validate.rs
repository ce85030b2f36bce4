//! Well-formedness validation for a [`Function`]: the errors it reports, the
//! specification of which error comes first, and the structural checks.

use vstd::prelude::*;

use crate::dominance::{check_dominance, cfg, dominance_error, listed_in, structurally_sound};
use crate::entity::{Block, Value};
use crate::function::{Function, FunctionModel};
use crate::inst::{Inst, TermModel, Terminator, UnOp};
use crate::ty::Type;

verus! {

/// A reason a function is not well-formed. Every variant names the offending
/// entity.
#[derive(Clone, Copy, PartialEq, Eq, Structural, Debug)]
#[non_exhaustive]
#[allow(inconsistent_fields)]
pub enum ValidationError {
    /// A block has no terminator.
    MissingTerminator {
        /// The unterminated block.
        block: Block,
    },
    /// A terminator (or the function's entry) names a block that does not exist.
    BlockOutOfRange {
        /// The out-of-range block.
        block: Block,
    },
    /// An instruction, terminator or block listing references a value that
    /// does not exist in the function.
    ValueOutOfRange {
        /// The out-of-range value.
        value: Value,
    },
    /// A terminator branches to the entry block.
    EntryBranchTarget {
        /// The block whose terminator targets the entry.
        block: Block,
    },
    /// A jump or branch passes the wrong number of arguments for the target
    /// block's parameters.
    ArgCountMismatch {
        /// The target block.
        block: Block,
        /// The number of parameters the target declares.
        expected: usize,
        /// The number of arguments the terminator supplied.
        found: usize,
    },
    /// A value was used where a different type was required.
    TypeMismatch {
        /// The value whose type is wrong.
        value: Value,
        /// The type the position required.
        expected: Type,
        /// The type the value actually has.
        found: Type,
    },
    /// An arithmetic or ordering operation was applied to a non-numeric value.
    NotNumeric {
        /// The non-numeric value.
        value: Value,
        /// Its actual type.
        found: Type,
    },
    /// A `return` with no value in a function whose return type is not `Unit`.
    ReturnValueExpected {
        /// The return type the function declares.
        expected: Type,
    },
    /// A value was used where its definition does not reach the use.
    UseBeforeDef {
        /// The value used too early.
        value: Value,
        /// The block the premature use is in.
        block: Block,
    },
    /// A value's recorded definition disagrees with the block that lists it,
    /// or a block lists the value twice: every value is defined exactly once.
    InconsistentDefinition {
        /// The value whose definition does not match where it is listed.
        value: Value,
    },
}

/// The first element of `s`, from index `i` on, on which `check` reports an
/// error, and that error.
pub open spec fn first_some<A>(
    s: Seq<A>,
    check: spec_fn(A) -> Option<ValidationError>,
    i: int,
) -> Option<ValidationError>
    decreases s.len() - i,
{
    if i < 0 || i >= s.len() {
        None
    } else if check(s[i]) is Some {
        check(s[i])
    } else {
        first_some(s, check, i + 1)
    }
}

/// The first of two possible errors.
pub open spec fn or_else(
    a: Option<ValidationError>,
    b: Option<ValidationError>,
) -> Option<ValidationError> {
    if a is Some {
        a
    } else {
        b
    }
}

/// `first_some` finds nothing exactly when `check` passes every element from
/// `i` on; when it finds an error, the error is `check`'s on some element.
pub proof fn lemma_first_some<A>(s: Seq<A>, check: spec_fn(A) -> Option<ValidationError>, i: int)
    requires
        0 <= i <= s.len(),
    ensures
        first_some(s, check, i) is None <==> forall|j: int|
            i <= j < s.len() ==> #[trigger] check(s[j]) is None,
        first_some(s, check, i) is Some ==> exists|j: int|
            i <= j < s.len() && #[trigger] check(s[j]) == first_some(s, check, i),
    decreases s.len() - i,
{
    if i < s.len() {
        lemma_first_some(s, check, i + 1);
        if check(s[i]) is None {
            assert forall|j: int| i <= j < s.len() && #[trigger] check(s[j]) is Some implies
                first_some(s, check, i) is Some by {
                if j > i {
                }
            }
        }
    }
}

/// Looking from position `i` on is looking at the sequence from `i` on.
pub proof fn lemma_first_some_from<A>(
    s: Seq<A>,
    check: spec_fn(A) -> Option<ValidationError>,
    i: int,
)
    requires
        0 <= i <= s.len(),
    ensures
        first_some(s, check, i) == first_some(s.subrange(i, s.len() as int), check, 0),
    decreases s.len() - i,
{
    let t = s.subrange(i, s.len() as int);
    if i < s.len() {
        lemma_first_some_from(s, check, i + 1);
        lemma_first_some_from(t, check, 1);
        assert(t.subrange(1, t.len() as int) =~= s.subrange(i + 1, s.len() as int));
        assert(t[0] == s[i]);
    }
}

/// The first error over two sequences joined is the first over the first
/// sequence, else the first over the second.
pub proof fn lemma_first_some_concat<A>(
    a: Seq<A>,
    b: Seq<A>,
    check: spec_fn(A) -> Option<ValidationError>,
)
    ensures
        first_some(a + b, check, 0) == or_else(first_some(a, check, 0), first_some(b, check, 0)),
    decreases a.len(),
{
    if a.len() == 0 {
        assert(a + b =~= b);
    } else {
        let t = a.subrange(1, a.len() as int);
        lemma_first_some_concat(t, b, check);
        lemma_first_some_from(a + b, check, 1);
        lemma_first_some_from(a, check, 1);
        assert((a + b).subrange(1, (a + b).len() as int) =~= t + b);
        assert((a + b)[0] == a[0]);
    }
}

/// Two checks that agree on every element find the same first error.
pub proof fn lemma_first_some_same<A>(
    s: Seq<A>,
    c1: spec_fn(A) -> Option<ValidationError>,
    c2: spec_fn(A) -> Option<ValidationError>,
    i: int,
)
    requires
        forall|j: int| 0 <= j < s.len() ==> #[trigger] c1(s[j]) == c2(s[j]),
    ensures
        first_some(s, c1, i) == first_some(s, c2, i),
    decreases s.len() - i,
{
    if 0 <= i < s.len() {
        lemma_first_some_same(s, c1, c2, i + 1);
    }
}

/// The first error over one element is that element's.
pub proof fn lemma_first_some_single<A>(x: A, check: spec_fn(A) -> Option<ValidationError>)
    ensures
        first_some(seq![x], check, 0) == check(x),
{
    reveal_with_fuel(first_some, 2);
}

/// The type of a value known to be in range.
pub open spec fn ty(f: FunctionModel, v: Value) -> Type {
    f.values[v.0 as int].ty
}

/// The error of a value listed in block `b` (as a parameter when `as_param`,
/// else as an instruction result): out of range, or defined elsewhere or
/// otherwise than the listing says.
pub open spec fn def_error(f: FunctionModel, v: Value, b: Block, as_param: bool) -> Option<
    ValidationError,
> {
    if !f.has_value(v) {
        Some(ValidationError::ValueOutOfRange { value: v })
    } else if f.block_of(v) != Some(b) || (f.inst_of(v) is Some) == as_param {
        Some(ValidationError::InconsistentDefinition { value: v })
    } else {
        None
    }
}

/// The error at position `k` of a block's listing `vals` (its parameters when
/// `as_param`, else its instruction results): the value's own definition
/// error, else a second listing of a value already listed at an earlier
/// position, since every value is defined exactly once.
pub open spec fn listing_error(
    f: FunctionModel,
    vals: Seq<Value>,
    b: Block,
    as_param: bool,
    k: int,
) -> Option<ValidationError> {
    or_else(
        def_error(f, vals[k], b, as_param),
        if vals.take(k).contains(vals[k]) {
            Some(ValidationError::InconsistentDefinition { value: vals[k] })
        } else {
            None
        },
    )
}

/// The check applied to each position of a block's listing.
pub open spec fn listing_check(f: FunctionModel, vals: Seq<Value>, b: Block, as_param: bool) -> spec_fn(
    int,
) -> Option<ValidationError> {
    |k: int| listing_error(f, vals, b, as_param, k)
}

/// The positions `0..n`, in order.
pub open spec fn positions(n: nat) -> Seq<int> {
    Seq::new(n, |k: int| k)
}

/// The first error among the positions of a block's listing.
pub open spec fn listing_errors(f: FunctionModel, vals: Seq<Value>, b: Block, as_param: bool) -> Option<
    ValidationError,
> {
    first_some(positions(vals.len()), listing_check(f, vals, b, as_param), 0)
}

/// A listing passes exactly when each value it lists is consistent with the
/// value table and no value is listed twice.
pub proof fn lemma_listing_ok(f: FunctionModel, vals: Seq<Value>, b: Block, as_param: bool)
    ensures
        listing_errors(f, vals, b, as_param) is None <==> (forall|k: int|
            0 <= k < vals.len() ==> #[trigger] def_error(f, vals[k], b, as_param) is None)
            && vals.no_duplicates(),
{
    let ps = positions(vals.len());
    let c = listing_check(f, vals, b, as_param);
    lemma_first_some(ps, c, 0);
    if listing_errors(f, vals, b, as_param) is None {
        assert forall|k: int| 0 <= k < vals.len() implies #[trigger] def_error(f, vals[k], b, as_param)
            is None by {
            assert(ps[k] == k);
            assert(c(ps[k]) is None);
        }
        assert forall|i: int, j: int| 0 <= i < vals.len() && 0 <= j < vals.len() && i != j implies vals[i]
            != vals[j] by {
            let (lo, hi) = if i < j {
                (i, j)
            } else {
                (j, i)
            };
            assert(ps[hi] == hi);
            assert(c(ps[hi]) is None);
            if vals[lo] == vals[hi] {
                assert(vals.take(hi)[lo] == vals[hi]);
            }
        }
    }
    if (forall|k: int| 0 <= k < vals.len() ==> #[trigger] def_error(f, vals[k], b, as_param) is None)
        && vals.no_duplicates() {
        assert forall|j: int| 0 <= j < ps.len() implies #[trigger] c(ps[j]) is None by {
            assert(ps[j] == j);
            assert(def_error(f, vals[j], b, as_param) is None);
            if vals.take(j).contains(vals[j]) {
                let i = choose|i: int| 0 <= i < j && vals.take(j)[i] == vals[j];
                assert(vals[i] == vals[j]);
            }
        }
    }
}

/// The first inconsistent or repeated definition among a block's parameters,
/// then its instruction results.
pub open spec fn definitions_error(f: FunctionModel, b: Block) -> Option<ValidationError> {
    or_else(
        listing_errors(f, f.params_of(b), b, true),
        listing_errors(f, f.insts_of(b), b, false),
    )
}

/// The error of an operand that does not exist.
pub open spec fn range_error(f: FunctionModel, v: Value) -> Option<ValidationError> {
    if f.has_value(v) {
        None
    } else {
        Some(ValidationError::ValueOutOfRange { value: v })
    }
}

/// The operand error of an instruction: an operand out of range, binary
/// operands of different types, a logical operation on non-`Bool`s, an
/// arithmetic or ordering operation on non-numeric values, `neg` of a
/// non-numeric value, or `not` of a non-`Bool`.
pub open spec fn operand_error(f: FunctionModel, inst: Inst) -> Option<ValidationError> {
    match inst {
        Inst::Bin(op, l, r) => if !f.has_value(l) {
            range_error(f, l)
        } else if !f.has_value(r) {
            range_error(f, r)
        } else if ty(f, l) != ty(f, r) {
            Some(ValidationError::TypeMismatch { value: r, expected: ty(f, l), found: ty(f, r) })
        } else if op.logical() {
            if ty(f, l) != Type::Bool {
                Some(
                    ValidationError::TypeMismatch { value: l, expected: Type::Bool, found: ty(f, l) },
                )
            } else {
                None
            }
        } else if op.wants_numeric() && !ty(f, l).numeric() {
            Some(ValidationError::NotNumeric { value: l, found: ty(f, l) })
        } else {
            None
        },
        Inst::Un(op, x) => if !f.has_value(x) {
            range_error(f, x)
        } else {
            match op {
                UnOp::Neg => if !ty(f, x).numeric() {
                    Some(ValidationError::NotNumeric { value: x, found: ty(f, x) })
                } else {
                    None
                },
                UnOp::Not => if ty(f, x) != Type::Bool {
                    Some(
                        ValidationError::TypeMismatch {
                            value: x,
                            expected: Type::Bool,
                            found: ty(f, x),
                        },
                    )
                } else {
                    None
                },
            }
        },
        _ => None,
    }
}

/// The type an instruction produces, given its operands' types; `None` when an
/// operand it depends on is out of range.
pub open spec fn result_type(f: FunctionModel, inst: Inst) -> Option<Type> {
    match inst {
        Inst::Iconst(_) => Some(Type::Int),
        Inst::Fconst(_) => Some(Type::Float),
        Inst::Bconst(_) => Some(Type::Bool),
        Inst::Bin(op, l, _) => if op.comparison() || op.logical() {
            Some(Type::Bool)
        } else {
            f.type_of(l)
        },
        Inst::Un(UnOp::Neg, x) => f.type_of(x),
        Inst::Un(UnOp::Not, _) => Some(Type::Bool),
    }
}

/// The error of a value whose recorded type is not the type its instruction
/// produces.
pub open spec fn result_error(f: FunctionModel, v: Value, inst: Inst) -> Option<ValidationError> {
    match inst {
        Inst::Bin(op, l, _) if !(op.comparison() || op.logical()) && !f.has_value(l) => range_error(
            f,
            l,
        ),
        Inst::Un(UnOp::Neg, x) if !f.has_value(x) => range_error(f, x),
        _ => if !f.has_value(v) {
            range_error(f, v)
        } else if ty(f, v) != result_type(f, inst).unwrap() {
            Some(
                ValidationError::TypeMismatch {
                    value: v,
                    expected: result_type(f, inst).unwrap(),
                    found: ty(f, v),
                },
            )
        } else {
            None
        },
    }
}

/// The error of one listed instruction result: its operands, then its
/// recorded type.
pub open spec fn inst_error(f: FunctionModel, v: Value) -> Option<ValidationError> {
    match f.inst_of(v) {
        Some(inst) => or_else(operand_error(f, inst), result_error(f, v, inst)),
        None => None,
    }
}

/// The check applied to each instruction result of a block.
pub open spec fn inst_check(f: FunctionModel) -> spec_fn(Value) -> Option<ValidationError> {
    |v: Value| inst_error(f, v)
}

/// The error of one argument passed to a parameter.
pub open spec fn arg_error(f: FunctionModel, arg: Value, param: Value) -> Option<ValidationError> {
    if !f.has_value(arg) {
        range_error(f, arg)
    } else if !f.has_value(param) {
        range_error(f, param)
    } else if ty(f, arg) != ty(f, param) {
        Some(ValidationError::TypeMismatch { value: arg, expected: ty(f, param), found: ty(f, arg) })
    } else {
        None
    }
}

/// The check applied to each argument/parameter pair of an edge.
pub open spec fn arg_check(f: FunctionModel) -> spec_fn((Value, Value)) -> Option<ValidationError> {
    |p: (Value, Value)| arg_error(f, p.0, p.1)
}

/// Arguments paired with the parameters they are passed to.
pub open spec fn pairs(args: Seq<Value>, params: Seq<Value>) -> Seq<(Value, Value)> {
    Seq::new(args.len(), |i: int| (args[i], params[i]))
}

/// The error of a control-flow edge from block `from` to `target` with `args`:
/// a missing target, the entry as target, a wrong argument count, or an
/// argument of the wrong type.
pub open spec fn edge_error(f: FunctionModel, target: Block, args: Seq<Value>, from: Block) -> Option<
    ValidationError,
> {
    if !f.has_block(target) {
        Some(ValidationError::BlockOutOfRange { block: target })
    } else if target == f.entry {
        Some(ValidationError::EntryBranchTarget { block: from })
    } else if args.len() != f.params_of(target).len() {
        Some(
            ValidationError::ArgCountMismatch {
                block: target,
                expected: f.params_of(target).len() as usize,
                found: args.len() as usize,
            },
        )
    } else {
        first_some(pairs(args, f.params_of(target)), arg_check(f), 0)
    }
}

/// The error of a block's terminator.
pub open spec fn terminator_error(f: FunctionModel, b: Block, t: TermModel) -> Option<
    ValidationError,
> {
    match t {
        TermModel::Return(None) => if f.ret != Type::Unit {
            Some(ValidationError::ReturnValueExpected { expected: f.ret })
        } else {
            None
        },
        TermModel::Return(Some(v)) => if !f.has_value(v) {
            range_error(f, v)
        } else if ty(f, v) != f.ret {
            Some(ValidationError::TypeMismatch { value: v, expected: f.ret, found: ty(f, v) })
        } else {
            None
        },
        TermModel::Jump(target, args) => edge_error(f, target, args, b),
        TermModel::Branch { cond, then_block, then_args, else_block, else_args } => if !f.has_value(
            cond,
        ) {
            range_error(f, cond)
        } else if ty(f, cond) != Type::Bool {
            Some(ValidationError::TypeMismatch { value: cond, expected: Type::Bool, found: ty(f, cond) })
        } else {
            or_else(edge_error(f, then_block, then_args, b), edge_error(f, else_block, else_args, b))
        },
    }
}

/// The first structural error of block number `i`: a missing terminator, then
/// its listings, then its instructions, then its terminator.
pub open spec fn block_error(f: FunctionModel, i: int) -> Option<ValidationError> {
    let b = Block(i as u32);
    match f.blocks[i].term {
        None => Some(ValidationError::MissingTerminator { block: b }),
        Some(t) => or_else(
            definitions_error(f, b),
            or_else(first_some(f.insts_of(b), inst_check(f), 0), terminator_error(f, b, t)),
        ),
    }
}

/// The check applied to each block number.
pub open spec fn block_check(f: FunctionModel) -> spec_fn(int) -> Option<ValidationError> {
    |i: int| block_error(f, i)
}

/// The block numbers of a function, in order.
pub open spec fn block_ids(f: FunctionModel) -> Seq<int> {
    Seq::new(f.blocks.len(), |i: int| i)
}

/// The first structural error over all blocks, in block order.
pub open spec fn structure_error(f: FunctionModel) -> Option<ValidationError> {
    first_some(block_ids(f), block_check(f), 0)
}

/// What [`Function::validate`] returns: the entry must exist; then the first
/// structural error in block order; then the first use, in a reachable block,
/// that its definition does not reach; otherwise `Ok`.
pub open spec fn validation(f: FunctionModel) -> Result<(), ValidationError> {
    if !f.has_block(f.entry) {
        Err(ValidationError::BlockOutOfRange { block: f.entry })
    } else {
        match structure_error(f) {
            Some(e) => Err(e),
            None => match dominance_error(f) {
                Some(e) => Err(e),
                None => Ok(()),
            },
        }
    }
}

/// The type of value `v`, or `ValueOutOfRange` for a handle out of range.
pub fn type_of(func: &Function, v: Value) -> (r: Result<Type, ValidationError>)
    ensures
        r == (if func@.has_value(v) {
            Ok(ty(func@, v))
        } else {
            Err(ValidationError::ValueOutOfRange { value: v })
        }),
{
    match func.value_type(v) {
        Some(t) => Ok(t),
        None => Err(ValidationError::ValueOutOfRange { value: v }),
    }
}

/// Checks one listed value against the value table: in range, recorded as
/// defined in block `b`, and of the listing's kind.
pub fn check_definition(func: &Function, v: Value, b: Block, as_param: bool) -> (r: Option<
    ValidationError,
>)
    ensures
        r == def_error(func@, v, b, as_param),
{
    let def_block = match func.value_block(v) {
        Some(blk) => blk,
        None => {
            return Some(ValidationError::ValueOutOfRange { value: v });
        },
    };
    let is_inst = func.inst(v).is_some();
    if def_block != b || is_inst == as_param {
        Some(ValidationError::InconsistentDefinition { value: v })
    } else {
        None
    }
}

/// Checks a block's listing position by position, marking in `seen` the
/// values listed so far to find a repeat; on success the marks are cleared
/// again.
fn check_listing(
    func: &Function,
    vals: &[Value],
    b: Block,
    as_param: bool,
    seen: &mut Vec<bool>,
) -> (r: Option<ValidationError>)
    requires
        old(seen)@.len() == func@.values.len(),
        forall|u: int| 0 <= u < old(seen)@.len() ==> !old(seen)@[u],
    ensures
        r == listing_errors(func@, vals@, b, as_param),
        final(seen)@.len() == old(seen)@.len(),
        r is None ==> forall|u: int| 0 <= u < final(seen)@.len() ==> !final(seen)@[u],
{
    let ghost f = func@;
    let ghost ps = positions(vals@.len());
    let ghost c = listing_check(f, vals@, b, as_param);
    let nv = func.value_count();
    let mut k: usize = 0;
    while k < vals.len()
        invariant
            f == func@,
            nv == f.values.len(),
            nv <= u32::MAX,
            ps == positions(vals@.len()),
            c == listing_check(f, vals@, b, as_param),
            k <= vals@.len(),
            seen@.len() == nv,
            old(seen)@.len() == nv,
            forall|u: int|
                0 <= u < nv ==> #[trigger] seen@[u] == vals@.take(k as int).contains(Value(u as u32)),
            forall|j: int| 0 <= j < k ==> f.has_value(#[trigger] vals@[j]),
            first_some(ps, c, 0) == first_some(ps, c, k as int),
        decreases vals@.len() - k,
    {
        let v = vals[k];
        proof {
            assert(ps[k as int] == k);
        }
        let e = check_definition(func, v, b, as_param);
        if e.is_some() {
            return e;
        }
        let i = v.index();
        proof {
            assert(seen@[i as int] == vals@.take(k as int).contains(Value(i as u32)));
            assert(Value(i as u32) == v);
        }
        if seen[i] {
            return Some(ValidationError::InconsistentDefinition { value: v });
        }
        seen.set(i, true);
        proof {
            assert(vals@.take(k + 1) =~= vals@.take(k as int).push(v));
            assert forall|u: int| 0 <= u < nv implies #[trigger] seen@[u] == vals@.take(k + 1).contains(
                Value(u as u32),
            ) by {
                if u == i {
                    assert(vals@.take(k + 1)[k as int] == v);
                } else {
                    assert(Value(u as u32) != v);
                    if vals@.take(k + 1).contains(Value(u as u32)) {
                        let q = choose|q: int| 0 <= q < k + 1 && #[trigger] vals@.take(k + 1)[q] == Value(u as u32);
                        assert(vals@.take(k as int)[q] == Value(u as u32));
                    }
                    if vals@.take(k as int).contains(Value(u as u32)) {
                        let q = choose|q: int| 0 <= q < k && #[trigger] vals@.take(k as int)[q] == Value(u as u32);
                        assert(vals@.take(k + 1)[q] == Value(u as u32));
                    }
                }
            }
        }
        k = k + 1;
    }
    proof {
        assert(vals@.take(vals@.len() as int) =~= vals@);
        assert(vals@.take(0) =~= Seq::<Value>::empty());
    }
    let mut j: usize = 0;
    while j < vals.len()
        invariant
            nv == f.values.len(),
            nv <= u32::MAX,
            j <= vals@.len(),
            seen@.len() == nv,
            forall|q: int| 0 <= q < vals@.len() ==> f.has_value(#[trigger] vals@[q]),
            forall|u: int|
                0 <= u < nv ==> #[trigger] seen@[u] == (vals@.contains(Value(u as u32))
                    && !vals@.take(j as int).contains(Value(u as u32))),
        decreases vals@.len() - j,
    {
        let v = vals[j];
        assert(f.has_value(vals@[j as int]));
        let i = v.index();
        seen.set(i, false);
        proof {
            assert(vals@.take(j + 1) =~= vals@.take(j as int).push(v));
            assert forall|u: int| 0 <= u < nv implies #[trigger] seen@[u] == (vals@.contains(
                Value(u as u32),
            ) && !vals@.take(j + 1).contains(Value(u as u32))) by {
                if u == i {
                    assert(vals@.take(j + 1)[j as int] == v);
                    assert(Value(u as u32) == v);
                } else {
                    assert(Value(u as u32) != v);
                    if vals@.take(j + 1).contains(Value(u as u32)) {
                        let q = choose|q: int| 0 <= q < j + 1 && #[trigger] vals@.take(j + 1)[q] == Value(u as u32);
                        assert(vals@.take(j as int)[q] == Value(u as u32));
                    }
                    if vals@.take(j as int).contains(Value(u as u32)) {
                        let q = choose|q: int| 0 <= q < j && #[trigger] vals@.take(j as int)[q] == Value(u as u32);
                        assert(vals@.take(j + 1)[q] == Value(u as u32));
                    }
                }
            }
        }
        j = j + 1;
    }
    proof {
        assert(vals@.take(vals@.len() as int) =~= vals@);
    }
    None
}

/// Type-checks an instruction's operands.
pub fn check_operands(func: &Function, inst: &Inst) -> (r: Option<ValidationError>)
    ensures
        r == operand_error(func@, *inst),
{
    match inst {
        Inst::Bin(op, l, r) => {
            let lt = match type_of(func, *l) {
                Ok(t) => t,
                Err(e) => {
                    return Some(e);
                },
            };
            let rt = match type_of(func, *r) {
                Ok(t) => t,
                Err(e) => {
                    return Some(e);
                },
            };
            if lt != rt {
                return Some(ValidationError::TypeMismatch { value: *r, expected: lt, found: rt });
            }
            if op.is_logical() {
                if lt != Type::Bool {
                    return Some(
                        ValidationError::TypeMismatch { value: *l, expected: Type::Bool, found: lt },
                    );
                }
            } else if op.requires_numeric() && !lt.is_numeric() {
                return Some(ValidationError::NotNumeric { value: *l, found: lt });
            }
            None
        },
        Inst::Un(op, x) => {
            let t = match type_of(func, *x) {
                Ok(t) => t,
                Err(e) => {
                    return Some(e);
                },
            };
            match op {
                UnOp::Neg => if !t.is_numeric() {
                    Some(ValidationError::NotNumeric { value: *x, found: t })
                } else {
                    None
                },
                UnOp::Not => if t != Type::Bool {
                    Some(ValidationError::TypeMismatch { value: *x, expected: Type::Bool, found: t })
                } else {
                    None
                },
            }
        },
        _ => None,
    }
}

/// Checks that value `v` records the type its instruction `inst` produces.
pub fn check_result(func: &Function, v: Value, inst: &Inst) -> (r: Option<ValidationError>)
    ensures
        r == result_error(func@, v, *inst),
{
    let expected = match inst {
        Inst::Iconst(_) => Type::Int,
        Inst::Fconst(_) => Type::Float,
        Inst::Bconst(_) => Type::Bool,
        Inst::Bin(op, l, _) => {
            if op.is_comparison() || op.is_logical() {
                Type::Bool
            } else {
                match type_of(func, *l) {
                    Ok(t) => t,
                    Err(e) => {
                        return Some(e);
                    },
                }
            }
        },
        Inst::Un(UnOp::Neg, x) => match type_of(func, *x) {
            Ok(t) => t,
            Err(e) => {
                return Some(e);
            },
        },
        Inst::Un(UnOp::Not, _) => Type::Bool,
    };
    let found = match type_of(func, v) {
        Ok(t) => t,
        Err(e) => {
            return Some(e);
        },
    };
    if found != expected {
        Some(ValidationError::TypeMismatch { value: v, expected, found })
    } else {
        None
    }
}

/// Type-checks each listed instruction and its recorded result type, in
/// order.
pub fn check_insts(func: &Function, vals: &[Value]) -> (r: Option<ValidationError>)
    ensures
        r == first_some(vals@, inst_check(func@), 0),
{
    let ghost c = inst_check(func@);
    let mut k: usize = 0;
    while k < vals.len()
        invariant
            c == inst_check(func@),
            k <= vals@.len(),
            first_some(vals@, c, 0) == first_some(vals@, c, k as int),
        decreases vals@.len() - k,
    {
        let v = vals[k];
        match func.inst(v) {
            Some(inst) => {
                let e = check_operands(func, inst);
                if e.is_some() {
                    return e;
                }
                let e = check_result(func, v, inst);
                if e.is_some() {
                    return e;
                }
            },
            None => {},
        }
        k = k + 1;
    }
    None
}

/// Checks one control-flow edge from block `from`: the target exists, is not
/// the entry, and gets one argument of the right type per parameter.
pub fn check_edge(func: &Function, target: Block, args: &Vec<Value>, from: Block) -> (r: Option<
    ValidationError,
>)
    ensures
        r == edge_error(func@, target, args@, from),
{
    if target.index() >= func.block_count() {
        return Some(ValidationError::BlockOutOfRange { block: target });
    }
    if target == func.entry() {
        return Some(ValidationError::EntryBranchTarget { block: from });
    }
    let params = func.block_params(target);
    if args.len() != params.len() {
        return Some(
            ValidationError::ArgCountMismatch {
                block: target,
                expected: params.len(),
                found: args.len(),
            },
        );
    }
    let ghost ps = pairs(args@, params@);
    let ghost c = arg_check(func@);
    let mut k: usize = 0;
    while k < args.len()
        invariant
            ps == pairs(args@, params@),
            c == arg_check(func@),
            params@ == func@.params_of(target),
            func@.has_block(target),
            target != func@.entry,
            args@.len() == params@.len(),
            k <= args@.len(),
            first_some(ps, c, 0) == first_some(ps, c, k as int),
        decreases args@.len() - k,
    {
        let arg = args[k];
        let param = params[k];
        assert(ps[k as int] == (arg, param));
        assert(c(ps[k as int]) == arg_error(func@, arg, param));
        let at = match type_of(func, arg) {
            Ok(t) => t,
            Err(e) => {
                return Some(e);
            },
        };
        let pt = match type_of(func, param) {
            Ok(t) => t,
            Err(e) => {
                return Some(e);
            },
        };
        if at != pt {
            return Some(ValidationError::TypeMismatch { value: arg, expected: pt, found: at });
        }
        k = k + 1;
    }
    None
}

/// Checks block `b`'s terminator: the returned value or the condition has the
/// right type, then each edge in order.
pub fn check_terminator(func: &Function, b: Block, t: &Terminator) -> (r: Option<ValidationError>)
    ensures
        r == terminator_error(func@, b, t@),
{
    match t {
        Terminator::Return(None) => {
            if func.ret() != Type::Unit {
                Some(ValidationError::ReturnValueExpected { expected: func.ret() })
            } else {
                None
            }
        },
        Terminator::Return(Some(v)) => {
            let found = match type_of(func, *v) {
                Ok(t) => t,
                Err(e) => {
                    return Some(e);
                },
            };
            if found != func.ret() {
                Some(ValidationError::TypeMismatch { value: *v, expected: func.ret(), found })
            } else {
                None
            }
        },
        Terminator::Jump(target, args) => check_edge(func, *target, args, b),
        Terminator::Branch { cond, then_block, then_args, else_block, else_args } => {
            let ct = match type_of(func, *cond) {
                Ok(t) => t,
                Err(e) => {
                    return Some(e);
                },
            };
            if ct != Type::Bool {
                return Some(
                    ValidationError::TypeMismatch { value: *cond, expected: Type::Bool, found: ct },
                );
            }
            let e = check_edge(func, *then_block, then_args, b);
            if e.is_some() {
                return e;
            }
            check_edge(func, *else_block, else_args, b)
        },
    }
}

fn check_block(func: &Function, i: usize, seen: &mut Vec<bool>) -> (r: Option<ValidationError>)
    requires
        i < func@.blocks.len(),
        old(seen)@.len() == func@.values.len(),
        forall|u: int| 0 <= u < old(seen)@.len() ==> !old(seen)@[u],
    ensures
        r == block_error(func@, i as int),
        final(seen)@.len() == old(seen)@.len(),
        r is None ==> forall|u: int| 0 <= u < final(seen)@.len() ==> !final(seen)@[u],
{
    let n = func.block_count();
    let b = Block(i as u32);
    let t = match func.terminator(b) {
        Some(t) => t,
        None => {
            return Some(ValidationError::MissingTerminator { block: b });
        },
    };
    let e = check_listing(func, func.block_params(b), b, true, seen);
    if e.is_some() {
        return e;
    }
    let e = check_listing(func, func.insts(b), b, false, seen);
    if e.is_some() {
        return e;
    }
    let e = check_insts(func, func.insts(b));
    if e.is_some() {
        return e;
    }
    check_terminator(func, b, t)
}

fn check_structure(func: &Function) -> (r: Option<ValidationError>)
    ensures
        r == structure_error(func@),
{
    let ghost ids = block_ids(func@);
    let ghost c = block_check(func@);
    let n = func.block_count();
    let nv = func.value_count();
    let mut seen: Vec<bool> = Vec::new();
    let mut u: usize = 0;
    while u < nv
        invariant
            u <= nv,
            seen@.len() == u,
            forall|q: int| 0 <= q < u ==> !seen@[q],
        decreases nv - u,
    {
        seen.push(false);
        u = u + 1;
    }
    let mut i: usize = 0;
    while i < n
        invariant
            ids == block_ids(func@),
            c == block_check(func@),
            n == func@.blocks.len(),
            nv == func@.values.len(),
            seen@.len() == nv,
            forall|q: int| 0 <= q < seen@.len() ==> !seen@[q],
            i <= n,
            first_some(ids, c, 0) == first_some(ids, c, i as int),
        decreases n - i,
    {
        assert(ids[i as int] == i);
        let e = check_block(func, i, &mut seen);
        if e.is_some() {
            return e;
        }
        i = i + 1;
    }
    None
}

/// The structural checks passing establish what the dominance check relies on.
proof fn lemma_structure_sound(f: FunctionModel)
    requires
        f.has_block(f.entry),
        f.blocks.len() <= u32::MAX,
        structure_error(f) is None,
    ensures
        structurally_sound(f),
{
    lemma_first_some(block_ids(f), block_check(f), 0);
    assert forall|b: int| 0 <= b < f.blocks.len() implies #[trigger] f.blocks[b].term is Some by {
        assert(block_ids(f)[b] == b);
        assert(block_check(f)(block_ids(f)[b]) is None);
    }
    assert forall|a: int, k: int|
        0 <= a < cfg(f).len() && 0 <= k < cfg(f)[a].len() implies #[trigger] cfg(f)[a][k] < cfg(
        f,
    ).len() by {
        assert(block_ids(f)[a] == a);
        assert(block_check(f)(block_ids(f)[a]) is None);
        let blk = Block(a as u32);
        let t = f.blocks[a].term.unwrap();
        assert(terminator_error(f, blk, t) is None);
    }
    assert forall|a: usize, v: Value| a < f.blocks.len() && #[trigger] listed_in(f, a, v) implies f.has_value(
        v,
    ) && f.block_of(v) == Some(Block(a as u32)) by {
        assert(block_ids(f)[a as int] == a);
        assert(block_check(f)(block_ids(f)[a as int]) is None);
        let blk = Block(a as u32);
        assert(definitions_error(f, blk) is None);
        lemma_listing_ok(f, f.params_of(blk), blk, true);
        lemma_listing_ok(f, f.insts_of(blk), blk, false);
        if f.blocks[a as int].params.contains(v) {
            let j = choose|j: int| 0 <= j < f.blocks[a as int].params.len() && f.blocks[a as int].params[j] == v;
            assert(def_error(f, f.params_of(blk)[j], blk, true) is None);
        } else {
            let j = choose|j: int| 0 <= j < f.blocks[a as int].insts.len() && f.blocks[a as int].insts[j] == v;
            assert(def_error(f, f.insts_of(blk)[j], blk, false) is None);
        }
    }
}

impl Function {
    /// Checks that the function is well-formed, returning the first violation
    /// found: the entry must exist; then, block by block, the block must be
    /// terminated, its listings must agree with the value table and list no
    /// value twice, its instructions and terminator must be well-typed and its
    /// edges valid; then every use in reachable code must be reached by its
    /// definition.
    pub fn validate(&self) -> (r: Result<(), ValidationError>)
        ensures
            r == validation(self@),
    {
        let n = self.block_count();
        let nv = self.value_count();
        if self.entry().index() >= n {
            return Err(ValidationError::BlockOutOfRange { block: self.entry() });
        }
        match check_structure(self) {
            Some(e) => Err(e),
            None => {
                proof {
                    lemma_structure_sound(self@);
                }
                assert(structurally_sound(self@));
                match check_dominance(self) {
                    Some(e) => Err(e),
                    None => Ok(()),
                }
            },
        }
    }
}

} // verus!
