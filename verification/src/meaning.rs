//! Laws that pin down what the operations mean, stated over the operations'
//! variants and their results rather than over the functions that compute
//! them: which result type each operation has, that the builder and the
//! validator agree on it, that the names operations print with tell them
//! apart, and that the printed form of a terminator determines its arguments.

use vstd::prelude::*;

use crate::builder::BuilderModel;
use crate::display::{args_text, comma_list, term_text, value_text};
use vstd::string::*;
use crate::entity::{Block, Value};
use crate::function::{FunctionModel, ValueData, ValueDef};
use crate::inst::{BinOp, Inst, TermModel, UnOp};
use crate::text::{decimal, digit_char};
use crate::ty::Type;
use crate::dominance::{
    available, block_use_check, cfg, entry_id, inst_use_check, listed_above, listed_in, reachable,
    strictly_dominates, use_check, use_error,
};
use crate::graph::is_path;
use crate::laws::lemma_validates_iff_well_formed;
use crate::domtree::{dom_preorder, lemma_preorder_covers, lemma_reachable_in_range};
use crate::laws::listed_at;
use crate::validate::{
    arg_check, block_check, block_error, block_ids, edge_error, first_some, inst_check,
    lemma_first_some, listing_check, pairs, positions, result_error, result_type, structure_error,
    ty, validation, ValidationError,
};

verus! {

/// Every comparison (`eq`, `ne`, `lt`, `le`, `gt`, `ge`) and every logical
/// operation (`and`, `or`) yields `Bool`; arithmetic (`add`, `sub`, `mul`,
/// `div`) yields the type of its left operand, whatever the right one is.
/// This is the type the builder records for a binary instruction.
pub proof fn lemma_builder_bin_type(m: BuilderModel, op: BinOp, lhs: Value)
    ensures
        op is Eq || op is Ne || op is Lt || op is Le || op is Gt || op is Ge || op is And || op is Or
            ==> m.bin_type(op, lhs) == Type::Bool,
        op is Add || op is Sub || op is Mul || op is Div ==> m.bin_type(op, lhs) == m.value_ty(lhs),
{
}

/// `neg` yields the type of its operand and `not` yields `Bool`: the type the
/// builder records for a unary instruction.
pub proof fn lemma_builder_un_type(m: BuilderModel, op: UnOp, operand: Value)
    ensures
        op is Neg ==> m.un_type(op, operand) == m.value_ty(operand),
        op is Not ==> m.un_type(op, operand) == Type::Bool,
{
}

/// The result type validation demands of each instruction: `Int`, `Float` and
/// `Bool` for the three constants; `Bool` for every comparison and logical
/// operation and for `not`; the left operand's type for arithmetic and the
/// operand's type for `neg`, when that operand exists.
pub proof fn lemma_validator_result_type(f: FunctionModel, inst: Inst)
    ensures
        inst is Iconst ==> result_type(f, inst) == Some(Type::Int),
        inst is Fconst ==> result_type(f, inst) == Some(Type::Float),
        inst is Bconst ==> result_type(f, inst) == Some(Type::Bool),
        forall|op: BinOp, l: Value, r: Value|
            inst == Inst::Bin(op, l, r) && (op is Eq || op is Ne || op is Lt || op is Le || op is Gt
                || op is Ge || op is And || op is Or) ==> result_type(f, inst) == Some(Type::Bool),
        forall|op: BinOp, l: Value, r: Value|
            inst == Inst::Bin(op, l, r) && (op is Add || op is Sub || op is Mul || op is Div)
                && f.has_value(l) ==> result_type(f, inst) == Some(ty(f, l)),
        forall|x: Value| inst == Inst::Un(UnOp::Not, x) ==> result_type(f, inst) == Some(Type::Bool),
        forall|x: Value| inst == Inst::Un(UnOp::Neg, x) && f.has_value(x) ==> result_type(f, inst) == Some(ty(f, x)),
{
}

/// A comparison or logical instruction whose result is recorded as `Bool`
/// passes the result-type check, whatever its operands are.
pub proof fn lemma_bool_result_passes(f: FunctionModel, v: Value, op: BinOp, l: Value, r: Value)
    requires
        op is Eq || op is Ne || op is Lt || op is Le || op is Gt || op is Ge || op is And || op is Or,
        f.has_value(v),
        ty(f, v) == Type::Bool,
    ensures
        result_error(f, v, Inst::Bin(op, l, r)) is None,
{
}

/// The builder and the validator agree on result types: emitting a binary or
/// unary instruction over existing operands records for the new value exactly
/// the type that validation demands of it, so the result-type check passes.
pub proof fn lemma_builder_types_pass(m: BuilderModel, inst: Inst)
    requires
        m.values.len() < u32::MAX,
        forall|op: BinOp, l: Value, r: Value| inst == Inst::Bin(op, l, r) ==> l.0 < m.values.len(),
        forall|op: UnOp, x: Value| inst == Inst::Un(op, x) ==> x.0 < m.values.len(),
    ensures
        ({
            let t = match inst {
                Inst::Iconst(_) => Type::Int,
                Inst::Fconst(_) => Type::Float,
                Inst::Bconst(_) => Type::Bool,
                Inst::Bin(op, l, _) => m.bin_type(op, l),
                Inst::Un(op, x) => m.un_type(op, x),
            };
            let g = m.with_inst(inst, t).function();
            result_error(g, Value(m.values.len() as u32), inst) is None
        }),
{
    let t = match inst {
        Inst::Iconst(_) => Type::Int,
        Inst::Fconst(_) => Type::Float,
        Inst::Bconst(_) => Type::Bool,
        Inst::Bin(op, l, _) => m.bin_type(op, l),
        Inst::Un(op, x) => m.un_type(op, x),
    };
    let g = m.with_inst(inst, t).function();
    let v = Value(m.values.len() as u32);
    assert(g.values[v.0 as int] == ValueData { ty: t, def: ValueDef::Inst(m.current, inst) });
    match inst {
        Inst::Bin(op, l, r) => {
            assert(g.values[l.0 as int] == m.values[l.0 as int]);
        },
        Inst::Un(op, x) => {
            assert(g.values[x.0 as int] == m.values[x.0 as int]);
        },
        _ => {},
    }
}

/// Different binary operations print with different names.
pub proof fn lemma_bin_mnemonics_distinct(a: BinOp, b: BinOp)
    requires
        a != b,
    ensures
        a.text() != b.text(),
{
    reveal_strlit("add");
    reveal_strlit("sub");
    reveal_strlit("mul");
    reveal_strlit("div");
    reveal_strlit("eq");
    reveal_strlit("ne");
    reveal_strlit("lt");
    reveal_strlit("le");
    reveal_strlit("gt");
    reveal_strlit("ge");
    reveal_strlit("and");
    reveal_strlit("or");
    if a.text() == b.text() {
        assert(a.text().len() == b.text().len());
        assert(a.text()[0] == b.text()[0]);
        assert(a.text()[1] == b.text()[1]);
    }
}

/// The two unary operations print with different names, and neither prints
/// like a binary operation.
pub proof fn lemma_un_mnemonics_distinct(a: UnOp, b: BinOp)
    ensures
        UnOp::Neg.text() != UnOp::Not.text(),
        a.text() != b.text(),
{
    reveal_strlit("neg");
    reveal_strlit("not");
    reveal_strlit("add");
    reveal_strlit("sub");
    reveal_strlit("mul");
    reveal_strlit("div");
    reveal_strlit("eq");
    reveal_strlit("ne");
    reveal_strlit("lt");
    reveal_strlit("le");
    reveal_strlit("gt");
    reveal_strlit("ge");
    reveal_strlit("and");
    reveal_strlit("or");
    assert(UnOp::Neg.text()[1] != UnOp::Not.text()[1]);
    if a.text() == b.text() {
        assert(a.text().len() == b.text().len());
        assert(a.text()[0] == b.text()[0]);
        assert(a.text()[1] == b.text()[1]);
    }
}

/// Different types print with different names.
pub proof fn lemma_type_names_distinct(a: Type, b: Type)
    requires
        a != b,
    ensures
        a.text() != b.text(),
{
    reveal_strlit("int");
    reveal_strlit("float");
    reveal_strlit("bool");
    reveal_strlit("unit");
    if a.text() == b.text() {
        assert(a.text().len() == b.text().len());
        assert(a.text()[0] == b.text()[0]);
    }
}

/// A decimal digit character.
pub open spec fn is_digit(c: char) -> bool {
    c == '0' || c == '1' || c == '2' || c == '3' || c == '4' || c == '5' || c == '6' || c == '7'
        || c == '8' || c == '9'
}

/// A character of a list of value handles: `v`, a digit, a comma or a space.
pub open spec fn list_char(c: char) -> bool {
    c == 'v' || c == ',' || c == ' ' || is_digit(c)
}

proof fn lemma_digit_char(d: nat)
    ensures
        is_digit(digit_char(d)),
        d < 10 ==> forall|e: nat| e < 10 && digit_char(e) == digit_char(d) ==> e == d,
{
}

proof fn lemma_decimal_digits(n: nat)
    ensures
        decimal(n).len() >= 1,
        n >= 10 ==> decimal(n).len() >= 2,
        forall|i: int| 0 <= i < decimal(n).len() ==> is_digit(#[trigger] decimal(n)[i]),
    decreases n,
{
    lemma_digit_char(n);
    lemma_digit_char(n % 10);
    if n >= 10 {
        lemma_decimal_digits(n / 10);
        let d = decimal(n / 10);
        assert forall|i: int| 0 <= i < decimal(n).len() implies is_digit(#[trigger] decimal(n)[i]) by {
            if i < d.len() {
                assert(decimal(n)[i] == d[i]);
            }
        }
    }
}

/// Different numbers have different decimal forms.
pub proof fn lemma_decimal_injective(n: nat, m: nat)
    requires
        decimal(n) == decimal(m),
    ensures
        n == m,
    decreases n,
{
    lemma_decimal_digits(n);
    lemma_decimal_digits(m);
    lemma_digit_char(n % 10);
    lemma_digit_char(m % 10);
    if n < 10 && m < 10 {
        assert(decimal(n)[0] == digit_char(n));
        assert(decimal(m)[0] == digit_char(m));
    } else if n >= 10 && m >= 10 {
        let dn = decimal(n);
        let dm = decimal(m);
        assert(dn.last() == digit_char(n % 10));
        assert(dm.last() == digit_char(m % 10));
        assert(n % 10 == m % 10);
        assert(dn.drop_last() =~= decimal(n / 10));
        assert(dm.drop_last() =~= decimal(m / 10));
        lemma_decimal_injective(n / 10, m / 10);
    }
}

/// A value prints as `v` and digits, and different values print differently.
pub proof fn lemma_value_text(v: Value, w: Value)
    ensures
        forall|i: int| 0 <= i < v.text().len() ==> list_char(#[trigger] v.text()[i]),
        v.text().len() >= 2,
        v.text() == w.text() ==> v == w,
{
    lemma_decimal_digits(v.0 as nat);
    let d = decimal(v.0 as nat);
    assert forall|i: int| 0 <= i < v.text().len() implies list_char(#[trigger] v.text()[i]) by {
        if i > 0 {
            assert(v.text()[i] == d[i - 1]);
        }
    }
    if v.text() == w.text() {
        assert(v.text().subrange(1, v.text().len() as int) =~= d);
        assert(w.text().subrange(1, w.text().len() as int) =~= decimal(w.0 as nat));
        lemma_decimal_injective(v.0 as nat, w.0 as nat);
    }
}

proof fn lemma_comma_chars(items: Seq<Value>)
    ensures
        forall|i: int|
            0 <= i < comma_list(items, value_text()).len() ==> list_char(
                #[trigger] comma_list(items, value_text())[i],
            ),
        items.len() == 0 <==> comma_list(items, value_text()).len() == 0,
        items.len() >= 2 ==> comma_list(items, value_text()).contains(','),
        items.len() == 1 ==> !comma_list(items, value_text()).contains(','),
    decreases items.len(),
{
    let s = comma_list(items, value_text());
    reveal_strlit(", ");
    if items.len() == 1 {
        lemma_value_text(items[0], items[0]);
        assert(s == items[0].text());
        if s.contains(',') {
            let i = choose|i: int| 0 <= i < s.len() && s[i] == ',';
            assert(items[0].text()[0] == 'v');
            assert(list_char(s[i]));
            if i > 0 {
                lemma_decimal_digits(items[0].0 as nat);
                assert(s[i] == decimal(items[0].0 as nat)[i - 1]);
            }
        }
    } else if items.len() >= 2 {
        let p = comma_list(items.drop_last(), value_text());
        let t = items.last().text();
        lemma_comma_chars(items.drop_last());
        lemma_value_text(items.last(), items.last());
        assert(s == p + ", "@ + t);
        assert forall|i: int| 0 <= i < s.len() implies list_char(#[trigger] s[i]) by {
            if i < p.len() {
                assert(s[i] == p[i]);
            } else if i < p.len() + 2 {
                assert(s[i] == ", "@[i - p.len()]);
            } else {
                assert(s[i] == t[i - p.len() - 2]);
            }
        }
        assert(s[p.len() as int] == ',');
    }
}

/// Two lists of values print alike only when they are the same list.
#[verifier::rlimit(30)]
pub proof fn lemma_comma_list_injective(a: Seq<Value>, b: Seq<Value>)
    requires
        comma_list(a, value_text()) == comma_list(b, value_text()),
    ensures
        a == b,
    decreases a.len(),
{
    let s = comma_list(a, value_text());
    lemma_comma_chars(a);
    lemma_comma_chars(b);
    reveal_strlit(", ");
    if a.len() == 0 {
        assert(b.len() == 0);
        assert(a =~= b);
    } else if a.len() == 1 {
        assert(b.len() == 1);
        lemma_value_text(a[0], b[0]);
        assert(a =~= b);
    } else {
        assert(b.len() >= 2);
        let p1 = comma_list(a.drop_last(), value_text());
        let p2 = comma_list(b.drop_last(), value_text());
        let t1 = a.last().text();
        let t2 = b.last().text();
        lemma_value_text(a.last(), b.last());
        lemma_value_text(b.last(), a.last());
        assert(s == p1 + ", "@ + t1);
        assert(s == p2 + ", "@ + t2);
        assert(s[p1.len() as int] == ',');
        assert(s[p2.len() as int] == ',');
        if p1.len() < p2.len() {
            let k = p2.len() as int;
            if k == p1.len() + 1 {
                assert(s[k] == ' ');
            } else {
                assert(s[k] == t1[k - p1.len() - 2]);
                assert(list_char(t1[k - p1.len() - 2]));
                assert(t1[k - p1.len() - 2] != ',') by {
                    let j = k - p1.len() - 2;
                    if j > 0 {
                        lemma_decimal_digits(a.last().0 as nat);
                        assert(t1[j] == decimal(a.last().0 as nat)[j - 1]);
                    }
                }
            }
        } else if p2.len() < p1.len() {
            let k = p1.len() as int;
            if k == p2.len() + 1 {
                assert(s[k] == ' ');
            } else {
                assert(s[k] == t2[k - p2.len() - 2]);
                assert(t2[k - p2.len() - 2] != ',') by {
                    let j = k - p2.len() - 2;
                    if j > 0 {
                        lemma_decimal_digits(b.last().0 as nat);
                        assert(t2[j] == decimal(b.last().0 as nat)[j - 1]);
                    }
                }
            }
        }
        assert(p1.len() == p2.len());
        assert(p1 =~= s.subrange(0, p1.len() as int));
        assert(p2 =~= s.subrange(0, p2.len() as int));
        assert(t1 =~= s.subrange(p1.len() as int + 2, s.len() as int));
        assert(t2 =~= s.subrange(p2.len() as int + 2, s.len() as int));
        lemma_comma_list_injective(a.drop_last(), b.drop_last());
        assert(a =~= a.drop_last().push(a.last()));
        assert(b =~= b.drop_last().push(b.last()));
    }
}

/// An argument list followed by text that is empty or starts with a comma
/// can be read back: the list and what follows it are both determined.
#[verifier::rlimit(30)]
pub proof fn lemma_args_text_split(a1: Seq<Value>, a2: Seq<Value>, r1: Seq<char>, r2: Seq<char>)
    requires
        args_text(a1) + r1 == args_text(a2) + r2,
        r1.len() == 0 || r1[0] == ',',
        r2.len() == 0 || r2[0] == ',',
    ensures
        a1 == a2,
        r1 == r2,
{
    let s = args_text(a1) + r1;
    let x1 = args_text(a1);
    let x2 = args_text(a2);
    reveal_strlit("(");
    reveal_strlit(")");
    lemma_comma_chars(a1);
    lemma_comma_chars(a2);
    if a1.len() == 0 && a2.len() == 0 {
        assert(r1 =~= s);
        assert(r2 =~= s);
        assert(a1 =~= a2);
    } else if a1.len() == 0 {
        assert(x2[0] == '(');
        assert(s[0] == x2[0]);
        assert(r1 =~= s);
    } else if a2.len() == 0 {
        assert(x1[0] == '(');
        assert(s[0] == x1[0]);
        assert(r2 =~= s);
    } else {
        let c1 = comma_list(a1, value_text());
        let c2 = comma_list(a2, value_text());
        assert(x1 == "("@ + c1 + ")"@);
        assert(x2 == "("@ + c2 + ")"@);
        assert(s[x1.len() - 1] == ')');
        assert(s[x2.len() - 1] == ')');
        if x1.len() < x2.len() {
            let k = x1.len() - 1;
            assert(s[k] == x2[k]);
            assert(x2[k] == c2[k - 1]);
            assert(list_char(c2[k - 1]));
        } else if x2.len() < x1.len() {
            let k = x2.len() - 1;
            assert(s[k] == x1[k]);
            assert(x1[k] == c1[k - 1]);
            assert(list_char(c1[k - 1]));
        }
        assert(x1.len() == x2.len());
        assert(c1 =~= s.subrange(1, x1.len() - 1));
        assert(c2 =~= s.subrange(1, x2.len() - 1));
        lemma_comma_list_injective(a1, a2);
        assert(r1 =~= s.subrange(x1.len() as int, s.len() as int));
        assert(r2 =~= s.subrange(x2.len() as int, s.len() as int));
    }
}

/// Two argument lists print alike only when they are the same list.
pub proof fn lemma_args_text_injective(a1: Seq<Value>, a2: Seq<Value>)
    requires
        args_text(a1) == args_text(a2),
    ensures
        a1 == a2,
{
    assert(args_text(a1) + Seq::<char>::empty() =~= args_text(a1));
    assert(args_text(a2) + Seq::<char>::empty() =~= args_text(a2));
    lemma_args_text_split(a1, a2, Seq::empty(), Seq::empty());
}

/// The printed form of a jump determines the arguments it passes.
pub proof fn lemma_jump_text_determines_args(target: Block, a1: Seq<Value>, a2: Seq<Value>)
    requires
        term_text(TermModel::Jump(target, a1)) == term_text(TermModel::Jump(target, a2)),
    ensures
        a1 == a2,
{
    let p = "jump "@ + target.text();
    let s = p + args_text(a1);
    assert(s == p + args_text(a2));
    assert(args_text(a1) =~= s.subrange(p.len() as int, s.len() as int));
    assert(args_text(a2) =~= s.subrange(p.len() as int, s.len() as int));
    lemma_args_text_injective(a1, a2);
}

/// The printed form of a branch determines both argument lists: each arm is
/// printed with its own arguments, so two branches to the same blocks on the
/// same condition that print alike pass the same arguments on each arm.
#[verifier::rlimit(50)]
#[verifier::spinoff_prover]
pub proof fn lemma_branch_text_determines_args(
    cond: Value,
    then_block: Block,
    else_block: Block,
    ta1: Seq<Value>,
    ea1: Seq<Value>,
    ta2: Seq<Value>,
    ea2: Seq<Value>,
)
    requires
        term_text((TermModel::Branch { cond, then_block, then_args: ta1, else_block, else_args: ea1 }))
            == term_text((TermModel::Branch { cond, then_block, then_args: ta2, else_block, else_args: ea2 })),
    ensures
        ta1 == ta2,
        ea1 == ea2,
{
    reveal_strlit(", ");
    let p = "branch "@ + cond.text() + ", "@ + then_block.text();
    let r1 = ", "@ + else_block.text() + args_text(ea1);
    let r2 = ", "@ + else_block.text() + args_text(ea2);
    let s = term_text(
        TermModel::Branch { cond, then_block, then_args: ta1, else_block, else_args: ea1 },
    );
    assert(s =~= p + (args_text(ta1) + r1));
    assert(s =~= p + (args_text(ta2) + r2));
    assert(args_text(ta1) + r1 =~= s.subrange(p.len() as int, s.len() as int));
    assert(args_text(ta2) + r2 =~= s.subrange(p.len() as int, s.len() as int));
    assert(r1[0] == ',');
    assert(r2[0] == ',');
    lemma_args_text_split(ta1, ta2, r1, r2);
    let q = ", "@ + else_block.text();
    assert(r1 =~= q + args_text(ea1));
    assert(r2 =~= q + args_text(ea2));
    assert(args_text(ea1) =~= r1.subrange(q.len() as int, r1.len() as int));
    assert(args_text(ea2) =~= r2.subrange(q.len() as int, r2.len() as int));
    lemma_args_text_injective(ea1, ea2);
}

/// The control-flow successors of a terminator are its targets, in order, and
/// do not depend on the argument lists or the condition: a return has none, a
/// jump has its target, a branch has its then-target and then its
/// else-target.
pub proof fn lemma_successors_are_targets(
    v: Option<Value>,
    target: Block,
    args: Seq<Value>,
    cond: Value,
    then_block: Block,
    then_args: Seq<Value>,
    else_block: Block,
    else_args: Seq<Value>,
)
    ensures
        TermModel::Return(v).successors().len() == 0,
        TermModel::Jump(target, args).successors().len() == 1,
        TermModel::Jump(target, args).successors()[0] == target,
        (TermModel::Branch { cond, then_block, then_args, else_block, else_args }).successors().len() == 2,
        (TermModel::Branch { cond, then_block, then_args, else_block, else_args }).successors()[0]
            == then_block,
        (TermModel::Branch { cond, then_block, then_args, else_block, else_args }).successors()[1]
            == else_block,
{
}

/// The values a block lists as parameters (when `param`) or as instruction
/// results.
pub open spec fn listing(f: FunctionModel, a: int, param: bool) -> Seq<Value> {
    if param {
        f.blocks[a].params
    } else {
        f.blocks[a].insts
    }
}

/// Value `value` is read at position `i` of block `b`: an operand of the
/// instruction there, or, at the end, of the terminator.
pub open spec fn read_at(f: FunctionModel, b: usize, i: int, value: Value) -> bool {
    let insts = f.blocks[b as int].insts;
    &&& 0 <= i <= insts.len()
    &&& if i < insts.len() {
        (f.inst_of(insts[i]) matches Some(inst) && inst.operands().contains(value))
    } else {
        (f.blocks[b as int].term matches Some(t) && t.operands().contains(value))
    }
}

/// Value `value` is read at position `i` of block `b` where it is not
/// available.
pub open spec fn unavailable_use(f: FunctionModel, b: usize, i: int, value: Value) -> bool {
    read_at(f, b, i, value) && !available(f, b, i, value)
}

/// Block `block` is reachable, and `value` is read in it somewhere it is not
/// available.
pub open spec fn used_unavailable(f: FunctionModel, value: Value, block: Block) -> bool {
    reachable(f, block.0 as usize) && exists|i: int| #[trigger] unavailable_use(f, block.0 as usize, i, value)
}

/// What an error, if there is one, says of the function, and must be true of
/// it: a missing terminator is missing; an out-of-range block or value does
/// not exist; a block said to branch to the entry does; the expected argument
/// count is the target's parameter count; a mismatched value has the type
/// reported as found, which differs from the one expected; a value said not
/// to be numeric has that non-numeric type; a valueless return is in a
/// function whose return type is not `Unit`; a use before definition is a use,
/// in a reachable block, of a value not available there; an inconsistent
/// definition is a listing the value table contradicts or a repeated one.
pub open spec fn describes(f: FunctionModel, e: Option<ValidationError>) -> bool {
    match e {
        None => true,
        Some(ValidationError::MissingTerminator { block }) => f.has_block(block)
            && f.blocks[block.0 as int].term is None,
        Some(ValidationError::BlockOutOfRange { block }) => !f.has_block(block),
        Some(ValidationError::ValueOutOfRange { value }) => !f.has_value(value),
        Some(ValidationError::EntryBranchTarget { block }) => f.has_block(block) && (
        f.blocks[block.0 as int].term matches Some(t) && t.successors().contains(f.entry)),
        Some(ValidationError::ArgCountMismatch { block, expected, found }) => f.has_block(block)
            && expected == f.blocks[block.0 as int].params.len() as usize,
        Some(ValidationError::TypeMismatch { value, expected, found }) => f.has_value(value) && ty(
            f,
            value,
        ) == found && found != expected,
        Some(ValidationError::NotNumeric { value, found }) => f.has_value(value) && ty(f, value)
            == found && !found.numeric(),
        Some(ValidationError::ReturnValueExpected { expected }) => expected == f.ret && expected
            != Type::Unit,
        Some(ValidationError::UseBeforeDef { value, block }) => used_unavailable(f, value, block),
        Some(ValidationError::InconsistentDefinition { value }) => exists|a: int, param: bool, k: int|
            listed_at(f, value, a, param, k) && (f.block_of(value) != Some(Block(a as u32)) || (f.inst_of(
                value,
            ) is Some) == param || listing(f, a, param).take(k).contains(value)),
    }
}

proof fn lemma_first_some_describes<A>(
    f: FunctionModel,
    s: Seq<A>,
    c: spec_fn(A) -> Option<ValidationError>,
    i: int,
)
    requires
        forall|j: int| 0 <= j < s.len() ==> describes(f, #[trigger] c(s[j])),
    ensures
        describes(f, first_some(s, c, i)),
    decreases s.len() - i,
{
    if 0 <= i < s.len() {
        lemma_first_some_describes(f, s, c, i + 1);
    }
}

proof fn lemma_edge_describes(f: FunctionModel, target: Block, args: Seq<Value>, from: Block)
    requires
        f.has_block(from),
        (f.blocks[from.0 as int].term matches Some(t) && t.successors().contains(target)),
    ensures
        describes(f, edge_error(f, target, args, from)),
{
    let ps = pairs(args, f.params_of(target));
    assert forall|j: int| 0 <= j < ps.len() implies describes(f, #[trigger] arg_check(f)(ps[j])) by {}
    lemma_first_some_describes(f, ps, arg_check(f), 0);
}

proof fn lemma_block_describes(f: FunctionModel, b: int)
    requires
        0 <= b < f.blocks.len(),
        f.blocks.len() <= u32::MAX,
    ensures
        describes(f, block_error(f, b)),
{
    let blk = Block(b as u32);
    assert(blk.0 as int == b);
    let ps = f.blocks[b].params;
    let is = f.blocks[b].insts;
    assert(f.params_of(blk) == ps);
    assert(f.insts_of(blk) == is);
    assert forall|k: int| 0 <= k < positions(ps.len()).len() implies describes(
        f,
        #[trigger] listing_check(f, ps, blk, true)(positions(ps.len())[k]),
    ) by {
        assert(positions(ps.len())[k] == k);
        assert(listed_at(f, ps[k], b, true, k));
        assert(listing(f, b, true) == ps);
    }
    lemma_first_some_describes(f, positions(ps.len()), listing_check(f, ps, blk, true), 0);
    assert forall|k: int| 0 <= k < positions(is.len()).len() implies describes(
        f,
        #[trigger] listing_check(f, is, blk, false)(positions(is.len())[k]),
    ) by {
        assert(positions(is.len())[k] == k);
        assert(listed_at(f, is[k], b, false, k));
        assert(listing(f, b, false) == is);
    }
    lemma_first_some_describes(f, positions(is.len()), listing_check(f, is, blk, false), 0);
    assert forall|j: int| 0 <= j < is.len() implies describes(f, #[trigger] inst_check(f)(is[j])) by {}
    lemma_first_some_describes(f, is, inst_check(f), 0);
    match f.blocks[b].term {
        Some(t) => {
            match t {
                TermModel::Jump(target, args) => {
                    assert(t.successors()[0] == target);
                    lemma_edge_describes(f, target, args, blk);
                },
                TermModel::Branch { then_block, then_args, else_block, else_args, .. } => {
                    assert(t.successors()[0] == then_block);
                    assert(t.successors()[1] == else_block);
                    lemma_edge_describes(f, then_block, then_args, blk);
                    lemma_edge_describes(f, else_block, else_args, blk);
                },
                _ => {},
            }
        },
        None => {},
    }
}

proof fn lemma_uses_describe(f: FunctionModel, b: usize)
    requires
        b < f.blocks.len(),
        b <= u32::MAX,
        reachable(f, b),
    ensures
        describes(f, use_error(f, b)),
{
    let insts = f.blocks[b as int].insts;
    let ids = Seq::new(insts.len(), |i: int| i);
    assert(Block(b as u32).0 as usize == b);
    assert forall|j: int| 0 <= j < ids.len() implies describes(f, #[trigger] inst_use_check(f, b)(ids[j])) by {
        let i = ids[j];
        assert(i == j);
        match f.inst_of(insts[i]) {
            Some(inst) => {
                let ops = inst.operands();
                lemma_first_some(ops, use_check(f, b, i), 0);
                if first_some(ops, use_check(f, b, i), 0) is Some {
                    let q = choose|q: int| 0 <= q < ops.len() && #[trigger] use_check(f, b, i)(ops[q])
                        == first_some(ops, use_check(f, b, i), 0);
                    assert(ops.contains(ops[q]));
                    assert(unavailable_use(f, Block(b as u32).0 as usize, i, ops[q]));
                    assert(used_unavailable(f, ops[q], Block(b as u32)));
                }
                assert(inst_use_check(f, b)(ids[j]) == first_some(ops, use_check(f, b, i), 0));
            },
            None => {},
        }
    }
    lemma_first_some_describes(f, ids, inst_use_check(f, b), 0);
    match f.blocks[b as int].term {
        Some(t) => {
            let ops = t.operands();
            let n = insts.len() as int;
            lemma_first_some(ops, use_check(f, b, n), 0);
            if first_some(ops, use_check(f, b, n), 0) is Some {
                let q = choose|q: int| 0 <= q < ops.len() && #[trigger] use_check(f, b, n)(ops[q])
                    == first_some(ops, use_check(f, b, n), 0);
                assert(ops.contains(ops[q]));
                assert(!available(f, b, n, ops[q]));
                assert(unavailable_use(f, Block(b as u32).0 as usize, n, ops[q]));
                assert(used_unavailable(f, ops[q], Block(b as u32)));
            }
        },
        None => {},
    }
}

/// Every error validation reports is true of the function: what
/// [`describes`] says of it holds.
pub proof fn lemma_errors_describe(f: FunctionModel)
    requires
        f.blocks.len() <= u32::MAX,
    ensures
        validation(f) matches Err(e) ==> describes(f, Some(e)),
{
    if f.has_block(f.entry) {
        let ids = block_ids(f);
        assert forall|j: int| 0 <= j < ids.len() implies describes(f, #[trigger] block_check(f)(ids[j])) by {
            assert(ids[j] == j);
            lemma_block_describes(f, j);
        }
        lemma_first_some_describes(f, ids, block_check(f), 0);
        if structure_error(f) is None {
            let order = dom_preorder(f);
            lemma_preorder_covers(f);
            assert forall|j: int| 0 <= j < order.len() implies describes(
                f,
                #[trigger] block_use_check(f)(order[j]),
            ) by {
                assert(order.contains(order[j]));
                lemma_reachable_in_range(f, order[j]);
                lemma_uses_describe(f, order[j]);
            }
            lemma_first_some_describes(f, order, block_use_check(f), 0);
        }
    }
}

/// The number a digit character stands for.
pub open spec fn digit_value(c: char) -> nat {
    if c == '1' {
        1
    } else if c == '2' {
        2
    } else if c == '3' {
        3
    } else if c == '4' {
        4
    } else if c == '5' {
        5
    } else if c == '6' {
        6
    } else if c == '7' {
        7
    } else if c == '8' {
        8
    } else if c == '9' {
        9
    } else {
        0
    }
}

/// The number a string of decimal digits stands for, most significant first.
pub open spec fn read_decimal(s: Seq<char>) -> nat
    decreases s.len(),
{
    if s.len() == 0 {
        0
    } else {
        read_decimal(s.drop_last()) * 10 + digit_value(s.last())
    }
}

/// Reading the decimal form of a number back gives the number, and it has no
/// leading zero: a handle's printed number is its index.
pub proof fn lemma_decimal_reads_back(n: nat)
    ensures
        read_decimal(decimal(n)) == n,
        decimal(n).len() > 1 ==> decimal(n)[0] != '0',
    decreases n,
{
    assert(digit_value(digit_char(n % 10)) == n % 10);
    if n < 10 {
        assert(digit_value(digit_char(n)) == n);
        assert(decimal(n).drop_last() =~= Seq::<char>::empty());
        assert(decimal(n).last() == digit_char(n));
        assert(read_decimal(Seq::<char>::empty()) == 0);
        assert(read_decimal(decimal(n)) == read_decimal(decimal(n).drop_last()) * 10 + digit_value(
            decimal(n).last(),
        ));
    } else {
        lemma_decimal_reads_back(n / 10);
        assert(decimal(n).drop_last() =~= decimal(n / 10));
        assert(decimal(n).last() == digit_char(n % 10));
        assert(read_decimal(decimal(n)) == read_decimal(decimal(n / 10)) * 10 + digit_value(
            digit_char(n % 10),
        ));
        assert((n / 10) * 10 + n % 10 == n);
        lemma_decimal_digits(n / 10);
        assert(decimal(n)[0] == decimal(n / 10)[0]);
        if decimal(n / 10).len() == 1 {
            assert(n / 10 < 10) by {
                lemma_decimal_digits(n / 10);
            }
        }
    }
}

/// A value prints as `v` and then its index in decimal; a block as `b` and
/// then its index.
pub proof fn lemma_handles_print_their_index(v: Value, b: Block)
    ensures
        v.text()[0] == 'v',
        read_decimal(v.text().subrange(1, v.text().len() as int)) == v.0,
        b.text()[0] == 'b',
        read_decimal(b.text().subrange(1, b.text().len() as int)) == b.0,
{
    lemma_decimal_reads_back(v.0 as nat);
    lemma_decimal_reads_back(b.0 as nat);
    assert(v.text().subrange(1, v.text().len() as int) =~= decimal(v.0 as nat));
    assert(b.text().subrange(1, b.text().len() as int) =~= decimal(b.0 as nat));
}

/// In a function that validates, each value read in reachable code is defined
/// on every path of control flow that reaches the read: it is listed in a
/// block the path passes before reaching the reading block, or among the
/// reading block's parameters, or among its instruction results before the
/// read.
pub proof fn lemma_valid_uses_defined_on_every_path(
    f: FunctionModel,
    b: usize,
    i: int,
    v: Value,
    p: Seq<usize>,
)
    requires
        f.blocks.len() <= u32::MAX,
        validation(f) is Ok,
        b < f.blocks.len(),
        read_at(f, b, i, v),
        is_path(cfg(f), entry_id(f), p),
        p.last() == b,
    ensures
        (exists|k: int| 0 <= k < p.len() - 1 && #[trigger] listed_in(f, p[k], v))
            || f.blocks[b as int].params.contains(v) || f.blocks[b as int].insts.take(i).contains(v),
{
    lemma_validates_iff_well_formed(f);
    assert(reachable(f, b));
    let insts = f.blocks[b as int].insts;
    if i < insts.len() {
        let inst = f.inst_of(insts[i]).unwrap();
        let k = choose|k: int| 0 <= k < inst.operands().len() && inst.operands()[k] == v;
        assert(available(f, b, i, inst.operands()[k]));
    } else {
        let t = f.blocks[b as int].term.unwrap();
        let k = choose|k: int| 0 <= k < t.operands().len() && t.operands()[k] == v;
        assert(available(f, b, insts.len() as int, t.operands()[k]));
    }
    assert(available(f, b, i, v));
    if listed_above(f, b, f.blocks.len() as int, v) {
        let a = choose|a: usize| a < f.blocks.len() && strictly_dominates(f, a, b) && #[trigger] listed_in(f, a, v);
        assert(p.contains(a));
        let k = choose|k: int| 0 <= k < p.len() && p[k] == a;
        assert(k != p.len() - 1);
        assert(listed_in(f, p[k], v));
    }
}

} // verus!
