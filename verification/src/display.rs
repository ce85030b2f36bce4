//! The textual forms of errors and functions.

use vstd::prelude::*;
use vstd::string::*;

use crate::entity::{Block, Value};
use crate::function::{Function, FunctionModel};
use crate::inst::{Inst, TermModel, Terminator};
use crate::text::{decimal, push_decimal, push_signed_decimal, signed_decimal};
use crate::ty::Type;
use crate::validate::ValidationError;

verus! {

fn push_value(s: &mut String, v: Value)
    ensures
        final(s)@ == old(s)@ + v.text(),
{
    proof {
        reveal_strlit("v");
    }
    s.append("v");
    push_decimal(s, v.0 as u64);
    proof {
        assert(s@ =~= old(s)@ + v.text());
    }
}

fn push_block(s: &mut String, b: Block)
    ensures
        final(s)@ == old(s)@ + b.text(),
{
    proof {
        reveal_strlit("b");
    }
    s.append("b");
    push_decimal(s, b.0 as u64);
    proof {
        assert(s@ =~= old(s)@ + b.text());
    }
}

fn push_type(s: &mut String, t: Type)
    ensures
        final(s)@ == old(s)@ + t.text(),
{
    let name = t.to_string();
    s.append(name.as_str());
}

impl ValidationError {
    /// The human-readable message of the error.
    pub open spec fn text(self) -> Seq<char> {
        match self {
            ValidationError::MissingTerminator { block } => "block "@ + block.text()
                + " has no terminator"@,
            ValidationError::BlockOutOfRange { block } => "terminator targets nonexistent block "@
                + block.text(),
            ValidationError::ValueOutOfRange { value } => "reference to nonexistent value "@
                + value.text(),
            ValidationError::EntryBranchTarget { block } => "block "@ + block.text()
                + " branches to the entry block"@,
            ValidationError::ArgCountMismatch { block, expected, found } => "branch to block "@
                + block.text() + " passes "@ + decimal(found as nat) + " argument(s) but it has "@
                + decimal(expected as nat) + " parameter(s)"@,
            ValidationError::TypeMismatch { value, expected, found } => "value "@ + value.text()
                + " has type "@ + found.text() + " but "@ + expected.text() + " was required"@,
            ValidationError::NotNumeric { value, found } => "value "@ + value.text() + " has type "@
                + found.text() + " but a numeric type was required"@,
            ValidationError::ReturnValueExpected { expected } =>
                "return with no value in a function returning "@ + expected.text(),
            ValidationError::UseBeforeDef { value, block } => "value "@ + value.text()
                + " is used in block "@ + block.text() + " before it is defined"@,
            ValidationError::InconsistentDefinition { value } => "value "@ + value.text()
                + " is listed in a block that disagrees with its recorded definition"@,
        }
    }

    /// Renders the error as a human-readable message.
    pub fn to_string(&self) -> (s: String)
        ensures
            s@ == self.text(),
    {
        let mut s = String::new();
        match self {
            ValidationError::MissingTerminator { block } => {
                s.append("block ");
                push_block(&mut s, *block);
                s.append(" has no terminator");
            },
            ValidationError::BlockOutOfRange { block } => {
                s.append("terminator targets nonexistent block ");
                push_block(&mut s, *block);
            },
            ValidationError::ValueOutOfRange { value } => {
                s.append("reference to nonexistent value ");
                push_value(&mut s, *value);
            },
            ValidationError::EntryBranchTarget { block } => {
                s.append("block ");
                push_block(&mut s, *block);
                s.append(" branches to the entry block");
            },
            ValidationError::ArgCountMismatch { block, expected, found } => {
                s.append("branch to block ");
                push_block(&mut s, *block);
                s.append(" passes ");
                push_decimal(&mut s, *found as u64);
                s.append(" argument(s) but it has ");
                push_decimal(&mut s, *expected as u64);
                s.append(" parameter(s)");
            },
            ValidationError::TypeMismatch { value, expected, found } => {
                s.append("value ");
                push_value(&mut s, *value);
                s.append(" has type ");
                push_type(&mut s, *found);
                s.append(" but ");
                push_type(&mut s, *expected);
                s.append(" was required");
            },
            ValidationError::NotNumeric { value, found } => {
                s.append("value ");
                push_value(&mut s, *value);
                s.append(" has type ");
                push_type(&mut s, *found);
                s.append(" but a numeric type was required");
            },
            ValidationError::ReturnValueExpected { expected } => {
                s.append("return with no value in a function returning ");
                push_type(&mut s, *expected);
            },
            ValidationError::UseBeforeDef { value, block } => {
                s.append("value ");
                push_value(&mut s, *value);
                s.append(" is used in block ");
                push_block(&mut s, *block);
                s.append(" before it is defined");
            },
            ValidationError::InconsistentDefinition { value } => {
                s.append("value ");
                push_value(&mut s, *value);
                s.append(" is listed in a block that disagrees with its recorded definition");
            },
        }
        proof {
            assert(s@ =~= self.text());
        }
        s
    }
}

/// The items' texts separated by `", "`.
pub open spec fn comma_list<A>(items: Seq<A>, text: spec_fn(A) -> Seq<char>) -> Seq<char>
    decreases items.len(),
{
    if items.len() == 0 {
        seq![]
    } else if items.len() == 1 {
        text(items[0])
    } else {
        comma_list(items.drop_last(), text) + ", "@ + text(items.last())
    }
}

/// The items' texts one after another.
pub open spec fn concat_map<A>(items: Seq<A>, text: spec_fn(A) -> Seq<char>) -> Seq<char>
    decreases items.len(),
{
    if items.len() == 0 {
        seq![]
    } else {
        concat_map(items.drop_last(), text) + text(items.last())
    }
}

/// The type a value prints with: its type, or `unit` for a handle out of range.
pub open spec fn shown_type(f: FunctionModel, v: Value) -> Type {
    match f.type_of(v) {
        Some(t) => t,
        None => Type::Unit,
    }
}

/// The text of a type.
pub open spec fn type_text() -> spec_fn(Type) -> Seq<char> {
    |t: Type| t.text()
}

/// The text of a value handle.
pub open spec fn value_text() -> spec_fn(Value) -> Seq<char> {
    |v: Value| v.text()
}

/// A block parameter as it prints: `v<n>: <type>`.
pub open spec fn param_text(f: FunctionModel) -> spec_fn(Value) -> Seq<char> {
    |v: Value| v.text() + ": "@ + shown_type(f, v).text()
}

/// The argument list of an edge: nothing when empty, else the arguments in
/// parentheses.
pub open spec fn args_text(args: Seq<Value>) -> Seq<char> {
    if args.len() == 0 {
        seq![]
    } else {
        "("@ + comma_list(args, value_text()) + ")"@
    }
}

/// How an instruction prints. A float constant prints as `float` gives it.
pub open spec fn inst_text(inst: Inst, float: Seq<char>) -> Seq<char> {
    match inst {
        Inst::Iconst(c) => "iconst "@ + signed_decimal(c as int),
        Inst::Fconst(_) => "fconst "@ + float,
        Inst::Bconst(b) => "bconst "@ + if b {
            "true"@
        } else {
            "false"@
        },
        Inst::Bin(op, a, b) => op.text() + " "@ + a.text() + ", "@ + b.text(),
        Inst::Un(op, a) => op.text() + " "@ + a.text(),
    }
}

/// How a terminator prints.
pub open spec fn term_text(t: TermModel) -> Seq<char> {
    match t {
        TermModel::Return(None) => "return"@,
        TermModel::Return(Some(v)) => "return "@ + v.text(),
        TermModel::Jump(target, args) => "jump "@ + target.text() + args_text(args),
        TermModel::Branch { cond, then_block, then_args, else_block, else_args } => "branch "@
            + cond.text() + ", "@ + then_block.text() + args_text(then_args) + ", "@
            + else_block.text() + args_text(else_args),
    }
}

/// The text of float constant `v`, taken from `floats` (indexed by value).
pub open spec fn float_of(floats: Seq<Seq<char>>, v: Value) -> Seq<char> {
    floats[v.0 as int]
}

/// The line of an instruction result: `    v<n>: <type> = <instruction>`, with
/// `?` for a value that no instruction defines.
pub open spec fn inst_line(f: FunctionModel, floats: Seq<Seq<char>>) -> spec_fn(Value) -> Seq<char> {
    |v: Value|
        "    "@ + v.text() + ": "@ + shown_type(f, v).text() + " = "@ + match f.inst_of(v) {
            Some(inst) => inst_text(inst, float_of(floats, v)),
            None => "?"@,
        } + "\n"@
}

/// How a block prints: its header with typed parameters, a line per
/// instruction, and its terminator (or `<missing terminator>`).
pub open spec fn block_text(f: FunctionModel, floats: Seq<Seq<char>>) -> spec_fn(int) -> Seq<char> {
    |b: int|
        "  "@ + Block(b as u32).text() + "("@ + comma_list(f.blocks[b].params, param_text(f))
            + "):\n"@ + concat_map(f.blocks[b].insts, inst_line(f, floats)) + match f.blocks[b].term {
            Some(t) => "    "@ + term_text(t) + "\n"@,
            None => "    <missing terminator>\n"@,
        }
}

/// How a function prints: its signature, then its blocks in order.
pub open spec fn function_text(f: FunctionModel, floats: Seq<Seq<char>>) -> Seq<char> {
    "fn "@ + f.name + "("@ + comma_list(f.params, type_text()) + ") -> "@ + f.ret.text() + " {\n"@
        + concat_map(Seq::new(f.blocks.len(), |b: int| b), block_text(f, floats)) + "}"@
}

/// The texts held by a vector of strings.
pub open spec fn texts(v: Seq<String>) -> Seq<Seq<char>> {
    v.map_values(|s: String| s@)
}

/// Every float constant of `f` has a text in `floats`.
pub open spec fn floats_cover(f: FunctionModel, floats: Seq<Seq<char>>) -> bool {
    forall|v: Value| #[trigger] f.inst_of(v) matches Some(Inst::Fconst(_)) ==> v.0 < floats.len()
}

proof fn lemma_comma_step<A>(items: Seq<A>, text: spec_fn(A) -> Seq<char>, i: int)
    requires
        0 <= i < items.len(),
    ensures
        comma_list(items.take(i + 1), text) == if i == 0 {
            text(items[0])
        } else {
            comma_list(items.take(i), text) + ", "@ + text(items[i])
        },
{
    assert(items.take(i + 1).drop_last() =~= items.take(i));
}

proof fn lemma_concat_step<A>(items: Seq<A>, text: spec_fn(A) -> Seq<char>, i: int)
    requires
        0 <= i < items.len(),
    ensures
        concat_map(items.take(i + 1), text) == concat_map(items.take(i), text) + text(items[i]),
{
    assert(items.take(i + 1).drop_last() =~= items.take(i));
}

/// Appends an argument list: nothing for no arguments, else the values in
/// parentheses, separated by `", "`, as `(v1, v2)`.
pub fn push_args(s: &mut String, args: &Vec<Value>)
    ensures
        final(s)@ == old(s)@ + args_text(args@),
{
    if args.len() == 0 {
        assert(old(s)@ + args_text(args@) =~= old(s)@);
        return ;
    }
    proof {
        reveal_strlit("(");
        reveal_strlit(")");
        reveal_strlit(", ");
    }
    s.append("(");
    let ghost start = s@;
    let mut i: usize = 0;
    while i < args.len()
        invariant
            i <= args@.len(),
            s@ == start + comma_list(args@.take(i as int), value_text()),
        decreases args@.len() - i,
    {
        proof {
            lemma_comma_step(args@, value_text(), i as int);
        }
        if i != 0 {
            s.append(", ");
        }
        push_value(s, args[i]);
        proof {
            assert(s@ =~= start + comma_list(args@.take(i + 1), value_text()));
        }
        i = i + 1;
    }
    s.append(")");
    proof {
        assert(args@.take(args@.len() as int) =~= args@);
        assert(s@ =~= old(s)@ + args_text(args@));
    }
}

fn push_term(s: &mut String, t: &Terminator)
    ensures
        final(s)@ == old(s)@ + term_text(t@),
{
    match t {
        Terminator::Return(None) => {
            s.append("return");
        },
        Terminator::Return(Some(v)) => {
            s.append("return ");
            push_value(s, *v);
        },
        Terminator::Jump(target, args) => {
            s.append("jump ");
            push_block(s, *target);
            push_args(s, args);
        },
        Terminator::Branch { cond, then_block, then_args, else_block, else_args } => {
            s.append("branch ");
            push_value(s, *cond);
            s.append(", ");
            push_block(s, *then_block);
            push_args(s, then_args);
            s.append(", ");
            push_block(s, *else_block);
            push_args(s, else_args);
        },
    }
    proof {
        assert(s@ =~= old(s)@ + term_text(t@));
    }
}

fn push_inst(s: &mut String, inst: &Inst, float: &String)
    ensures
        final(s)@ == old(s)@ + inst_text(*inst, float@),
{
    match inst {
        Inst::Iconst(c) => {
            s.append("iconst ");
            push_signed_decimal(s, *c);
        },
        Inst::Fconst(_) => {
            s.append("fconst ");
            s.append(float.as_str());
        },
        Inst::Bconst(b) => {
            s.append("bconst ");
            if *b {
                s.append("true");
            } else {
                s.append("false");
            }
        },
        Inst::Bin(op, a, b) => {
            s.append(op.to_str());
            s.append(" ");
            push_value(s, *a);
            s.append(", ");
            push_value(s, *b);
        },
        Inst::Un(op, a) => {
            s.append(op.to_str());
            s.append(" ");
            push_value(s, *a);
        },
    }
    proof {
        assert(s@ =~= old(s)@ + inst_text(*inst, float@));
    }
}

fn shown_type_of(func: &Function, v: Value) -> (t: Type)
    ensures
        t == shown_type(func@, v),
{
    match func.value_type(v) {
        Some(t) => t,
        None => Type::Unit,
    }
}

fn push_inst_line(s: &mut String, func: &Function, v: Value, floats: &Vec<String>)
    requires
        floats_cover(func@, texts(floats@)),
    ensures
        final(s)@ == old(s)@ + inst_line(func@, texts(floats@))(v),
{
    s.append("    ");
    push_value(s, v);
    s.append(": ");
    push_type(s, shown_type_of(func, v));
    s.append(" = ");
    match func.inst(v) {
        Some(inst) => {
            match inst {
                Inst::Fconst(_) => {
                    assert(func@.inst_of(v) matches Some(Inst::Fconst(_)));
                    push_inst(s, inst, &floats[v.index()]);
                },
                _ => {
                    let none = String::new();
                    push_inst(s, inst, &none);
                },
            }
        },
        None => {
            s.append("?");
        },
    }
    s.append("\n");
    proof {
        assert(s@ =~= old(s)@ + inst_line(func@, texts(floats@))(v));
    }
}

fn push_block_text(s: &mut String, func: &Function, b: usize, floats: &Vec<String>)
    requires
        b < func@.blocks.len(),
        func@.blocks.len() <= u32::MAX,
        floats_cover(func@, texts(floats@)),
    ensures
        final(s)@ == old(s)@ + block_text(func@, texts(floats@))(b as int),
{
    let ghost f = func@;
    let ghost ft = texts(floats@);
    let blk = Block(b as u32);
    s.append("  ");
    push_block(s, blk);
    s.append("(");
    let params = func.block_params(blk);
    let ghost start = s@;
    let mut i: usize = 0;
    while i < params.len()
        invariant
            f == func@,
            i <= params@.len(),
            params@ == f.blocks[b as int].params,
            s@ == start + comma_list(params@.take(i as int), param_text(f)),
        decreases params@.len() - i,
    {
        proof {
            lemma_comma_step(params@, param_text(f), i as int);
        }
        if i != 0 {
            s.append(", ");
        }
        let v = params[i];
        push_value(s, v);
        s.append(": ");
        push_type(s, shown_type_of(func, v));
        proof {
            assert(s@ =~= start + comma_list(params@.take(i + 1), param_text(f)));
        }
        i = i + 1;
    }
    proof {
        assert(params@.take(params@.len() as int) =~= params@);
    }
    s.append("):\n");
    let insts = func.insts(blk);
    let ghost start2 = s@;
    let mut i: usize = 0;
    while i < insts.len()
        invariant
            f == func@,
            ft == texts(floats@),
            floats_cover(f, ft),
            i <= insts@.len(),
            insts@ == f.blocks[b as int].insts,
            s@ == start2 + concat_map(insts@.take(i as int), inst_line(f, ft)),
        decreases insts@.len() - i,
    {
        proof {
            lemma_concat_step(insts@, inst_line(f, ft), i as int);
        }
        push_inst_line(s, func, insts[i], floats);
        proof {
            assert(s@ =~= start2 + concat_map(insts@.take(i + 1), inst_line(f, ft)));
        }
        i = i + 1;
    }
    proof {
        assert(insts@.take(insts@.len() as int) =~= insts@);
    }
    match func.terminator(blk) {
        Some(t) => {
            s.append("    ");
            push_term(s, t);
            s.append("\n");
        },
        None => {
            s.append("    <missing terminator>\n");
        },
    }
    proof {
        assert(s@ =~= old(s)@ + block_text(f, ft)(b as int));
    }
}

impl Function {
    /// Renders the function as textual IR: `fn <name>(<types>) -> <type> {`,
    /// then each block as a header line `  b<n>(<params>):`, a line per
    /// instruction and a terminator line, then `}`. A floating-point
    /// constant prints as the text `floats` holds at its value's index.
    pub fn to_text(&self, floats: &Vec<String>) -> (s: String)
        requires
            floats_cover(self@, texts(floats@)),
        ensures
            s@ == function_text(self@, texts(floats@)),
    {
        let ghost f = self@;
        let ghost ft = texts(floats@);
        let mut s = String::new();
        s.append("fn ");
        s.append(self.name());
        s.append("(");
        let params = self.params();
        let ghost start = s@;
        let mut i: usize = 0;
        while i < params.len()
            invariant
                i <= params@.len(),
                params@ == f.params,
                s@ == start + comma_list(params@.take(i as int), type_text()),
            decreases params@.len() - i,
        {
            proof {
                lemma_comma_step(params@, type_text(), i as int);
            }
            if i != 0 {
                s.append(", ");
            }
            push_type(&mut s, params[i]);
            proof {
                assert(s@ =~= start + comma_list(params@.take(i + 1), type_text()));
            }
            i = i + 1;
        }
        proof {
            assert(params@.take(params@.len() as int) =~= params@);
        }
        s.append(") -> ");
        push_type(&mut s, self.ret());
        s.append(" {\n");
        let n = self.block_count();
        let ghost ids = Seq::new(n as nat, |b: int| b);
        let ghost start2 = s@;
        let mut b: usize = 0;
        while b < n
            invariant
                f == self@,
                ft == texts(floats@),
                floats_cover(f, ft),
                n == f.blocks.len(),
                n <= u32::MAX,
                ids == Seq::new(n as nat, |b: int| b),
                b <= n,
                s@ == start2 + concat_map(ids.take(b as int), block_text(f, ft)),
            decreases n - b,
        {
            proof {
                lemma_concat_step(ids, block_text(f, ft), b as int);
                assert(ids[b as int] == b as int);
            }
            push_block_text(&mut s, self, b, floats);
            proof {
                assert(s@ =~= start2 + concat_map(ids.take(b + 1), block_text(f, ft)));
            }
            b = b + 1;
        }
        proof {
            assert(ids.take(n as int) =~= ids);
        }
        s.append("}");
        proof {
            assert(s@ =~= function_text(f, ft));
        }
        s
    }
}

} // verus!
