//! Instructions and terminators: the operations a block is made of.

use vstd::prelude::*;
use vstd::string::*;

use crate::entity::{Block, Value};

verus! {

/// A binary operation.
///
/// The arithmetic operations take two operands of the same numeric type and
/// produce that type; the comparisons take two operands of the same type and
/// produce a `Bool`; the logical operations take two `Bool`s and produce a `Bool`.
#[derive(Clone, Copy, PartialEq, Eq, Structural, PartialOrd, Ord, Hash, Debug)]
pub enum BinOp {
    /// Addition of two numeric operands.
    Add,
    /// Subtraction of the second numeric operand from the first.
    Sub,
    /// Multiplication of two numeric operands.
    Mul,
    /// Division of the first numeric operand by the second.
    Div,
    /// Equality comparison; result is `Bool`.
    Eq,
    /// Inequality comparison; result is `Bool`.
    Ne,
    /// Less-than comparison; result is `Bool`.
    Lt,
    /// Less-than-or-equal comparison; result is `Bool`.
    Le,
    /// Greater-than comparison; result is `Bool`.
    Gt,
    /// Greater-than-or-equal comparison; result is `Bool`.
    Ge,
    /// Logical conjunction of two `Bool` operands; result is `Bool`.
    And,
    /// Logical disjunction of two `Bool` operands; result is `Bool`.
    Or,
}

impl BinOp {
    /// Whether the operation is one of the six comparisons.
    pub open spec fn comparison(self) -> bool {
        self is Eq || self is Ne || self is Lt || self is Le || self is Gt || self is Ge
    }

    /// Whether the operation is one of the two logical connectives.
    pub open spec fn logical(self) -> bool {
        self is And || self is Or
    }

    /// Whether the operation is arithmetic (add, subtract, multiply, divide).
    pub open spec fn arithmetic(self) -> bool {
        self is Add || self is Sub || self is Mul || self is Div
    }

    /// Whether the operation demands numeric operands: the arithmetic operations
    /// and the ordering comparisons. Equality accepts any matching type.
    pub open spec fn wants_numeric(self) -> bool {
        self.arithmetic() || self is Lt || self is Le || self is Gt || self is Ge
    }

    /// Returns `true` for the comparison operations.
    pub fn is_comparison(self) -> (b: bool)
        ensures
            b == self.comparison(),
    {
        match self {
            BinOp::Eq | BinOp::Ne | BinOp::Lt | BinOp::Le | BinOp::Gt | BinOp::Ge => true,
            _ => false,
        }
    }

    /// Returns `true` for the logical operations.
    pub fn is_logical(self) -> (b: bool)
        ensures
            b == self.logical(),
    {
        match self {
            BinOp::And | BinOp::Or => true,
            _ => false,
        }
    }

    /// Returns `true` for the operations that require numeric operands.
    pub fn requires_numeric(self) -> (b: bool)
        ensures
            b == self.wants_numeric(),
    {
        match self {
            BinOp::Add | BinOp::Sub | BinOp::Mul | BinOp::Div | BinOp::Lt | BinOp::Le
            | BinOp::Gt | BinOp::Ge => true,
            _ => false,
        }
    }

    /// The lowercase mnemonic the operation prints as.
    pub open spec fn text(self) -> Seq<char> {
        match self {
            BinOp::Add => "add"@,
            BinOp::Sub => "sub"@,
            BinOp::Mul => "mul"@,
            BinOp::Div => "div"@,
            BinOp::Eq => "eq"@,
            BinOp::Ne => "ne"@,
            BinOp::Lt => "lt"@,
            BinOp::Le => "le"@,
            BinOp::Gt => "gt"@,
            BinOp::Ge => "ge"@,
            BinOp::And => "and"@,
            BinOp::Or => "or"@,
        }
    }

    /// Renders the operation as its mnemonic.
    pub fn to_str(&self) -> (s: &'static str)
        ensures
            s@ == self.text(),
    {
        match self {
            BinOp::Add => "add",
            BinOp::Sub => "sub",
            BinOp::Mul => "mul",
            BinOp::Div => "div",
            BinOp::Eq => "eq",
            BinOp::Ne => "ne",
            BinOp::Lt => "lt",
            BinOp::Le => "le",
            BinOp::Gt => "gt",
            BinOp::Ge => "ge",
            BinOp::And => "and",
            BinOp::Or => "or",
        }
    }

    /// Renders the operation as its mnemonic.
    pub fn to_string(&self) -> (s: String)
        ensures
            s@ == self.text(),
    {
        String::from_str(self.to_str())
    }
}

/// A unary operation.
#[derive(Clone, Copy, PartialEq, Eq, Structural, PartialOrd, Ord, Hash, Debug)]
pub enum UnOp {
    /// Arithmetic negation of a numeric operand.
    Neg,
    /// Logical negation of a `Bool` operand.
    Not,
}

impl UnOp {
    /// The lowercase mnemonic the operation prints as.
    pub open spec fn text(self) -> Seq<char> {
        match self {
            UnOp::Neg => "neg"@,
            UnOp::Not => "not"@,
        }
    }

    /// Renders the operation as its mnemonic.
    pub fn to_str(&self) -> (s: &'static str)
        ensures
            s@ == self.text(),
    {
        match self {
            UnOp::Neg => "neg",
            UnOp::Not => "not",
        }
    }

    /// Renders the operation as its mnemonic.
    pub fn to_string(&self) -> (s: String)
        ensures
            s@ == self.text(),
    {
        String::from_str(self.to_str())
    }
}

/// A value-producing instruction. Every variant defines exactly one value.
///
/// A floating-point constant is held as the IEEE-754 bit pattern of its `f64`
/// (what `f64::to_bits` returns), so that the IR itself is plain integers.
#[derive(Clone, Copy, PartialEq, Eq, Structural, Debug)]
pub enum Inst {
    /// An integer constant. Result type is `Int`.
    Iconst(i64),
    /// A floating-point constant, as the bits of an `f64`. Result type is
    /// `Float`. Equality compares the bits: two constants holding the same NaN
    /// are equal, and `0.0` differs from `-0.0`.
    Fconst(u64),
    /// A boolean constant. Result type is `Bool`.
    Bconst(bool),
    /// A binary operation over two values. Result type follows the operation.
    Bin(BinOp, Value, Value),
    /// A unary operation over one value. Result type follows the operation.
    Un(UnOp, Value),
}

impl Inst {
    /// The values the instruction reads, in operand order.
    pub open spec fn operands(self) -> Seq<Value> {
        match self {
            Inst::Bin(_, a, b) => seq![a, b],
            Inst::Un(_, a) => seq![a],
            _ => seq![],
        }
    }
}

/// The single instruction that ends a basic block and transfers control.
#[derive(PartialEq, Debug)]
pub enum Terminator {
    /// Return from the function, optionally with a value.
    Return(Option<Value>),
    /// Jump unconditionally to a block, passing one argument per target parameter.
    Jump(Block, Vec<Value>),
    /// Branch on a `Bool` condition: the first block (and its arguments) when the
    /// condition is true, the second otherwise.
    Branch {
        /// The boolean condition selecting which arm runs.
        cond: Value,
        /// The block taken when `cond` is true.
        then_block: Block,
        /// Arguments passed to `then_block`'s parameters.
        then_args: Vec<Value>,
        /// The block taken when `cond` is false.
        else_block: Block,
        /// Arguments passed to `else_block`'s parameters.
        else_args: Vec<Value>,
    },
}

/// The mathematical form of a terminator, with its argument lists as sequences.
pub enum TermModel {
    /// Return, optionally with a value.
    Return(Option<Value>),
    /// Unconditional jump with arguments.
    Jump(Block, Seq<Value>),
    /// Conditional branch with the arguments of each arm.
    Branch {
        /// The condition.
        cond: Value,
        /// The block taken when the condition is true.
        then_block: Block,
        /// Arguments for `then_block`.
        then_args: Seq<Value>,
        /// The block taken otherwise.
        else_block: Block,
        /// Arguments for `else_block`.
        else_args: Seq<Value>,
    },
}

impl TermModel {
    /// The blocks control can go to next, in order.
    pub open spec fn successors(self) -> Seq<Block> {
        match self {
            TermModel::Return(_) => seq![],
            TermModel::Jump(t, _) => seq![t],
            TermModel::Branch { then_block, else_block, .. } => seq![then_block, else_block],
        }
    }

    /// The values the terminator reads, in the order they are checked: the
    /// returned value; the jump arguments; the condition, then the arguments of
    /// each arm.
    pub open spec fn operands(self) -> Seq<Value> {
        match self {
            TermModel::Return(None) => seq![],
            TermModel::Return(Some(v)) => seq![v],
            TermModel::Jump(_, args) => args,
            TermModel::Branch { cond, then_args, else_args, .. } => seq![cond] + then_args
                + else_args,
        }
    }
}

impl View for Terminator {
    type V = TermModel;

    open spec fn view(&self) -> TermModel {
        match self {
            Terminator::Return(v) => TermModel::Return(*v),
            Terminator::Jump(t, args) => TermModel::Jump(*t, args@),
            Terminator::Branch { cond, then_block, then_args, else_block, else_args } =>
                TermModel::Branch {
                cond: *cond,
                then_block: *then_block,
                then_args: then_args@,
                else_block: *else_block,
                else_args: else_args@,
            },
        }
    }
}

fn copy_args(args: &Vec<Value>) -> (c: Vec<Value>)
    ensures
        c@ == args@,
{
    let mut c: Vec<Value> = Vec::new();
    let mut i: usize = 0;
    while i < args.len()
        invariant
            i <= args@.len(),
            c@ == args@.take(i as int),
        decreases args@.len() - i,
    {
        c.push(args[i]);
        proof {
            assert(args@.take(i + 1) =~= args@.take(i as int).push(args@[i as int]));
        }
        i = i + 1;
    }
    proof {
        assert(args@.take(args@.len() as int) =~= args@);
    }
    c
}

impl Clone for Terminator {
    fn clone(&self) -> (t: Terminator)
        ensures
            t@ == self@,
    {
        match self {
            Terminator::Return(v) => Terminator::Return(*v),
            Terminator::Jump(target, args) => Terminator::Jump(*target, copy_args(args)),
            Terminator::Branch { cond, then_block, then_args, else_block, else_args } =>
                Terminator::Branch {
                cond: *cond,
                then_block: *then_block,
                then_args: copy_args(then_args),
                else_block: *else_block,
                else_args: copy_args(else_args),
            },
        }
    }
}

impl Terminator {
    /// Returns the blocks this terminator can transfer control to, in order: none
    /// for a return, the target of a jump, the two arms of a branch.
    pub fn successors(&self) -> (s: Vec<Block>)
        ensures
            s@ == self@.successors(),
    {
        let mut out: Vec<Block> = Vec::new();
        match self {
            Terminator::Return(_) => {},
            Terminator::Jump(target, _) => {
                out.push(*target);
            },
            Terminator::Branch { then_block, else_block, .. } => {
                out.push(*then_block);
                out.push(*else_block);
            },
        }
        proof {
            assert(out@ =~= self@.successors());
        }
        out
    }

    /// Calls `f` once for each block this terminator can transfer control to, in
    /// order: once for each element of [`successors`](Terminator::successors),
    /// whatever the argument lists hold. A return calls `f` zero times.
    pub fn each_successor<F: FnMut(Block)>(&self, f: F)
        requires
            forall|b: Block| call_requires(f, (b,)),
    {
        let mut f = f;
        let targets = self.successors();
        let mut i: usize = 0;
        while i < targets.len()
            invariant
                i <= targets@.len(),
                forall|b: Block| call_requires(f, (b,)),
            decreases targets@.len() - i,
        {
            f(targets[i]);
            i = i + 1;
        }
    }
}

} // verus!
