//! An intermediate representation in SSA form, the builder a front-end lowers
//! into it through, and a validator that checks a function is well-formed.
//!
//! A [`Function`] is a control-flow graph of basic blocks; each block is a
//! straight-line run of value-producing instructions ended by one
//! [`Terminator`]; every value is named by a small [`Value`] handle and defined
//! exactly once. Values cross control-flow joins as block parameters rather
//! than through phi nodes. There is no syntax tree here to lower from: a
//! front-end walks its own tree and calls a [`Builder`] method per construct,
//! then checks the result with [`Function::validate`].
//!
//! Every contract is stated over mathematical models ([`FunctionModel`],
//! [`BuilderModel`]); the module [`validate`] specifies which error validation
//! reports, [`dominance`] what it means for a definition to reach a use, and
//! [`laws`] states and proves what the library promises as a whole, and
//! [`meaning`] what each operation means: result types, printed names and
//! forms, and that every reported error is true of the function.

mod builder;
pub mod display;
pub mod dominance;
pub mod domtree;
mod entity;
mod function;
pub mod graph;
mod inst;
pub mod laws;
pub mod lowering;
pub mod meaning;
pub mod text;
mod ty;
pub mod validate;

pub use builder::{Builder, BuilderModel};
pub use entity::{Block, Value};
pub use function::{BlockData, BlockModel, Function, FunctionModel, ValueData, ValueDef};
pub use inst::{BinOp, Inst, TermModel, Terminator, UnOp};
pub use ty::Type;
pub use validate::ValidationError;
