//! Driving the public API the way a front-end would: build a function with the
//! builder, validate it, and read it back.

use ir_lang::{BinOp, Builder, Function, Inst, Terminator, Type, UnOp, Value};

/// `fn max(a: int, b: int) -> int { if a < b { b } else { a } }`
#[test]
fn test_lower_if_expression_to_diamond() {
    let mut b = Builder::new("max", &[Type::Int, Type::Int], Type::Int);
    let a = b.block_params(b.entry())[0];
    let bb = b.block_params(b.entry())[1];

    let join = b.create_block(&[Type::Int]);
    let then_blk = b.create_block(&[]);
    let else_blk = b.create_block(&[]);

    let cond = b.bin(BinOp::Lt, a, bb);
    b.branch(cond, then_blk, &[], else_blk, &[]);

    b.switch_to(then_blk);
    b.jump(join, &[bb]);

    b.switch_to(else_blk);
    b.jump(join, &[a]);

    b.switch_to(join);
    let result = b.block_params(join)[0];
    b.ret(Some(result));

    let func = b.finish();
    assert_eq!(func.validate(), Ok(()));
    assert_eq!(func.block_count(), 4);
    assert_eq!(func.params(), &[Type::Int, Type::Int]);
    assert_eq!(func.ret(), Type::Int);

    assert!(matches!(
        func.terminator(func.entry()),
        Some(Terminator::Branch { .. })
    ));
    assert_eq!(func.value_type(cond), Some(Type::Bool));
}

/// `fn abs(x: int) -> int { if x < 0 { -x } else { x } }`
#[test]
fn test_lower_negation_in_a_branch() {
    let mut b = Builder::new("abs", &[Type::Int], Type::Int);
    let x = b.block_params(b.entry())[0];

    let join = b.create_block(&[Type::Int]);
    let neg_blk = b.create_block(&[]);
    let pos_blk = b.create_block(&[]);

    let zero = b.iconst(0);
    let is_neg = b.bin(BinOp::Lt, x, zero);
    b.branch(is_neg, neg_blk, &[], pos_blk, &[]);

    b.switch_to(neg_blk);
    let negated = b.un(UnOp::Neg, x);
    b.jump(join, &[negated]);

    b.switch_to(pos_blk);
    b.jump(join, &[x]);

    b.switch_to(join);
    let result = b.block_params(join)[0];
    b.ret(Some(result));

    let func = b.finish();
    assert_eq!(func.validate(), Ok(()));
    assert!(matches!(func.inst(negated), Some(Inst::Un(UnOp::Neg, _))));
}

/// A counted loop with a back-edge.
#[test]
fn test_lower_countdown_loop() {
    let mut b = Builder::new("countdown", &[Type::Int], Type::Unit);
    let start = b.block_params(b.entry())[0];

    let header = b.create_block(&[Type::Int]);
    let body = b.create_block(&[]);
    let exit = b.create_block(&[]);

    b.jump(header, &[start]);

    b.switch_to(header);
    let i = b.block_params(header)[0];
    let zero = b.iconst(0);
    let more = b.bin(BinOp::Gt, i, zero);
    b.branch(more, body, &[], exit, &[]);

    b.switch_to(body);
    let one = b.iconst(1);
    let next = b.bin(BinOp::Sub, i, one);
    b.jump(header, &[next]);

    b.switch_to(exit);
    b.ret(None);

    let func = b.finish();
    assert_eq!(func.validate(), Ok(()));
    assert_eq!(func.block_params(header).len(), 1);
}

/// The textual IR reflects the structure that was built.
#[test]
fn test_display_reflects_built_structure() {
    let mut b = Builder::new("poly", &[Type::Int, Type::Int], Type::Int);
    let a = b.block_params(b.entry())[0];
    let bb = b.block_params(b.entry())[1];
    let sum = b.bin(BinOp::Add, a, bb);
    let diff = b.bin(BinOp::Sub, a, bb);
    let product = b.bin(BinOp::Mul, sum, diff);
    b.ret(Some(product));

    let text = b.finish().to_text(&Vec::new());
    assert!(text.contains("fn poly(int, int) -> int {"));
    assert!(text.contains("b0(v0: int, v1: int):"));
    assert!(text.contains("v2: int = add v0, v1"));
    assert!(text.contains("v3: int = sub v0, v1"));
    assert!(text.contains("v4: int = mul v2, v3"));
    assert!(text.contains("return v4"));
}

/// Building the same program twice produces equal functions.
#[test]
fn test_building_is_deterministic() {
    fn build() -> Function {
        let mut b = Builder::new("k", &[Type::Int], Type::Int);
        let x = b.block_params(b.entry())[0];
        let two = b.iconst(2);
        let doubled = b.bin(BinOp::Mul, x, two);
        b.ret(Some(doubled));
        b.finish()
    }
    assert_eq!(build(), build());
}

/// A tiny integer-expression tree, standing in for a front-end's syntax tree.
enum Expr {
    Param,
    Lit(i64),
    Bin(BinOp, Box<Expr>, Box<Expr>),
    IfLt(Box<Expr>, Box<Expr>, Box<Expr>, Box<Expr>),
}

fn lower(b: &mut Builder, expr: &Expr, param: Value) -> Value {
    match expr {
        Expr::Param => param,
        Expr::Lit(n) => b.iconst(*n),
        Expr::Bin(op, lhs, rhs) => {
            let l = lower(b, lhs, param);
            let r = lower(b, rhs, param);
            b.bin(*op, l, r)
        }
        Expr::IfLt(lhs, rhs, then_e, else_e) => {
            let l = lower(b, lhs, param);
            let r = lower(b, rhs, param);
            let cond = b.bin(BinOp::Lt, l, r);
            let join = b.create_block(&[Type::Int]);
            let then_blk = b.create_block(&[]);
            let else_blk = b.create_block(&[]);
            b.branch(cond, then_blk, &[], else_blk, &[]);
            b.switch_to(then_blk);
            let tv = lower(b, then_e, param);
            b.jump(join, &[tv]);
            b.switch_to(else_blk);
            let ev = lower(b, else_e, param);
            b.jump(join, &[ev]);
            b.switch_to(join);
            b.block_params(join)[0]
        }
    }
}

fn build_expr(expr: &Expr) -> Function {
    let mut b = Builder::new("test", &[Type::Int], Type::Int);
    let param = b.block_params(b.entry())[0];
    let result = lower(&mut b, expr, param);
    b.ret(Some(result));
    b.finish()
}

fn lit(n: i64) -> Box<Expr> {
    Box::new(Expr::Lit(n))
}

fn param() -> Box<Expr> {
    Box::new(Expr::Param)
}

fn nested_expr() -> Expr {
    // if p < 3 { (if 1 < p { p * 2 } else { p - 7 }) + p } else { if p < p { 4 } else { -9 } }
    Expr::IfLt(
        param(),
        lit(3),
        Box::new(Expr::Bin(
            BinOp::Add,
            Box::new(Expr::IfLt(
                lit(1),
                param(),
                Box::new(Expr::Bin(BinOp::Mul, param(), lit(2))),
                Box::new(Expr::Bin(BinOp::Sub, param(), lit(7))),
            )),
            param(),
        )),
        Box::new(Expr::IfLt(param(), param(), lit(4), lit(-9))),
    )
}

#[test]
fn test_lowered_nested_expression_validates() {
    for expr in [Expr::Param, Expr::Lit(5), nested_expr()] {
        assert_eq!(build_expr(&expr).validate(), Ok(()));
    }
}

#[test]
fn test_lowering_nested_expression_is_deterministic() {
    let e = nested_expr();
    assert_eq!(build_expr(&e), build_expr(&e));
}

#[test]
fn test_lowered_value_handles_are_dense_and_blocks_terminated() {
    let func = build_expr(&nested_expr());
    let count = func.value_count();
    let mut seen = vec![false; count];
    for block in func.blocks() {
        for &v in func.block_params(block) {
            assert!(v.index() < count);
            seen[v.index()] = true;
        }
        for &v in func.insts(block) {
            assert!(v.index() < count);
            seen[v.index()] = true;
        }
        let term = func.terminator(block).expect("every block is terminated");
        for target in term.successors() {
            assert!(target.index() < func.block_count());
        }
    }
    assert!(seen.iter().all(|&s| s));
}
