//! Reading a function back, and its textual form.

use ir_lang::{BinOp, Block, Builder, Function, Terminator, Type, Value};

#[test]
fn test_display_renders_signature_block_and_terminator() {
    let mut b = Builder::new("double", &[Type::Int], Type::Int);
    let x = b.block_params(b.entry())[0];
    let sum = b.bin(BinOp::Add, x, x);
    b.ret(Some(sum));
    let text = b.finish().to_text(&Vec::new());

    assert!(text.starts_with("fn double(int) -> int {"));
    assert!(text.contains("b0(v0: int):"));
    assert!(text.contains("v1: int = add v0, v0"));
    assert!(text.contains("return v1"));
}

#[test]
fn test_accessors_report_value_origin() {
    let mut b = Builder::new("f", &[Type::Int], Type::Int);
    let p = b.block_params(b.entry())[0];
    let five = b.iconst(5);
    b.ret(Some(p));
    let func = b.finish();

    assert_eq!(func.value_block(p), Some(func.entry()));
    assert_eq!(func.value_block(five), Some(func.entry()));
    assert!(func.inst(p).is_none());
    assert!(func.inst(five).is_some());
    assert_eq!(func.value_type(five), Some(Type::Int));
}

#[test]
fn test_out_of_range_handles_return_none_not_panic() {
    let func = Builder::new("f", &[], Type::Unit).finish();
    let bogus_value = Value::from_raw(99);
    let bogus_block = Block::from_raw(99);
    assert_eq!(func.value_type(bogus_value), None);
    assert_eq!(func.value_block(bogus_value), None);
    assert!(func.inst(bogus_value).is_none());
    assert!(func.terminator(bogus_block).is_none());
    assert!(func.block_params(bogus_block).is_empty());
    assert!(func.insts(bogus_block).is_empty());
}

#[test]
fn test_signature_accessors_and_counts() {
    let mut b = Builder::new("g", &[Type::Int, Type::Bool], Type::Float);
    let _ = b.create_block(&[Type::Int]);
    let _ = b.iconst(1);
    let func = b.finish();
    assert_eq!(func.name(), "g");
    assert_eq!(func.params(), &[Type::Int, Type::Bool]);
    assert_eq!(func.ret(), Type::Float);
    assert_eq!(func.entry(), Block::from_raw(0));
    assert_eq!(func.block_count(), 2);
    assert_eq!(func.value_count(), 4);
    assert_eq!(func.blocks(), vec![Block::from_raw(0), Block::from_raw(1)]);
}

#[test]
fn test_full_text_of_a_branching_function() {
    let mut b = Builder::new("sel", &[Type::Bool], Type::Int);
    let c = b.block_params(b.entry())[0];
    let join = b.create_block(&[Type::Int]);
    let yes = b.create_block(&[]);
    let no = b.create_block(&[]);
    b.branch(c, yes, &[], no, &[]);
    b.switch_to(yes);
    let one = b.iconst(-1);
    b.jump(join, &[one]);
    b.switch_to(no);
    let t = b.bconst(false);
    let z = b.iconst(0);
    b.jump(join, &[z]);
    b.switch_to(join);
    let r = b.block_params(join)[0];
    b.ret(Some(r));
    let _ = t;
    let text = b.finish().to_text(&Vec::new());
    assert_eq!(
        text,
        "fn sel(bool) -> int {\n  b0(v0: bool):\n    branch v0, b2, b3\n  b1(v1: int):\n    return v1\n  b2():\n    v2: int = iconst -1\n    jump b1(v2)\n  b3():\n    v3: bool = bconst false\n    v4: int = iconst 0\n    jump b1(v4)\n}"
    );
}

#[test]
fn test_text_of_float_constants_and_missing_terminator() {
    let mut b = Builder::new("pi", &[], Type::Float);
    let pi = b.fconst(3.5f64.to_bits());
    let func = b.finish();
    let mut floats = vec![String::new(); func.value_count()];
    floats[pi.index()] = 3.5f64.to_string();
    assert_eq!(
        func.to_text(&floats),
        "fn pi() -> float {\n  b0():\n    v0: float = fconst 3.5\n    <missing terminator>\n}"
    );
}

#[test]
fn test_text_of_unary_and_return_without_value() {
    let mut b = Builder::new("u", &[Type::Bool, Type::Int], Type::Unit);
    let p = b.block_params(b.entry())[0];
    let _ = b.un(ir_lang::UnOp::Not, p);
    b.ret(None);
    let text = b.finish().to_text(&Vec::new());
    assert!(text.contains("b0(v0: bool, v1: int):"));
    assert!(text.contains("v2: bool = not v0"));
    assert!(text.contains("    return\n"));
}

#[test]
fn test_clone_is_equal() {
    let mut b = Builder::new("k", &[Type::Int], Type::Int);
    let x = b.block_params(b.entry())[0];
    b.ret(Some(x));
    let func: Function = b.finish();
    assert_eq!(func.clone(), func);
    assert!(matches!(func.terminator(func.entry()), Some(Terminator::Return(Some(_)))));
}

#[test]
fn test_argument_lists_print_in_parentheses() {
    let mut s = String::new();
    ir_lang::display::push_args(&mut s, &vec![Value::from_raw(1), Value::from_raw(2)]);
    assert_eq!(s, "(v1, v2)");
    let mut t = String::new();
    ir_lang::display::push_args(&mut t, &vec![]);
    assert_eq!(t, "");
}
