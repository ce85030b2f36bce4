//! The builder: entry seeding, result types, dense handles, and the function it
//! produces.

use ir_lang::{BinOp, Block, Builder, Inst, Terminator, Type, UnOp, Value};

#[test]
fn test_new_seeds_entry_with_function_params() {
    let b = Builder::new("f", &[Type::Int, Type::Bool], Type::Unit);
    let params = b.block_params(b.entry());
    assert_eq!(params.len(), 2);
    assert_eq!(b.current_block(), b.entry());
}

#[test]
fn test_bin_result_type_follows_operation() {
    let mut b = Builder::new("f", &[Type::Int, Type::Int], Type::Bool);
    let a = b.block_params(b.entry())[0];
    let c = b.block_params(b.entry())[1];
    let sum = b.bin(BinOp::Add, a, c);
    let cmp = b.bin(BinOp::Lt, a, c);
    let and = b.bin(BinOp::And, cmp, cmp);
    b.ret(Some(cmp));
    let func = b.finish();
    assert_eq!(func.value_type(sum), Some(Type::Int));
    assert_eq!(func.value_type(cmp), Some(Type::Bool));
    assert_eq!(func.value_type(and), Some(Type::Bool));
}

#[test]
fn test_un_result_type_follows_operation() {
    let mut b = Builder::new("f", &[Type::Int, Type::Bool], Type::Int);
    let x = b.block_params(b.entry())[0];
    let flag = b.block_params(b.entry())[1];
    let neg = b.un(UnOp::Neg, x);
    let not = b.un(UnOp::Not, flag);
    b.ret(Some(neg));
    let func = b.finish();
    assert_eq!(func.value_type(neg), Some(Type::Int));
    assert_eq!(func.value_type(not), Some(Type::Bool));
}

#[test]
fn test_handles_are_dense_from_zero() {
    let mut b = Builder::new("f", &[Type::Int], Type::Int);
    let p = b.block_params(b.entry())[0];
    let one = b.iconst(1);
    let two = b.iconst(2);
    assert_eq!(p.index(), 0);
    assert_eq!(one.index(), 1);
    assert_eq!(two.index(), 2);
}

#[test]
fn test_constants_record_their_types_and_instructions() {
    let mut b = Builder::new("f", &[], Type::Float);
    let i = b.iconst(-5);
    let t = b.bconst(true);
    let pi = b.fconst(3.14f64.to_bits());
    b.ret(Some(pi));
    let func = b.finish();
    assert_eq!(func.value_type(i), Some(Type::Int));
    assert_eq!(func.value_type(t), Some(Type::Bool));
    assert_eq!(func.value_type(pi), Some(Type::Float));
    assert_eq!(func.inst(i), Some(&Inst::Iconst(-5)));
    assert_eq!(func.inst(t), Some(&Inst::Bconst(true)));
    assert_eq!(func.inst(pi), Some(&Inst::Fconst(3.14f64.to_bits())));
    assert_eq!(func.validate(), Ok(()));
}

#[test]
fn test_create_block_numbers_blocks_and_params_in_order() {
    let mut b = Builder::new("f", &[Type::Int], Type::Unit);
    let first = b.create_block(&[Type::Int, Type::Bool]);
    let second = b.create_block(&[]);
    assert_eq!(first, Block::from_raw(1));
    assert_eq!(second, Block::from_raw(2));
    assert_eq!(b.block_params(first), &[Value::from_raw(1), Value::from_raw(2)]);
    assert!(b.block_params(second).is_empty());
    // The new block does not become current.
    assert_eq!(b.current_block(), b.entry());
    let next = b.iconst(0);
    assert_eq!(next, Value::from_raw(3));
}

#[test]
fn test_arithmetic_on_out_of_range_operand_records_unit() {
    let mut b = Builder::new("f", &[], Type::Unit);
    let bogus = Value::from_raw(40);
    let sum = b.bin(BinOp::Add, bogus, bogus);
    let neg = b.un(UnOp::Neg, bogus);
    b.ret(None);
    let func = b.finish();
    assert_eq!(func.value_type(sum), Some(Type::Unit));
    assert_eq!(func.value_type(neg), Some(Type::Unit));
}

#[test]
fn test_emission_into_missing_block_mints_an_unlisted_value() {
    let mut b = Builder::new("f", &[], Type::Unit);
    b.switch_to(Block::from_raw(9));
    let v = b.iconst(1);
    b.ret(None); // ignored: block 9 does not exist
    b.switch_to(b.entry());
    b.ret(None);
    let func = b.finish();
    assert_eq!(func.value_block(v), Some(Block::from_raw(9)));
    assert!(func.insts(func.entry()).is_empty());
    assert!(matches!(func.terminator(func.entry()), Some(Terminator::Return(None))));
    assert_eq!(func.validate(), Ok(()));
}

#[test]
fn test_terminator_set_twice_keeps_the_last() {
    let mut b = Builder::new("f", &[], Type::Unit);
    let exit = b.create_block(&[]);
    b.jump(exit, &[]);
    b.ret(None);
    b.switch_to(exit);
    b.ret(None);
    let func = b.finish();
    assert!(matches!(func.terminator(func.entry()), Some(Terminator::Return(None))));
}

#[test]
fn test_builder_lists_every_value_exactly_once() {
    let mut b = Builder::new("f", &[Type::Int, Type::Bool], Type::Int);
    let x = b.block_params(b.entry())[0];
    let flag = b.block_params(b.entry())[1];
    let join = b.create_block(&[Type::Int]);
    let then_blk = b.create_block(&[]);
    let else_blk = b.create_block(&[]);
    b.branch(flag, then_blk, &[], else_blk, &[]);
    b.switch_to(then_blk);
    let one = b.iconst(1);
    let sum = b.bin(BinOp::Add, x, one);
    b.jump(join, &[sum]);
    b.switch_to(else_blk);
    let neg = b.un(UnOp::Neg, x);
    b.jump(join, &[neg]);
    b.switch_to(join);
    let r = b.block_params(join)[0];
    b.ret(Some(r));
    let func = b.finish();

    let mut seen = vec![0usize; func.value_count()];
    for blk in func.blocks() {
        for v in func.block_params(blk).iter().chain(func.insts(blk).iter()) {
            seen[v.index()] += 1;
            assert_eq!(func.value_block(*v), Some(blk));
        }
    }
    assert!(seen.iter().all(|&n| n == 1));
    assert_eq!(func.validate(), Ok(()));
}

#[test]
fn test_builder_counts_the_values_it_mints() {
    let mut b = Builder::new("f", &[Type::Int], Type::Int);
    assert_eq!(b.value_count(), 1);
    let _ = b.iconst(3);
    let _ = b.create_block(&[Type::Bool, Type::Int]);
    assert_eq!(b.value_count(), 4);
}
