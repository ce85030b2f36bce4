//! What validation accepts and what it reports.

use ir_lang::{
    BinOp, Block, BlockData, Builder, Function, Inst, Terminator, Type, UnOp, ValidationError,
    Value, ValueData, ValueDef,
};

#[test]
fn test_valid_straight_line_function_passes() {
    let mut b = Builder::new("add", &[Type::Int, Type::Int], Type::Int);
    let x = b.block_params(b.entry())[0];
    let y = b.block_params(b.entry())[1];
    let sum = b.bin(BinOp::Add, x, y);
    b.ret(Some(sum));
    assert_eq!(b.finish().validate(), Ok(()));
}

#[test]
fn test_valid_diamond_with_block_params_passes() {
    let mut b = Builder::new("max", &[Type::Int, Type::Int], Type::Int);
    let a = b.block_params(b.entry())[0];
    let c = b.block_params(b.entry())[1];
    let join = b.create_block(&[Type::Int]);
    let then_blk = b.create_block(&[]);
    let else_blk = b.create_block(&[]);
    let cond = b.bin(BinOp::Lt, a, c);
    b.branch(cond, then_blk, &[], else_blk, &[]);
    b.switch_to(then_blk);
    b.jump(join, &[c]);
    b.switch_to(else_blk);
    b.jump(join, &[a]);
    b.switch_to(join);
    let r = b.block_params(join)[0];
    b.ret(Some(r));
    assert_eq!(b.finish().validate(), Ok(()));
}

#[test]
fn test_valid_loop_passes() {
    let mut b = Builder::new("loop", &[Type::Int], Type::Unit);
    let start = b.block_params(b.entry())[0];
    let header = b.create_block(&[Type::Int]);
    let body = b.create_block(&[]);
    let exit = b.create_block(&[]);
    b.jump(header, &[start]);
    b.switch_to(header);
    let i = b.block_params(header)[0];
    let zero = b.iconst(0);
    let more = b.bin(BinOp::Gt, i, zero);
    b.branch(more, body, &[], exit, &[]);
    b.switch_to(body);
    let one = b.iconst(1);
    let next = b.bin(BinOp::Sub, i, one);
    b.jump(header, &[next]);
    b.switch_to(exit);
    b.ret(None);
    assert_eq!(b.finish().validate(), Ok(()));
}

#[test]
fn test_missing_terminator_is_rejected() {
    let b = Builder::new("f", &[], Type::Unit);
    let func = b.finish();
    assert_eq!(
        func.validate(),
        Err(ValidationError::MissingTerminator {
            block: func.entry()
        })
    );
}

#[test]
fn test_arg_count_mismatch_is_rejected() {
    let mut b = Builder::new("f", &[], Type::Int);
    let exit = b.create_block(&[Type::Int]);
    let n = b.iconst(1);
    b.jump(exit, &[]);
    b.switch_to(exit);
    let r = b.block_params(exit)[0];
    b.ret(Some(r));
    let _ = n;
    assert_eq!(
        b.finish().validate(),
        Err(ValidationError::ArgCountMismatch {
            block: exit,
            expected: 1,
            found: 0,
        })
    );
}

#[test]
fn test_operand_type_mismatch_is_rejected() {
    let mut b = Builder::new("f", &[Type::Int, Type::Bool], Type::Int);
    let x = b.block_params(b.entry())[0];
    let flag = b.block_params(b.entry())[1];
    let bad = b.bin(BinOp::Add, x, flag);
    b.ret(Some(bad));
    assert_eq!(
        b.finish().validate(),
        Err(ValidationError::TypeMismatch {
            value: flag,
            expected: Type::Int,
            found: Type::Bool,
        })
    );
}

#[test]
fn test_non_numeric_arithmetic_is_rejected() {
    let mut b = Builder::new("f", &[Type::Bool, Type::Bool], Type::Bool);
    let p = b.block_params(b.entry())[0];
    let q = b.block_params(b.entry())[1];
    let bad = b.bin(BinOp::Mul, p, q);
    b.ret(Some(bad));
    assert_eq!(
        b.finish().validate(),
        Err(ValidationError::NotNumeric {
            value: p,
            found: Type::Bool,
        })
    );
}

#[test]
fn test_non_bool_condition_is_rejected() {
    let mut b = Builder::new("f", &[Type::Int], Type::Unit);
    let x = b.block_params(b.entry())[0];
    let yes = b.create_block(&[]);
    let no = b.create_block(&[]);
    b.branch(x, yes, &[], no, &[]);
    b.switch_to(yes);
    b.ret(None);
    b.switch_to(no);
    b.ret(None);
    assert_eq!(
        b.finish().validate(),
        Err(ValidationError::TypeMismatch {
            value: x,
            expected: Type::Bool,
            found: Type::Int,
        })
    );
}

#[test]
fn test_return_type_mismatch_is_rejected() {
    let mut b = Builder::new("f", &[Type::Bool], Type::Int);
    let flag = b.block_params(b.entry())[0];
    b.ret(Some(flag));
    assert_eq!(
        b.finish().validate(),
        Err(ValidationError::TypeMismatch {
            value: flag,
            expected: Type::Int,
            found: Type::Bool,
        })
    );
}

#[test]
fn test_return_without_value_in_non_unit_function_is_rejected() {
    let mut b = Builder::new("f", &[], Type::Int);
    b.ret(None);
    assert_eq!(
        b.finish().validate(),
        Err(ValidationError::ReturnValueExpected {
            expected: Type::Int
        })
    );
}

#[test]
fn test_branch_to_entry_is_rejected() {
    let mut b = Builder::new("f", &[], Type::Unit);
    let entry = b.entry();
    b.jump(entry, &[]);
    assert_eq!(
        b.finish().validate(),
        Err(ValidationError::EntryBranchTarget { block: entry })
    );
}

#[test]
fn test_use_before_def_across_blocks_is_rejected() {
    let mut b = Builder::new("f", &[], Type::Int);
    let entry = b.entry();
    let other = b.create_block(&[]);
    b.switch_to(other);
    let v = b.iconst(7);
    b.ret(Some(v));
    b.switch_to(entry);
    b.ret(Some(v));
    assert_eq!(
        b.finish().validate(),
        Err(ValidationError::UseBeforeDef {
            value: v,
            block: entry
        })
    );
}

#[test]
fn test_value_defined_in_sibling_branch_is_rejected() {
    let mut b = Builder::new("f", &[Type::Bool], Type::Int);
    let cond = b.block_params(b.entry())[0];
    let then_blk = b.create_block(&[]);
    let else_blk = b.create_block(&[]);
    let join = b.create_block(&[Type::Int]);
    b.branch(cond, then_blk, &[], else_blk, &[]);

    b.switch_to(then_blk);
    let secret = b.iconst(7);
    b.jump(join, &[secret]);

    b.switch_to(else_blk);
    b.jump(join, &[secret]);

    b.switch_to(join);
    let r = b.block_params(join)[0];
    b.ret(Some(r));

    assert_eq!(
        b.finish().validate(),
        Err(ValidationError::UseBeforeDef {
            value: secret,
            block: else_blk,
        })
    );
}

#[test]
fn test_value_from_dominating_block_is_visible_deep_below() {
    let mut b = Builder::new("f", &[Type::Int], Type::Int);
    let base = b.iconst(100);
    let outer_then = b.create_block(&[]);
    let outer_else = b.create_block(&[]);
    let inner_then = b.create_block(&[]);
    let inner_else = b.create_block(&[]);
    let join = b.create_block(&[Type::Int]);

    let p = b.block_params(b.entry())[0];
    let zero = b.iconst(0);
    let c0 = b.bin(BinOp::Gt, p, zero);
    b.branch(c0, outer_then, &[], outer_else, &[]);

    b.switch_to(outer_then);
    let c1 = b.bin(BinOp::Lt, p, base);
    b.branch(c1, inner_then, &[], inner_else, &[]);

    b.switch_to(inner_then);
    b.jump(join, &[base]);
    b.switch_to(inner_else);
    b.jump(join, &[base]);

    b.switch_to(outer_else);
    b.jump(join, &[base]);

    b.switch_to(join);
    let r = b.block_params(join)[0];
    b.ret(Some(r));

    assert_eq!(b.finish().validate(), Ok(()));
}

#[test]
fn test_out_of_range_value_is_rejected() {
    let entry = Block::from_raw(0);
    let blocks = vec![BlockData {
        params: vec![],
        insts: vec![],
        term: Some(Terminator::Return(Some(Value::from_raw(5)))),
    }];
    let func = Function::from_parts("f".to_string(), vec![], Type::Int, entry, blocks, vec![]);
    assert_eq!(
        func.validate(),
        Err(ValidationError::ValueOutOfRange {
            value: Value::from_raw(5)
        })
    );
}

#[test]
fn test_empty_function_is_rejected_without_panicking() {
    let func = Function::from_parts(
        "empty".to_string(),
        vec![],
        Type::Unit,
        Block::from_raw(0),
        vec![],
        vec![],
    );
    assert_eq!(
        func.validate(),
        Err(ValidationError::BlockOutOfRange {
            block: Block::from_raw(0)
        })
    );
}

#[test]
fn test_out_of_range_entry_is_rejected_without_panicking() {
    let blocks = vec![BlockData {
        params: vec![],
        insts: vec![],
        term: Some(Terminator::Return(None)),
    }];
    let func = Function::from_parts(
        "f".to_string(),
        vec![],
        Type::Unit,
        Block::from_raw(7),
        blocks,
        vec![],
    );
    assert_eq!(
        func.validate(),
        Err(ValidationError::BlockOutOfRange {
            block: Block::from_raw(7)
        })
    );
}

#[test]
fn test_out_of_range_block_is_rejected() {
    let entry = Block::from_raw(0);
    let blocks = vec![BlockData {
        params: vec![],
        insts: vec![],
        term: Some(Terminator::Jump(Block::from_raw(9), vec![])),
    }];
    let func = Function::from_parts("f".to_string(), vec![], Type::Unit, entry, blocks, vec![]);
    assert_eq!(
        func.validate(),
        Err(ValidationError::BlockOutOfRange {
            block: Block::from_raw(9)
        })
    );
}

#[test]
fn test_wrong_result_type_is_rejected() {
    let entry = Block::from_raw(0);
    let values = vec![ValueData {
        ty: Type::Bool,
        def: ValueDef::Inst(entry, Inst::Iconst(1)),
    }];
    let blocks = vec![BlockData {
        params: vec![],
        insts: vec![Value::from_raw(0)],
        term: Some(Terminator::Return(Some(Value::from_raw(0)))),
    }];
    let func = Function::from_parts("f".to_string(), vec![], Type::Bool, entry, blocks, values);
    assert_eq!(
        func.validate(),
        Err(ValidationError::TypeMismatch {
            value: Value::from_raw(0),
            expected: Type::Int,
            found: Type::Bool,
        })
    );
}

#[test]
fn test_value_listed_as_param_but_defined_as_inst_is_rejected() {
    let entry = Block::from_raw(0);
    let values = vec![ValueData {
        ty: Type::Int,
        def: ValueDef::Inst(entry, Inst::Iconst(0)),
    }];
    let blocks = vec![BlockData {
        params: vec![Value::from_raw(0)],
        insts: vec![],
        term: Some(Terminator::Return(None)),
    }];
    let func = Function::from_parts("f".to_string(), vec![], Type::Unit, entry, blocks, values);
    assert_eq!(
        func.validate(),
        Err(ValidationError::InconsistentDefinition {
            value: Value::from_raw(0)
        })
    );
}

#[test]
fn test_out_of_range_block_param_handle_is_rejected() {
    let entry = Block::from_raw(0);
    let blocks = vec![BlockData {
        params: vec![Value::from_raw(9)],
        insts: vec![],
        term: Some(Terminator::Return(None)),
    }];
    let func = Function::from_parts("f".to_string(), vec![], Type::Unit, entry, blocks, vec![]);
    assert_eq!(
        func.validate(),
        Err(ValidationError::ValueOutOfRange {
            value: Value::from_raw(9)
        })
    );
}

#[test]
fn test_not_operator_requires_bool() {
    let mut b = Builder::new("f", &[Type::Int], Type::Int);
    let x = b.block_params(b.entry())[0];
    let bad = b.un(UnOp::Not, x);
    b.ret(Some(bad));
    assert!(matches!(
        b.finish().validate(),
        Err(ValidationError::TypeMismatch { .. })
    ));
}

#[test]
fn test_error_display_is_human_readable() {
    let e = ValidationError::MissingTerminator {
        block: Block::from_raw(2),
    };
    assert_eq!(e.to_string(), "block b2 has no terminator");
}

#[test]
fn test_every_error_message() {
    let v = Value::from_raw(4);
    let b = Block::from_raw(1);
    let cases = [
        (
            ValidationError::BlockOutOfRange { block: b },
            "terminator targets nonexistent block b1",
        ),
        (
            ValidationError::ValueOutOfRange { value: v },
            "reference to nonexistent value v4",
        ),
        (
            ValidationError::EntryBranchTarget { block: b },
            "block b1 branches to the entry block",
        ),
        (
            ValidationError::ArgCountMismatch {
                block: b,
                expected: 2,
                found: 13,
            },
            "branch to block b1 passes 13 argument(s) but it has 2 parameter(s)",
        ),
        (
            ValidationError::TypeMismatch {
                value: v,
                expected: Type::Int,
                found: Type::Float,
            },
            "value v4 has type float but int was required",
        ),
        (
            ValidationError::NotNumeric {
                value: v,
                found: Type::Unit,
            },
            "value v4 has type unit but a numeric type was required",
        ),
        (
            ValidationError::ReturnValueExpected {
                expected: Type::Bool,
            },
            "return with no value in a function returning bool",
        ),
        (
            ValidationError::UseBeforeDef { value: v, block: b },
            "value v4 is used in block b1 before it is defined",
        ),
        (
            ValidationError::InconsistentDefinition { value: v },
            "value v4 is listed in a block that disagrees with its recorded definition",
        ),
    ];
    for (e, msg) in cases {
        assert_eq!(e.to_string(), msg);
    }
}

#[test]
fn test_logical_operation_requires_bool_operands() {
    let mut b = Builder::new("f", &[Type::Int, Type::Int], Type::Bool);
    let x = b.block_params(b.entry())[0];
    let y = b.block_params(b.entry())[1];
    let bad = b.bin(BinOp::And, x, y);
    b.ret(Some(bad));
    assert_eq!(
        b.finish().validate(),
        Err(ValidationError::TypeMismatch {
            value: x,
            expected: Type::Bool,
            found: Type::Int,
        })
    );
}

#[test]
fn test_equality_accepts_booleans_but_ordering_does_not() {
    let mut b = Builder::new("f", &[Type::Bool, Type::Bool], Type::Bool);
    let p = b.block_params(b.entry())[0];
    let q = b.block_params(b.entry())[1];
    let eq = b.bin(BinOp::Eq, p, q);
    b.ret(Some(eq));
    assert_eq!(b.finish().validate(), Ok(()));

    let mut b = Builder::new("f", &[Type::Bool, Type::Bool], Type::Bool);
    let p = b.block_params(b.entry())[0];
    let q = b.block_params(b.entry())[1];
    let lt = b.bin(BinOp::Lt, p, q);
    b.ret(Some(lt));
    assert_eq!(
        b.finish().validate(),
        Err(ValidationError::NotNumeric {
            value: p,
            found: Type::Bool,
        })
    );
}

#[test]
fn test_negation_requires_numeric() {
    let mut b = Builder::new("f", &[Type::Bool], Type::Bool);
    let p = b.block_params(b.entry())[0];
    let bad = b.un(UnOp::Neg, p);
    b.ret(Some(bad));
    assert_eq!(
        b.finish().validate(),
        Err(ValidationError::NotNumeric {
            value: p,
            found: Type::Bool,
        })
    );
}

#[test]
fn test_argument_type_mismatch_is_rejected() {
    let mut b = Builder::new("f", &[Type::Bool], Type::Int);
    let flag = b.block_params(b.entry())[0];
    let exit = b.create_block(&[Type::Int]);
    b.jump(exit, &[flag]);
    b.switch_to(exit);
    let r = b.block_params(exit)[0];
    b.ret(Some(r));
    assert_eq!(
        b.finish().validate(),
        Err(ValidationError::TypeMismatch {
            value: flag,
            expected: Type::Int,
            found: Type::Bool,
        })
    );
}

#[test]
fn test_use_earlier_in_same_block_than_definition_is_rejected() {
    // An instruction reads a value defined by a later instruction of the block.
    let entry = Block::from_raw(0);
    let values = vec![
        ValueData {
            ty: Type::Int,
            def: ValueDef::Inst(entry, Inst::Un(UnOp::Neg, Value::from_raw(1))),
        },
        ValueData {
            ty: Type::Int,
            def: ValueDef::Inst(entry, Inst::Iconst(3)),
        },
    ];
    let blocks = vec![BlockData {
        params: vec![],
        insts: vec![Value::from_raw(0), Value::from_raw(1)],
        term: Some(Terminator::Return(Some(Value::from_raw(0)))),
    }];
    let func = Function::from_parts("f".to_string(), vec![], Type::Int, entry, blocks, values);
    assert_eq!(
        func.validate(),
        Err(ValidationError::UseBeforeDef {
            value: Value::from_raw(1),
            block: entry,
        })
    );
}

#[test]
fn test_unreachable_block_uses_are_not_checked() {
    let mut b = Builder::new("f", &[], Type::Int);
    let dead = b.create_block(&[]);
    let seven = b.iconst(7);
    b.ret(Some(seven));
    b.switch_to(dead);
    b.ret(Some(seven)); // not dominated, but never executes
    assert_eq!(b.finish().validate(), Ok(()));
}

#[test]
fn test_value_in_table_but_unlisted_is_not_available() {
    // The value table records v0 as an instruction of the entry, but the entry
    // does not list it, so a use of it is never reached by its definition.
    let entry = Block::from_raw(0);
    let values = vec![ValueData {
        ty: Type::Int,
        def: ValueDef::Inst(entry, Inst::Iconst(3)),
    }];
    let blocks = vec![BlockData {
        params: vec![],
        insts: vec![],
        term: Some(Terminator::Return(Some(Value::from_raw(0)))),
    }];
    let func = Function::from_parts("f".to_string(), vec![], Type::Int, entry, blocks, values);
    assert_eq!(
        func.validate(),
        Err(ValidationError::UseBeforeDef {
            value: Value::from_raw(0),
            block: entry,
        })
    );
}

#[test]
fn test_first_block_error_wins_over_later_blocks() {
    // Block 1 lacks a terminator and block 2 has a type error; block 1 is
    // reported first.
    let mut b = Builder::new("f", &[], Type::Unit);
    let one = b.create_block(&[]);
    let two = b.create_block(&[]);
    b.jump(one, &[]);
    b.switch_to(two);
    let t = b.bconst(true);
    let _ = b.un(UnOp::Neg, t);
    b.ret(None);
    assert_eq!(
        b.finish().validate(),
        Err(ValidationError::MissingTerminator { block: one })
    );
}

#[test]
fn test_sibling_violations_report_the_higher_numbered_sibling_first() {
    // Each branch returns a value defined only in the other. The dominator
    // tree is walked in preorder with the highest-numbered child first, so
    // the else block's use is the one reported.
    let mut b = Builder::new("f", &[Type::Bool], Type::Int);
    let cond = b.block_params(b.entry())[0];
    let then_blk = b.create_block(&[]);
    let else_blk = b.create_block(&[]);
    b.branch(cond, then_blk, &[], else_blk, &[]);

    b.switch_to(else_blk);
    let y = b.iconst(2);
    b.switch_to(then_blk);
    let x = b.iconst(1);
    b.ret(Some(y));
    b.switch_to(else_blk);
    b.ret(Some(x));

    assert_eq!(
        b.finish().validate(),
        Err(ValidationError::UseBeforeDef {
            value: x,
            block: else_blk,
        })
    );
}

#[test]
fn test_violations_are_reported_in_dominator_tree_preorder() {
    // entry branches to b1 and b2; b2 jumps to b3, which b2 dominates. Both
    // b1 and b3 use a value they cannot see. The subtree under b2 is walked
    // before b1, so b3's use is reported although b1 has the lower number.
    let mut b = Builder::new("g", &[Type::Bool], Type::Int);
    let cond = b.block_params(b.entry())[0];
    let b1 = b.create_block(&[]);
    let b2 = b.create_block(&[]);
    let b3 = b.create_block(&[]);
    b.branch(cond, b1, &[], b2, &[]);

    b.switch_to(b3);
    let z = b.iconst(3);
    b.switch_to(b1);
    let x = b.iconst(1);
    b.ret(Some(z));
    b.switch_to(b3);
    b.ret(Some(x));
    b.switch_to(b2);
    b.jump(b3, &[]);

    assert_eq!(
        b.finish().validate(),
        Err(ValidationError::UseBeforeDef { value: x, block: b3 })
    );
}

#[test]
fn test_value_listed_twice_in_its_own_block_is_rejected() {
    // Every value is defined exactly once: a block that lists its own
    // instruction result twice is malformed.
    let entry = Block::from_raw(0);
    let v0 = Value::from_raw(0);
    let values = vec![ValueData {
        ty: Type::Int,
        def: ValueDef::Inst(entry, Inst::Iconst(1)),
    }];
    let blocks = vec![BlockData {
        params: vec![],
        insts: vec![v0, v0],
        term: Some(Terminator::Return(Some(v0))),
    }];
    let func = Function::from_parts("twice".to_string(), vec![], Type::Int, entry, blocks, values);
    assert_eq!(
        func.validate(),
        Err(ValidationError::InconsistentDefinition { value: v0 })
    );
}

#[test]
fn test_block_parameter_listed_twice_is_rejected() {
    let entry = Block::from_raw(0);
    let p0 = Value::from_raw(0);
    let values = vec![ValueData {
        ty: Type::Int,
        def: ValueDef::Param(entry),
    }];
    let blocks = vec![BlockData {
        params: vec![p0, p0],
        insts: vec![],
        term: Some(Terminator::Return(Some(p0))),
    }];
    let func = Function::from_parts("twice".to_string(), vec![Type::Int], Type::Int, entry, blocks, values);
    assert_eq!(
        func.validate(),
        Err(ValidationError::InconsistentDefinition { value: p0 })
    );
}

#[test]
fn test_terminator_uses_are_checked_against_the_marks_in_order() {
    let b0 = Block::from_raw(0);
    let t = Terminator::Branch {
        cond: Value::from_raw(0),
        then_block: Block::from_raw(1),
        then_args: vec![Value::from_raw(2)],
        else_block: Block::from_raw(2),
        else_args: vec![Value::from_raw(1), Value::from_raw(5)],
    };
    let marks = vec![true, false, true];
    assert_eq!(
        ir_lang::dominance::term_uses(&t, &marks, b0),
        Some(ValidationError::UseBeforeDef {
            value: Value::from_raw(1),
            block: b0
        })
    );
    let all = vec![true, true, true, true, true, true];
    assert_eq!(ir_lang::dominance::term_uses(&t, &all, b0), None);
    assert_eq!(
        ir_lang::dominance::term_uses(&Terminator::Return(None), &vec![], b0),
        None
    );
}
