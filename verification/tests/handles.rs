//! Handles, types, operations and their textual forms.

use ir_lang::{BinOp, Block, Terminator, Type, UnOp, Value};

#[test]
fn test_value_display_and_index_agree() {
    let v = Value::from_raw(7);
    assert_eq!(v.to_string(), "v7");
    assert_eq!(v.index(), 7);
}

#[test]
fn test_block_display_and_index_agree() {
    let b = Block::from_raw(3);
    assert_eq!(b.to_string(), "b3");
    assert_eq!(b.index(), 3);
}

#[test]
fn test_handles_order_by_raw_index() {
    assert!(Value::from_raw(0) < Value::from_raw(1));
    assert!(Block::from_raw(2) > Block::from_raw(1));
}

#[test]
fn test_handle_text_of_large_and_zero_indices() {
    assert_eq!(Value::from_raw(0).to_string(), "v0");
    assert_eq!(Block::from_raw(10).to_string(), "b10");
    assert_eq!(Value::from_raw(u32::MAX).to_string(), "v4294967295");
    assert_eq!(Value::from_raw(u32::MAX).index(), 4294967295usize);
}

#[test]
fn test_type_is_numeric_classifies_each_variant() {
    assert!(Type::Int.is_numeric());
    assert!(Type::Float.is_numeric());
    assert!(!Type::Bool.is_numeric());
    assert!(!Type::Unit.is_numeric());
}

#[test]
fn test_type_display_matches_lowercase_name() {
    assert_eq!(Type::Int.to_string(), "int");
    assert_eq!(Type::Float.to_string(), "float");
    assert_eq!(Type::Bool.to_string(), "bool");
    assert_eq!(Type::Unit.to_string(), "unit");
}

#[test]
fn test_binop_classification_partitions_operations() {
    for op in [BinOp::Add, BinOp::Sub, BinOp::Mul, BinOp::Div] {
        assert!(!op.is_comparison() && !op.is_logical());
    }
    for op in [
        BinOp::Eq,
        BinOp::Ne,
        BinOp::Lt,
        BinOp::Le,
        BinOp::Gt,
        BinOp::Ge,
    ] {
        assert!(op.is_comparison() && !op.is_logical());
    }
    for op in [BinOp::And, BinOp::Or] {
        assert!(op.is_logical() && !op.is_comparison());
    }
}

#[test]
fn test_requires_numeric_covers_arithmetic_and_ordering_only() {
    for op in [
        BinOp::Add,
        BinOp::Sub,
        BinOp::Mul,
        BinOp::Div,
        BinOp::Lt,
        BinOp::Le,
        BinOp::Gt,
        BinOp::Ge,
    ] {
        assert!(op.requires_numeric());
    }
    for op in [BinOp::Eq, BinOp::Ne, BinOp::And, BinOp::Or] {
        assert!(!op.requires_numeric());
    }
}

#[test]
fn test_operation_mnemonics() {
    assert_eq!(BinOp::Add.to_string(), "add");
    assert_eq!(BinOp::Ge.to_string(), "ge");
    assert_eq!(BinOp::Or.to_string(), "or");
    assert_eq!(UnOp::Neg.to_string(), "neg");
    assert_eq!(UnOp::Not.to_string(), "not");
}

#[test]
fn test_each_successor_reports_targets_in_order() {
    let mut got = Vec::new();
    Terminator::Return(None).each_successor(|b| got.push(b));
    assert!(got.is_empty());

    let mut got = Vec::new();
    Terminator::Jump(Block::from_raw(2), vec![]).each_successor(|b| got.push(b));
    assert_eq!(got, vec![Block::from_raw(2)]);

    let mut got = Vec::new();
    Terminator::Branch {
        cond: Value::from_raw(0),
        then_block: Block::from_raw(1),
        then_args: vec![],
        else_block: Block::from_raw(2),
        else_args: vec![],
    }
    .each_successor(|b| got.push(b));
    assert_eq!(got, vec![Block::from_raw(1), Block::from_raw(2)]);
}

#[test]
fn test_successors_vector_matches_each_successor() {
    let t = Terminator::Branch {
        cond: Value::from_raw(0),
        then_block: Block::from_raw(4),
        then_args: vec![Value::from_raw(1)],
        else_block: Block::from_raw(3),
        else_args: vec![],
    };
    assert_eq!(t.successors(), vec![Block::from_raw(4), Block::from_raw(3)]);
    assert!(Terminator::Return(Some(Value::from_raw(0))).successors().is_empty());
}
