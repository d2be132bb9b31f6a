//! How the backend carries out each instruction, decided from what it has proved.

use crisol::codegen::CodegenError;
use crisol::ir::{
    BinaryOp, BlockId, CompareOp, Constant, Function, Instruction, Op, Terminator, Type, UnaryOp,
    ValueId,
};
use crisol::selection::{plan_function, Runtime, Selection};

/// A function whose entry block runs `instructions` and then ends with `terminator`.
fn function_of(instructions: Vec<Instruction>, terminator: Terminator) -> Function {
    let mut function = Function::new("f");
    function.values = 16;
    let entry = function.get_mut(BlockId::entry()).expect("entry");
    entry.instructions = instructions;
    entry.terminator = terminator;
    function
}

fn number(result: u32, value: f64) -> Instruction {
    Instruction {
        result: Some(ValueId::from_index(result)),
        ty: Type::Number,
        op: Op::Const(Constant::Number(value.to_bits())),
        safepoint: None,
    }
}

fn load(result: u32, slot: u32) -> Instruction {
    Instruction {
        result: Some(ValueId::from_index(result)),
        ty: Type::Unknown,
        op: Op::Load { slot },
        safepoint: None,
    }
}

fn binary(result: u32, op: BinaryOp, left: u32, right: u32, ty: Type) -> Instruction {
    Instruction {
        result: Some(ValueId::from_index(result)),
        ty,
        op: Op::Binary { op, left: ValueId::from_index(left), right: ValueId::from_index(right) },
        safepoint: None,
    }
}

fn compare(result: u32, op: CompareOp, left: u32, right: u32) -> Instruction {
    Instruction {
        result: Some(ValueId::from_index(result)),
        ty: Type::Bool,
        op: Op::Compare { op, left: ValueId::from_index(left), right: ValueId::from_index(right) },
        safepoint: None,
    }
}

#[test]
fn the_always_numeric_operators_become_float_instructions() {
    let function = function_of(
        vec![number(0, 6.0), number(1, 2.0), binary(2, BinaryOp::Divide, 0, 1, Type::Number)],
        Terminator::Return(Some(ValueId::from_index(2))),
    );
    assert_eq!(
        plan_function(&function),
        Ok(vec![Selection::Word, Selection::Word, Selection::Float(BinaryOp::Divide), Selection::Return])
    );
}

#[test]
fn addition_becomes_a_runtime_call() {
    let function = function_of(
        vec![number(0, 1.0), number(1, 2.0), binary(2, BinaryOp::Add, 0, 1, Type::Unknown)],
        Terminator::Return(None),
    );
    let plan = plan_function(&function).expect("plans");
    assert_eq!(plan[2], Selection::Call(Runtime::Binary(BinaryOp::Add)));
}

#[test]
fn strict_equality_on_numbers_is_a_float_comparison() {
    let function = function_of(
        vec![number(0, 1.0), number(1, 1.0), compare(2, CompareOp::StrictEqual, 0, 1)],
        Terminator::Return(Some(ValueId::from_index(2))),
    );
    let plan = plan_function(&function).expect("plans");
    assert_eq!(plan[2], Selection::FloatCompare(CompareOp::StrictEqual));
}

#[test]
fn strict_equality_on_unknown_values_is_still_refused() {
    // On boxed values of unknown type a bit comparison gets NaN and the signed zeroes wrong.
    // Nothing is proved about these operands, so the backend refuses.
    let mut function = Function::new("eq_unknown");
    let left = function.value();
    let right = function.value();
    let result = function.value();
    let entry = function.get_mut(BlockId::entry()).expect("entry");
    entry.instructions = vec![
        Instruction { result: Some(left), ty: Type::Unknown, op: Op::Load { slot: 0 }, safepoint: None },
        Instruction { result: Some(right), ty: Type::Unknown, op: Op::Load { slot: 1 }, safepoint: None },
        Instruction {
            result: Some(result),
            ty: Type::Bool,
            op: Op::Compare { op: CompareOp::StrictEqual, left, right },
            safepoint: None,
        },
    ];
    entry.terminator = Terminator::Return(Some(result));

    assert!(matches!(
        plan_function(&function).expect_err("refused"),
        CodegenError::Unsupported { .. }
    ));
}

#[test]
fn strict_inequality_with_one_unproven_operand_is_refused() {
    let function = function_of(
        vec![number(0, 1.0), load(1, 0), compare(2, CompareOp::StrictNotEqual, 0, 1)],
        Terminator::Return(None),
    );
    assert_eq!(
        plan_function(&function),
        Err(CodegenError::Unsupported {
            operation: "strict equality on values not proven to be numbers".to_owned()
        })
    );
}

#[test]
fn a_branch_tests_a_proven_boolean_directly() {
    let mut function = function_of(
        vec![number(0, 1.0), number(1, 2.0), compare(2, CompareOp::Less, 0, 1)],
        Terminator::Return(None),
    );
    let exit = function.block(crisol::ir::Block {
        params: Vec::new(),
        instructions: Vec::new(),
        terminator: Terminator::Return(None),
    });
    function.get_mut(BlockId::entry()).expect("entry").terminator = Terminator::Branch {
        condition: ValueId::from_index(2),
        then_block: exit,
        then_args: Vec::new(),
        else_block: exit,
        else_args: Vec::new(),
    };
    let plan = plan_function(&function).expect("plans");
    assert_eq!(plan[3], Selection::Branch { truthy: false });

    function.get_mut(BlockId::entry()).expect("entry").terminator = Terminator::Branch {
        condition: ValueId::from_index(0),
        then_block: exit,
        then_args: Vec::new(),
        else_block: exit,
        else_args: Vec::new(),
    };
    let plan = plan_function(&function).expect("plans");
    assert_eq!(plan[3], Selection::Branch { truthy: true });
}

#[test]
fn negation_of_an_unproven_value_is_a_call() {
    let function = function_of(
        vec![
            load(0, 0),
            Instruction {
                result: Some(ValueId::from_index(1)),
                ty: Type::Number,
                op: Op::Unary { op: UnaryOp::Negate, operand: ValueId::from_index(0) },
                safepoint: None,
            },
            Instruction {
                result: Some(ValueId::from_index(2)),
                ty: Type::Number,
                op: Op::Unary { op: UnaryOp::Negate, operand: ValueId::from_index(1) },
                safepoint: None,
            },
        ],
        Terminator::Return(None),
    );
    let plan = plan_function(&function).expect("plans");
    assert_eq!(plan[1], Selection::Call(Runtime::Unary(UnaryOp::Negate)));
    assert_eq!(plan[2], Selection::NegateNumber);
}

#[test]
fn a_throw_terminator_is_refused() {
    let function = function_of(vec![number(0, 1.0)], Terminator::Throw(ValueId::from_index(0)));
    assert_eq!(
        plan_function(&function),
        Err(CodegenError::Unsupported { operation: "throw".to_owned() })
    );
}

#[test]
fn an_operation_without_a_lowering_is_refused_by_name() {
    let function = function_of(
        vec![
            number(0, 1.0),
            Instruction {
                result: Some(ValueId::from_index(1)),
                ty: Type::Unknown,
                op: Op::Await { value: ValueId::from_index(0) },
                safepoint: None,
            },
            Instruction {
                result: Some(ValueId::from_index(2)),
                ty: Type::Number,
                op: Op::Unary { op: UnaryOp::BitNot, operand: ValueId::from_index(0) },
                safepoint: None,
            },
        ],
        Terminator::Return(None),
    );
    assert_eq!(
        plan_function(&function),
        Err(CodegenError::Unsupported { operation: "Await".to_owned() })
    );
    let function = function_of(
        vec![Instruction {
            result: Some(ValueId::from_index(2)),
            ty: Type::Number,
            op: Op::Unary { op: UnaryOp::BitNot, operand: ValueId::from_index(0) },
            safepoint: None,
        }],
        Terminator::Return(None),
    );
    assert_eq!(
        plan_function(&function),
        Err(CodegenError::Unsupported { operation: "unary operator ~".to_owned() })
    );
}
