//! What the backend takes from a function before it emits anything.

use crisol::codegen::{helper_symbol, helper_symbols, keys_of, symbol_name, CodegenError, Report};
use crisol::ir::{BinaryOp, BlockId, Constant, Function, FunctionId, Instruction, Op, PropertyKey, Safepoint, Type};

#[test]
fn function_zero_keeps_its_name() {
    let function = Function::new("main");
    assert_eq!(symbol_name(&function), "main");
}

#[test]
fn other_functions_are_numbered_and_keep_a_readable_suffix() {
    let mut function = Function::new("my fn!");
    function.id = FunctionId(7);
    assert_eq!(symbol_name(&function), "crisol_fn7_my_fn_");
    function.id = FunctionId(1234);
    function.name = " tmp0".to_owned();
    assert_eq!(symbol_name(&function), "crisol_fn1234__tmp0");
}

#[test]
fn every_helper_operator_has_a_symbol() {
    let symbols = helper_symbols();
    assert_eq!(symbols.len(), 13);
    assert_eq!(symbols[0], "crisol_add");
    assert!(symbols.contains(&"crisol_in"));
    assert_eq!(helper_symbol(BinaryOp::UnsignedShiftRight), Some("crisol_unsigned_shift_right"));
    assert_eq!(helper_symbol(BinaryOp::Subtract), None);
}

#[test]
fn keys_are_interned_once_in_the_order_first_seen() {
    let mut function = Function::new("keys");
    let object = function.value();
    let text = function.value();
    let pattern = function.value();
    let read = function.value();
    let entry = function.get_mut(BlockId::entry()).expect("entry");
    entry.instructions = vec![
        Instruction {
            result: Some(object),
            ty: Type::Unknown,
            op: Op::GlobalLoad { name: PropertyKey::new("length") },
            safepoint: None,
        },
        Instruction {
            result: Some(text),
            ty: Type::String,
            op: Op::Const(Constant::String("g".to_owned())),
            safepoint: None,
        },
        Instruction {
            result: Some(pattern),
            ty: Type::Unknown,
            op: Op::CreateRegExp { source: "a+".to_owned(), flags: "g".to_owned() },
            safepoint: Some(Safepoint::default()),
        },
        Instruction {
            result: Some(read),
            ty: Type::Unknown,
            op: Op::PropertyLoad { object, key: PropertyKey::new("length") },
            safepoint: Some(Safepoint::default()),
        },
    ];
    assert_eq!(keys_of(&function), vec!["length", "g", "a+"]);
}

#[test]
fn an_empty_report_has_nothing_in_it() {
    let report = Report::empty();
    assert!(report.safepoints.is_empty());
    assert_eq!(report.stack_map_entries, 0);
}

#[test]
fn a_refusal_says_what_was_refused() {
    assert_eq!(
        CodegenError::Unsupported { operation: "await".to_owned() }.message(),
        "cannot compile await yet"
    );
    assert_eq!(
        CodegenError::UnknownTarget { triple: "z80-unknown-none".to_owned() }.message(),
        "no backend for target z80-unknown-none"
    );
    assert_eq!(CodegenError::Backend { message: "bad".to_owned() }.message(), "backend error: bad");
}
