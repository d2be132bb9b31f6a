//! The text dump: stable, and pinned to the exact text so a format change shows up here.

use crisol::ir::{
    dump, number_constants, Block, BlockId, CompareOp, Constant, Function, FunctionId,
    Instruction, Op, PropertyKey, Safepoint, ShapeId, Terminator, Type, ValueId,
};

/// The dump, with every number printed as `{:?}` prints a double.
fn text(function: &Function) -> String {
    let numbers: Vec<(u64, String)> = number_constants(function)
        .into_iter()
        .map(|bits| (bits, format!("{:?}", f64::from_bits(bits))))
        .collect();
    dump(function, &numbers)
}

fn number(result: ValueId, value: f64) -> Instruction {
    Instruction {
        result: Some(result),
        ty: Type::Number,
        op: Op::Const(Constant::Number(value.to_bits())),
        safepoint: None,
    }
}

#[test]
fn a_function_dumps_the_way_it_is_expected_to() {
    let shape = ShapeId::from_index(2);

    let mut function = Function::new("example");
    let one = function.value();
    let two = function.value();
    let less = function.value();
    let object = function.value();
    let merged = function.value();

    let join = function.block(Block {
        params: vec![(merged, Type::Number)],
        instructions: Vec::new(),
        terminator: Terminator::Return(Some(merged)),
    });
    let allocating = function.block(Block {
        params: Vec::new(),
        instructions: vec![
            Instruction {
                result: Some(object),
                ty: Type::object(shape),
                op: Op::CreateObject { shape },
                safepoint: Some(Safepoint { live: vec![one, two] }),
            },
            Instruction {
                result: None,
                ty: Type::Undefined,
                op: Op::PropertyStore { object, key: PropertyKey::new("x"), value: one },
                safepoint: Some(Safepoint { live: vec![object] }),
            },
        ],
        terminator: Terminator::Jump { target: join, args: vec![one] },
    });

    let entry = function.get_mut(BlockId::entry()).expect("entry");
    entry.instructions = vec![
        number(one, 1.0),
        number(two, 2.0),
        Instruction {
            result: Some(less),
            ty: Type::Bool,
            op: Op::Compare { op: CompareOp::Less, left: one, right: two },
            safepoint: None,
        },
    ];
    entry.terminator = Terminator::Branch {
        condition: less,
        then_block: allocating,
        then_args: Vec::new(),
        else_block: join,
        else_args: vec![two],
    };

    let expected = "\
function example {
bb0:  ; entry
    v0: number = const 1.0
    v1: number = const 2.0
    v2: bool = lt v0, v1
    branch v2 -> bb2, bb1(v1)
bb1(v4: number):
    return v4
bb2:
    v3: object#2 = object #2  ; safepoint [v0, v1]
    set v3.\"x\" = v0  ; safepoint [v3]
    jump bb1(v0)
}
";
    let got = text(&function);
    assert_eq!(got, expected, "\n--- got ---\n{got}");
}

#[test]
fn the_dump_is_stable() {
    let mut function = Function::new("stable");
    let value = function.value();
    let entry = function.get_mut(BlockId::entry()).expect("entry");
    entry.instructions = vec![number(value, 1.5)];
    entry.terminator = Terminator::Return(Some(value));

    let once = text(&function);
    for _ in 0..20 {
        assert_eq!(text(&function), once);
    }
}

#[test]
fn a_whole_number_still_prints_as_a_double() {
    let mut function = Function::new("doubles");
    let value = function.value();
    let entry = function.get_mut(BlockId::entry()).expect("entry");
    entry.instructions = vec![number(value, 1.0)];
    entry.terminator = Terminator::Return(Some(value));
    let got = text(&function);
    assert!(got.contains("const 1.0"), "{got}");
}

#[test]
fn every_operation_prints() {
    let shape = ShapeId::from_index(2);
    let value = ValueId::from_index(0);
    let ops = vec![
        Op::Const(Constant::Undefined),
        Op::Const(Constant::Null),
        Op::Const(Constant::Bool(true)),
        Op::Const(Constant::String("hello".to_owned())),
        Op::Load { slot: 3 },
        Op::Store { slot: 3, value },
        Op::Call { callee: value, this_value: value, args: vec![value] },
        Op::PropertyLoad { object: value, key: PropertyKey::new("k") },
        Op::CreateObject { shape },
        Op::CreateArray { elements: vec![value] },
        Op::Closure { function: FunctionId(7), captures: vec![value] },
        Op::Await { value },
        Op::Compare { op: CompareOp::GreaterEqual, left: value, right: value },
    ];

    for op in ops {
        let mut function = Function::new("each");
        let result = function.value();
        let safepoint = if op.can_collect() { Some(Safepoint::default()) } else { None };
        let entry = function.get_mut(BlockId::entry()).expect("entry");
        entry.instructions = vec![Instruction { result: Some(result), ty: Type::Unknown, op, safepoint }];
        let got = text(&function);
        assert!(got.contains("v0"), "{got}");
    }
}

#[test]
fn operations_print_their_operands_in_order() {
    let value = ValueId::from_index(1);
    let other = ValueId::from_index(2);
    let cases = vec![
        (Op::Load { slot: 3 }, "load $3"),
        (Op::Store { slot: 3, value }, "store $3, v1"),
        (Op::Call { callee: value, this_value: other, args: Vec::new() }, "call v1(this=v2)"),
        (Op::Call { callee: value, this_value: other, args: vec![value, other] }, "call v1(this=v2, v1, v2)"),
        (Op::ComputedLoad { object: value, key: other }, "get v1[v2]"),
        (Op::Delete { object: value, key: other }, "delete v1[v2]"),
        (Op::ComputedStore { object: value, key: other, value }, "set v1[v2] = v1"),
        (Op::GlobalLoad { name: PropertyKey::new("Math") }, "global \"Math\""),
        (Op::Construct { callee: value, args: vec![other] }, "new v1(v2)"),
        (Op::Closure { function: FunctionId(12), captures: Vec::new() }, "closure @12 []"),
        (Op::CaughtValue, "caught"),
    ];
    for (op, expected) in cases {
        let mut function = Function::new("one");
        let entry = function.get_mut(BlockId::entry()).expect("entry");
        let safepoint = if op.can_collect() { Some(Safepoint::default()) } else { None };
        entry.instructions = vec![Instruction { result: None, ty: Type::Unknown, op, safepoint }];
        let got = text(&function);
        assert!(got.contains(&format!("    {expected}")), "{expected} in {got}");
    }
}

#[test]
fn parameters_and_captures_print_in_the_header() {
    let mut function = Function::new("header");
    function.parameters = vec![0, 1];
    function.captures = vec![4];
    let got = text(&function);
    assert_eq!(got, "function header($0, $1) captures [$4] {\nbb0:  ; entry\n    return\n}\n");
}

#[test]
fn the_number_table_lists_every_literal_in_order() {
    let mut function = Function::new("numbers");
    let a = function.value();
    let b = function.value();
    let entry = function.get_mut(BlockId::entry()).expect("entry");
    entry.instructions = vec![number(a, 2.5), number(b, -0.0)];
    assert_eq!(number_constants(&function), vec![2.5f64.to_bits(), (-0.0f64).to_bits()]);
}
