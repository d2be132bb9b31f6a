//! The text dump.
//!
//! Stable and reviewable. Reviewable means a diff of two dumps shows what a pass did, so every
//! line carries its own context: a value's type is printed at its definition, a safepoint's
//! live set inline. Stable means the text depends on the function alone: everything printed
//! comes from a `Vec`, and [`dump_of`] is a function of the function.
//!
//! A number literal prints as the shortest text that reads back as the same double, with a
//! `.0` on whole numbers. That text is made where doubles can be handled, and handed in as a
//! table from bit patterns to text; [`number_constants`] lists the bit patterns to make it
//! for.

use std::fmt::Write;

use vstd::prelude::*;

use crate::ir::function::{
    binary_symbol, unary_symbol, Block, BlockId, CompareOp, Constant, Function, Instruction, Op,
    Terminator, ValueId,
};
use crate::ir::types::Type;
use crate::text::{decimal, joined, push_char, push_decimal};

verus! {

// ---- the pieces ---------------------------------------------------------------------------

/// A string as Rust's `Debug` prints it: quoted, with quotes, backslashes and unprintable
/// characters escaped, so an empty or odd property name is unambiguous.
pub uninterp spec fn quoted(text: Seq<char>) -> Seq<char>;

/// Appends `raw` as `{:?}` formats it, that is through `<str as core::fmt::Debug>::fmt`,
/// written into `text` with `write!`. The contract claims only that the text grows by
/// `quoted(raw@)`, a name for what `Debug` prints, which depends on `raw` alone; writing into
/// a `String` cannot fail, so the result of `write!` is dropped.
#[verifier::external_body]
fn push_quoted(text: &mut String, raw: &str)
    ensures
        final(text)@ == old(text)@ + quoted(raw@),
{
    let _ = write!(text, "{raw:?}");
}

/// How a value prints: `v` and its index.
pub open spec fn value_text(value: ValueId) -> Seq<char> {
    seq!['v'] + decimal(value.0 as nat)
}

/// How a block prints: `bb` and its index.
pub open spec fn block_text(block: BlockId) -> Seq<char> {
    "bb"@ + decimal(block.0 as nat)
}

/// How a slot prints: `$` and its number.
pub open spec fn slot_text(slot: u32) -> Seq<char> {
    seq!['$'] + decimal(slot as nat)
}

/// Values separated by commas.
pub open spec fn values_text(values: Seq<ValueId>) -> Seq<char> {
    joined(values.map_values(|value: ValueId| value_text(value)))
}

/// Slots separated by commas.
pub open spec fn slots_text(slots: Seq<u32>) -> Seq<char> {
    joined(slots.map_values(|slot: u32| slot_text(slot)))
}

/// How a type prints.
pub open spec fn type_text(ty: Type) -> Seq<char> {
    match ty {
        Type::Never => "never"@,
        Type::Undefined => "undefined"@,
        Type::Null => "null"@,
        Type::Bool => "bool"@,
        Type::Number => "number"@,
        Type::String => "string"@,
        Type::Object(None) => "object"@,
        Type::Object(Some(shape)) => "object#"@ + decimal(shape.0 as nat),
        Type::Unknown => "unknown"@,
    }
}

/// How a comparison prints.
pub open spec fn compare_text(op: CompareOp) -> Seq<char> {
    match op {
        CompareOp::StrictEqual => "eq"@,
        CompareOp::StrictNotEqual => "ne"@,
        CompareOp::Less => "lt"@,
        CompareOp::LessEqual => "le"@,
        CompareOp::Greater => "gt"@,
        CompareOp::GreaterEqual => "ge"@,
    }
}

/// Distinct comparisons print distinctly, each as its two-letter mnemonic: `eq`, `ne`, `lt`,
/// `le`, `gt`, `ge`. A dump therefore never shows one comparison as another.
pub proof fn law_comparisons_print_apart(a: CompareOp, b: CompareOp)
    ensures
        a != b ==> compare_text(a) != compare_text(b),
        compare_text(a).len() == 2,
        a is StrictEqual ==> compare_text(a) == seq!['e', 'q'],
        a is StrictNotEqual ==> compare_text(a) == seq!['n', 'e'],
        a is Less ==> compare_text(a) == seq!['l', 't'],
        a is LessEqual ==> compare_text(a) == seq!['l', 'e'],
        a is Greater ==> compare_text(a) == seq!['g', 't'],
        a is GreaterEqual ==> compare_text(a) == seq!['g', 'e'],
{
    reveal_strlit("eq");
    reveal_strlit("ne");
    reveal_strlit("lt");
    reveal_strlit("le");
    reveal_strlit("gt");
    reveal_strlit("ge");
    assert("eq"@ =~= seq!['e', 'q']);
    assert("ne"@ =~= seq!['n', 'e']);
    assert("lt"@ =~= seq!['l', 't']);
    assert("le"@ =~= seq!['l', 'e']);
    assert("gt"@ =~= seq!['g', 't']);
    assert("ge"@ =~= seq!['g', 'e']);
    if a != b && compare_text(a) == compare_text(b) {
        assert(compare_text(a)[0] == compare_text(b)[0]);
        assert(compare_text(a)[1] == compare_text(b)[1]);
    }
}

/// The text `numbers` gives for a double's bit pattern: its first entry for them.
pub open spec fn number_text(numbers: Seq<(u64, Seq<char>)>, bits: u64) -> Seq<char>
    decreases numbers.len(),
{
    if numbers.len() == 0 {
        Seq::empty()
    } else if numbers[0].0 == bits {
        numbers[0].1
    } else {
        number_text(numbers.drop_first(), bits)
    }
}

/// `numbers` has an entry for `bits`.
pub open spec fn has_number(numbers: Seq<(u64, Seq<char>)>, bits: u64) -> bool {
    exists|k: int| 0 <= k < numbers.len() && numbers[k].0 == bits
}

/// How a constant prints, so it reads back unambiguously.
pub open spec fn literal_text(constant: Constant, numbers: Seq<(u64, Seq<char>)>) -> Seq<char> {
    match constant {
        Constant::Undefined => "undefined"@,
        Constant::Null => "null"@,
        Constant::Bool(value) => if value {
            "true"@
        } else {
            "false"@
        },
        Constant::Number(bits) => number_text(numbers, bits),
        Constant::String(text) => quoted(text@),
    }
}

/// How an operation prints.
pub open spec fn op_text(op: Op, numbers: Seq<(u64, Seq<char>)>) -> Seq<char> {
    match op {
        Op::Const(constant) => "const "@ + literal_text(constant, numbers),
        Op::Load { slot } => "load "@ + slot_text(slot),
        Op::Store { slot, value } => "store "@ + slot_text(slot) + ", "@ + value_text(value),
        Op::Call { callee, this_value, args } => "call "@ + value_text(callee) + "(this="@
            + value_text(this_value) + (if args@.len() == 0 {
            Seq::empty()
        } else {
            ", "@
        }) + values_text(args@) + ")"@,
        Op::PropertyLoad { object, key } => "get "@ + value_text(object) + "."@ + quoted(
            key.text(),
        ),
        Op::Enumerate { object } => "enumerate "@ + value_text(object),
        Op::Iterate { object } => "iterate "@ + value_text(object),
        Op::CreateRegExp { source, flags } => "regexp "@ + quoted(source@) + " "@ + quoted(flags@),
        Op::ArrayExtend { array, value, spread } => "extend "@ + value_text(array) + ", "@ + (if spread {
            "..."@
        } else {
            Seq::empty()
        }) + value_text(value),
        Op::Delete { object, key } => "delete "@ + value_text(object) + "["@ + value_text(key)
            + "]"@,
        Op::GlobalLoadOptional { name } => "global? "@ + quoted(name.text()),
        Op::GlobalLoad { name } => "global "@ + quoted(name.text()),
        Op::CaughtValue => "caught"@,
        Op::ComputedLoad { object, key } => "get "@ + value_text(object) + "["@ + value_text(key)
            + "]"@,
        Op::ComputedStore { object, key, value } => "set "@ + value_text(object) + "["@
            + value_text(key) + "] = "@ + value_text(value),
        Op::PropertyStore { object, key, value } => "set "@ + value_text(object) + "."@ + quoted(
            key.text(),
        ) + " = "@ + value_text(value),
        Op::DefineAccessor { object, key, getter, setter } => "accessor "@ + value_text(object)
            + "."@ + quoted(key.text()) + " get "@ + value_text(getter) + ", set "@ + value_text(
            setter,
        ),
        Op::SetPrototype { object, prototype } => "setproto "@ + value_text(object) + ", "@
            + value_text(prototype),
        Op::CreateObject { shape } => "object #"@ + decimal(shape.0 as nat),
        Op::CreateArray { elements } => "array ["@ + values_text(elements@) + "]"@,
        Op::Closure { function, captures } => "closure @"@ + decimal(function.0 as nat) + " ["@
            + values_text(captures@) + "]"@,
        Op::Construct { callee, args } => "new "@ + value_text(callee) + "("@ + values_text(args@)
            + ")"@,
        Op::Await { value } => "await "@ + value_text(value),
        Op::Compare { op, left, right } => compare_text(op) + " "@ + value_text(left) + ", "@
            + value_text(right),
        Op::Binary { op, left, right } => binary_symbol(op) + " "@ + value_text(left) + ", "@
            + value_text(right),
        Op::Unary { op, operand } => unary_symbol(op) + " "@ + value_text(operand),
    }
}

/// One instruction's line: indented, its result and type when it has one, the operation, and
/// its safepoint's live set when it has one.
pub open spec fn instruction_text(instruction: Instruction, numbers: Seq<(u64, Seq<char>)>) -> Seq<
    char,
> {
    "    "@ + match instruction.result {
        Some(result) => value_text(result) + ": "@ + type_text(instruction.ty) + " = "@,
        None => Seq::empty(),
    } + op_text(instruction.op, numbers) + match instruction.safepoint {
        Some(safepoint) => "  ; safepoint ["@ + values_text(safepoint.live@) + "]"@,
        None => Seq::empty(),
    } + seq!['\n']
}

/// A jump's arguments, in brackets, or nothing when there are none.
pub open spec fn args_text(args: Seq<ValueId>) -> Seq<char> {
    if args.len() == 0 {
        Seq::empty()
    } else {
        "("@ + values_text(args) + ")"@
    }
}

/// A terminator's line.
pub open spec fn terminator_text(terminator: Terminator) -> Seq<char> {
    match terminator {
        Terminator::Jump { target, args } => "    jump "@ + block_text(target) + args_text(args@)
            + seq!['\n'],
        Terminator::Branch { condition, then_block, then_args, else_block, else_args } =>
            "    branch "@ + value_text(condition) + " -> "@ + block_text(then_block) + args_text(
            then_args@,
        ) + ", "@ + block_text(else_block) + args_text(else_args@) + seq!['\n'],
        Terminator::Return(None) => "    return\n"@,
        Terminator::Return(Some(value)) => "    return "@ + value_text(value) + seq!['\n'],
        Terminator::Throw(value) => "    throw "@ + value_text(value) + seq!['\n'],
    }
}

/// A parameter of a block: the value and its type.
pub open spec fn param_text(param: (ValueId, Type)) -> Seq<char> {
    value_text(param.0) + ": "@ + type_text(param.1)
}

/// The lines of a run of instructions.
pub open spec fn instructions_text(instructions: Seq<Instruction>, numbers: Seq<(u64, Seq<char>)>) -> Seq<
    char,
>
    decreases instructions.len(),
{
    if instructions.len() == 0 {
        Seq::empty()
    } else {
        instructions_text(instructions.drop_last(), numbers) + instruction_text(
            instructions.last(),
            numbers,
        )
    }
}

/// A block: its label with its parameters, marked when it is the entry, then its
/// instructions and its terminator.
pub open spec fn block_dump(
    id: BlockId,
    block: Block,
    is_entry: bool,
    numbers: Seq<(u64, Seq<char>)>,
) -> Seq<char> {
    block_text(id) + (if block.params@.len() == 0 {
        Seq::empty()
    } else {
        "("@ + joined(block.params@.map_values(|param: (ValueId, Type)| param_text(param))) + ")"@
    }) + seq![':'] + (if is_entry {
        "  ; entry"@
    } else {
        Seq::empty()
    }) + seq!['\n'] + instructions_text(block.instructions@, numbers) + terminator_text(
        block.terminator,
    )
}

/// The first `count` blocks of `function`.
pub open spec fn blocks_dump(function: Function, numbers: Seq<(u64, Seq<char>)>, count: int) -> Seq<
    char,
>
    decreases count,
{
    if count <= 0 {
        Seq::empty()
    } else {
        let id = BlockId((count - 1) as u32);
        blocks_dump(function, numbers, count - 1) + block_dump(
            id,
            function.blocks@[count - 1],
            id == function.entry,
            numbers,
        )
    }
}

/// The dump of `function`: its header with parameters and captures, every block in order,
/// and a closing brace.
pub open spec fn dump_of(function: Function, numbers: Seq<(u64, Seq<char>)>) -> Seq<char> {
    "function "@ + function.name@ + (if function.parameters@.len() == 0 {
        Seq::empty()
    } else {
        "("@ + slots_text(function.parameters@) + ")"@
    }) + (if function.captures@.len() == 0 {
        Seq::empty()
    } else {
        " captures ["@ + slots_text(function.captures@) + "]"@
    }) + " {\n"@ + blocks_dump(function, numbers, function.blocks@.len() as int) + "}\n"@
}


// ---- writing it -----------------------------------------------------------------------------

/// The table of number texts as the dump reads it.
pub open spec fn number_table(numbers: Seq<(u64, String)>) -> Seq<(u64, Seq<char>)> {
    numbers.map_values(|entry: (u64, String)| (entry.0, entry.1@))
}

/// Adding a part to a comma-separated list.
proof fn lemma_joined_push(parts: Seq<Seq<char>>, next: Seq<char>)
    ensures
        joined(parts.push(next)) == if parts.len() == 0 {
            next
        } else {
            joined(parts) + ", "@ + next
        },
{
    assert(parts.push(next).drop_last() =~= parts);
}

/// Appends `values`, separated by commas.
fn push_values(text: &mut String, values: &[ValueId])
    ensures
        final(text)@ == old(text)@ + values_text(values@),
{
    let ghost start = text@;
    let ghost parts = values@.map_values(|value: ValueId| value_text(value));
    let mut k: usize = 0;
    while k < values.len()
        invariant
            k <= values@.len(),
            parts == values@.map_values(|value: ValueId| value_text(value)),
            text@ == start + joined(parts.take(k as int)),
        decreases values@.len() - k,
    {
        let ghost before = text@;
        if k > 0 {
            text.append(", ");
        }
        push_char(text, 'v');
        push_decimal(text, values[k].0 as u64);
        proof {
            assert(parts.take(k as int + 1) =~= parts.take(k as int).push(parts[k as int]));
            lemma_joined_push(parts.take(k as int), parts[k as int]);
            assert(text@ =~= start + joined(parts.take(k as int + 1)));
        }
        k = k + 1;
    }
    proof {
        assert(parts.take(values@.len() as int) =~= parts);
    }
}

/// Appends `slots`, separated by commas.
fn push_slots(text: &mut String, slots: &[u32])
    ensures
        final(text)@ == old(text)@ + slots_text(slots@),
{
    let ghost start = text@;
    let ghost parts = slots@.map_values(|slot: u32| slot_text(slot));
    let mut k: usize = 0;
    while k < slots.len()
        invariant
            k <= slots@.len(),
            parts == slots@.map_values(|slot: u32| slot_text(slot)),
            text@ == start + joined(parts.take(k as int)),
        decreases slots@.len() - k,
    {
        if k > 0 {
            text.append(", ");
        }
        push_char(text, '$');
        push_decimal(text, slots[k] as u64);
        proof {
            assert(parts.take(k as int + 1) =~= parts.take(k as int).push(parts[k as int]));
            lemma_joined_push(parts.take(k as int), parts[k as int]);
            assert(text@ =~= start + joined(parts.take(k as int + 1)));
        }
        k = k + 1;
    }
    proof {
        assert(parts.take(slots@.len() as int) =~= parts);
    }
}

/// Appends a value.
pub(crate) fn push_value(text: &mut String, value: ValueId)
    ensures
        final(text)@ == old(text)@ + value_text(value),
{
    push_char(text, 'v');
    push_decimal(text, value.0 as u64);
    proof {
        assert(final(text)@ =~= old(text)@ + value_text(value)) by {
            assert(text@ =~= old(text)@ + value_text(value));
        }
    }
}

/// Appends a block's label.
pub(crate) fn push_block_id(text: &mut String, block: BlockId)
    ensures
        final(text)@ == old(text)@ + block_text(block),
{
    text.append("bb");
    push_decimal(text, block.0 as u64);
    proof {
        assert(text@ =~= old(text)@ + block_text(block));
    }
}

/// Appends a type.
pub(crate) fn push_type(text: &mut String, ty: Type)
    ensures
        final(text)@ == old(text)@ + type_text(ty),
{
    match ty {
        Type::Never => text.append("never"),
        Type::Undefined => text.append("undefined"),
        Type::Null => text.append("null"),
        Type::Bool => text.append("bool"),
        Type::Number => text.append("number"),
        Type::String => text.append("string"),
        Type::Object(None) => text.append("object"),
        Type::Object(Some(shape)) => {
            text.append("object#");
            push_decimal(text, shape.0 as u64);
            proof {
                assert(text@ =~= old(text)@ + type_text(ty));
            }
        },
        Type::Unknown => text.append("unknown"),
    }
}

/// Appends the text the table gives for `bits`, or nothing when it gives none.
fn push_number(text: &mut String, numbers: &[(u64, String)], bits: u64)
    ensures
        final(text)@ == old(text)@ + number_text(number_table(numbers@), bits),
{
    let ghost table = number_table(numbers@);
    proof {
        assert(table.skip(0) =~= table);
    }
    let mut k: usize = 0;
    while k < numbers.len()
        invariant
            k <= numbers@.len(),
            table == number_table(numbers@),
            text@ == old(text)@,
            number_text(table, bits) == number_text(table.skip(k as int), bits),
        decreases numbers@.len() - k,
    {
        proof {
            assert(table.skip(k as int).drop_first() =~= table.skip(k as int + 1));
            assert(table.skip(k as int)[0] == (numbers@[k as int].0, numbers@[k as int].1@));
        }
        if numbers[k].0 == bits {
            text.append(numbers[k].1.as_str());
            return;
        }
        k = k + 1;
    }
    proof {
        assert(table.skip(k as int).len() == 0);
    }
}

/// Appends a constant.
fn push_literal(text: &mut String, constant: &Constant, numbers: &[(u64, String)])
    ensures
        final(text)@ == old(text)@ + literal_text(*constant, number_table(numbers@)),
{
    match constant {
        Constant::Undefined => text.append("undefined"),
        Constant::Null => text.append("null"),
        Constant::Bool(value) => {
            if *value {
                text.append("true");
            } else {
                text.append("false");
            }
        },
        Constant::Number(bits) => push_number(text, numbers, *bits),
        Constant::String(value) => push_quoted(text, value.as_str()),
    }
}


/// Appends a comparison's name.
fn push_compare(text: &mut String, op: CompareOp)
    ensures
        final(text)@ == old(text)@ + compare_text(op),
{
    match op {
        CompareOp::StrictEqual => text.append("eq"),
        CompareOp::StrictNotEqual => text.append("ne"),
        CompareOp::Less => text.append("lt"),
        CompareOp::LessEqual => text.append("le"),
        CompareOp::Greater => text.append("gt"),
        CompareOp::GreaterEqual => text.append("ge"),
    }
}

/// Appends `first`, `", "` and `second`.
fn push_pair(text: &mut String, first: ValueId, second: ValueId)
    ensures
        final(text)@ == old(text)@ + value_text(first) + ", "@ + value_text(second),
{
    push_value(text, first);
    text.append(", ");
    push_value(text, second);
}

/// Appends an operation.
#[verifier::rlimit(40)]
fn push_op(text: &mut String, op: &Op, numbers: &[(u64, String)])
    ensures
        final(text)@ == old(text)@ + op_text(*op, number_table(numbers@)),
{
    let ghost start = text@;
    match op {
        Op::Const(constant) => {
            text.append("const ");
            push_literal(text, constant, numbers);
        },
        Op::Load { slot } => {
            text.append("load ");
            push_char(text, '$');
            push_decimal(text, *slot as u64);
        },
        Op::Store { slot, value } => {
            text.append("store ");
            push_char(text, '$');
            push_decimal(text, *slot as u64);
            text.append(", ");
            push_value(text, *value);
        },
        Op::Call { callee, this_value, args } => {
            text.append("call ");
            push_value(text, *callee);
            text.append("(this=");
            push_value(text, *this_value);
            if args.len() > 0 {
                text.append(", ");
            }
            push_values(text, args.as_slice());
            text.append(")");
        },
        Op::PropertyLoad { object, key } => {
            text.append("get ");
            push_value(text, *object);
            text.append(".");
            push_quoted(text, key.as_str());
        },
        Op::Enumerate { object } => {
            text.append("enumerate ");
            push_value(text, *object);
        },
        Op::Iterate { object } => {
            text.append("iterate ");
            push_value(text, *object);
        },
        Op::CreateRegExp { source, flags } => {
            text.append("regexp ");
            push_quoted(text, source.as_str());
            text.append(" ");
            push_quoted(text, flags.as_str());
        },
        Op::ArrayExtend { array, value, spread } => {
            text.append("extend ");
            push_value(text, *array);
            text.append(", ");
            if *spread {
                text.append("...");
            }
            push_value(text, *value);
        },
        Op::Delete { object, key } => {
            text.append("delete ");
            push_value(text, *object);
            text.append("[");
            push_value(text, *key);
            text.append("]");
        },
        Op::GlobalLoadOptional { name } => {
            text.append("global? ");
            push_quoted(text, name.as_str());
        },
        Op::GlobalLoad { name } => {
            text.append("global ");
            push_quoted(text, name.as_str());
        },
        Op::CaughtValue => {
            text.append("caught");
        },
        Op::ComputedLoad { object, key } => {
            text.append("get ");
            push_value(text, *object);
            text.append("[");
            push_value(text, *key);
            text.append("]");
        },
        Op::ComputedStore { object, key, value } => {
            text.append("set ");
            push_value(text, *object);
            text.append("[");
            push_value(text, *key);
            text.append("] = ");
            push_value(text, *value);
        },
        Op::PropertyStore { object, key, value } => {
            text.append("set ");
            push_value(text, *object);
            text.append(".");
            push_quoted(text, key.as_str());
            text.append(" = ");
            push_value(text, *value);
        },
        Op::DefineAccessor { object, key, getter, setter } => {
            text.append("accessor ");
            push_value(text, *object);
            text.append(".");
            push_quoted(text, key.as_str());
            text.append(" get ");
            push_value(text, *getter);
            text.append(", set ");
            push_value(text, *setter);
        },
        Op::SetPrototype { object, prototype } => {
            text.append("setproto ");
            push_pair(text, *object, *prototype);
        },
        Op::CreateObject { shape } => {
            text.append("object #");
            push_decimal(text, shape.0 as u64);
        },
        Op::CreateArray { elements } => {
            text.append("array [");
            push_values(text, elements.as_slice());
            text.append("]");
        },
        Op::Closure { function, captures } => {
            text.append("closure @");
            push_decimal(text, function.0 as u64);
            text.append(" [");
            push_values(text, captures.as_slice());
            text.append("]");
        },
        Op::Construct { callee, args } => {
            text.append("new ");
            push_value(text, *callee);
            text.append("(");
            push_values(text, args.as_slice());
            text.append(")");
        },
        Op::Await { value } => {
            text.append("await ");
            push_value(text, *value);
        },
        Op::Compare { op, left, right } => {
            push_compare(text, *op);
            text.append(" ");
            push_pair(text, *left, *right);
        },
        Op::Binary { op, left, right } => {
            text.append(op.symbol());
            text.append(" ");
            push_pair(text, *left, *right);
        },
        Op::Unary { op, operand } => {
            text.append(op.symbol());
            text.append(" ");
            push_value(text, *operand);
        },
    }
    proof {
        assert(text@ =~= start + op_text(*op, number_table(numbers@)));
    }
}


/// Appends one instruction's line.
fn push_instruction(text: &mut String, instruction: &Instruction, numbers: &[(u64, String)])
    ensures
        final(text)@ == old(text)@ + instruction_text(*instruction, number_table(numbers@)),
{
    let ghost start = text@;
    text.append("    ");
    match instruction.result {
        Some(result) => {
            push_value(text, result);
            text.append(": ");
            push_type(text, instruction.ty);
            text.append(" = ");
        },
        None => {},
    }
    let ghost before_op = text@;
    push_op(text, &instruction.op, numbers);
    let ghost after_op = text@;
    match &instruction.safepoint {
        Some(safepoint) => {
            text.append("  ; safepoint [");
            push_values(text, safepoint.live.as_slice());
            text.append("]");
        },
        None => {},
    }
    push_char(text, '\n');
    proof {
        assert(text@ =~= start + instruction_text(*instruction, number_table(numbers@)));
    }
}

/// Appends a jump's arguments, in brackets, when there are any.
fn push_args(text: &mut String, args: &[ValueId])
    ensures
        final(text)@ == old(text)@ + args_text(args@),
{
    if args.len() == 0 {
        return;
    }
    text.append("(");
    push_values(text, args);
    text.append(")");
    proof {
        assert(text@ =~= old(text)@ + args_text(args@));
    }
}

/// Appends a terminator's line.
fn push_terminator(text: &mut String, terminator: &Terminator)
    ensures
        final(text)@ == old(text)@ + terminator_text(*terminator),
{
    let ghost start = text@;
    match terminator {
        Terminator::Jump { target, args } => {
            text.append("    jump ");
            push_block_id(text, *target);
            push_args(text, args.as_slice());
            push_char(text, '\n');
        },
        Terminator::Branch { condition, then_block, then_args, else_block, else_args } => {
            text.append("    branch ");
            push_value(text, *condition);
            text.append(" -> ");
            push_block_id(text, *then_block);
            push_args(text, then_args.as_slice());
            text.append(", ");
            push_block_id(text, *else_block);
            push_args(text, else_args.as_slice());
            push_char(text, '\n');
        },
        Terminator::Return(None) => {
            text.append("    return\n");
        },
        Terminator::Return(Some(value)) => {
            text.append("    return ");
            push_value(text, *value);
            push_char(text, '\n');
        },
        Terminator::Throw(value) => {
            text.append("    throw ");
            push_value(text, *value);
            push_char(text, '\n');
        },
    }
    proof {
        assert(text@ =~= start + terminator_text(*terminator));
    }
}

/// Appends a block's parameters, separated by commas.
fn push_params(text: &mut String, params: &[(ValueId, Type)])
    ensures
        final(text)@ == old(text)@ + joined(
            params@.map_values(|param: (ValueId, Type)| param_text(param)),
        ),
{
    let ghost start = text@;
    let ghost parts = params@.map_values(|param: (ValueId, Type)| param_text(param));
    let mut k: usize = 0;
    while k < params.len()
        invariant
            k <= params@.len(),
            parts == params@.map_values(|param: (ValueId, Type)| param_text(param)),
            text@ == start + joined(parts.take(k as int)),
        decreases params@.len() - k,
    {
        if k > 0 {
            text.append(", ");
        }
        let (value, ty) = params[k];
        push_value(text, value);
        text.append(": ");
        push_type(text, ty);
        proof {
            assert(parts.take(k as int + 1) =~= parts.take(k as int).push(parts[k as int]));
            lemma_joined_push(parts.take(k as int), parts[k as int]);
            assert(text@ =~= start + joined(parts.take(k as int + 1)));
        }
        k = k + 1;
    }
    proof {
        assert(parts.take(params@.len() as int) =~= parts);
    }
}

/// Appends a block.
fn push_block(
    text: &mut String,
    id: BlockId,
    block: &Block,
    is_entry: bool,
    numbers: &[(u64, String)],
)
    ensures
        final(text)@ == old(text)@ + block_dump(id, *block, is_entry, number_table(numbers@)),
{
    let ghost start = text@;
    push_block_id(text, id);
    if block.params.len() > 0 {
        text.append("(");
        push_params(text, block.params.as_slice());
        text.append(")");
    }
    push_char(text, ':');
    if is_entry {
        text.append("  ; entry");
    }
    push_char(text, '\n');
    let ghost header = text@;
    let ghost table = number_table(numbers@);
    let mut k: usize = 0;
    while k < block.instructions.len()
        invariant
            k <= block.instructions@.len(),
            table == number_table(numbers@),
            text@ == header + instructions_text(block.instructions@.take(k as int), table),
        decreases block.instructions@.len() - k,
    {
        push_instruction(text, &block.instructions[k], numbers);
        proof {
            let taken = block.instructions@.take(k as int + 1);
            assert(taken.drop_last() =~= block.instructions@.take(k as int));
            assert(taken.last() == block.instructions@[k as int]);
            assert(text@ =~= header + instructions_text(taken, table));
        }
        k = k + 1;
    }
    proof {
        assert(block.instructions@.take(block.instructions@.len() as int) =~= block.instructions@);
    }
    push_terminator(text, &block.terminator);
    proof {
        assert(text@ =~= start + block_dump(id, *block, is_entry, table));
    }
}

/// The bit patterns of the number literals in a run of instructions, in order.
pub open spec fn instruction_numbers(instructions: Seq<Instruction>) -> Seq<u64>
    decreases instructions.len(),
{
    if instructions.len() == 0 {
        Seq::empty()
    } else {
        let rest = instruction_numbers(instructions.drop_last());
        match instructions.last().op {
            Op::Const(Constant::Number(bits)) => rest.push(bits),
            _ => rest,
        }
    }
}

/// The bit patterns of the number literals in the first `count` blocks, in order.
pub open spec fn block_numbers(function: Function, count: int) -> Seq<u64>
    decreases count,
{
    if count <= 0 {
        Seq::empty()
    } else {
        block_numbers(function, count - 1) + instruction_numbers(
            function.blocks@[count - 1].instructions@,
        )
    }
}

/// The bit patterns of the number literals in `function`, in order: the doubles whose text
/// [`dump`] needs.
pub open spec fn numbers_of(function: Function) -> Seq<u64> {
    block_numbers(function, function.blocks@.len() as int)
}

/// The bit patterns of the number literals in `function`, in order.
pub fn number_constants(function: &Function) -> (numbers: Vec<u64>)
    ensures
        numbers@ == numbers_of(*function),
{
    let mut numbers: Vec<u64> = Vec::new();
    let mut b: usize = 0;
    while b < function.blocks.len()
        invariant
            b <= function.blocks@.len(),
            numbers@ == block_numbers(*function, b as int),
        decreases function.blocks@.len() - b,
    {
        let instructions = &function.blocks[b].instructions;
        let ghost start = numbers@;
        let mut k: usize = 0;
        while k < instructions.len()
            invariant
                k <= instructions@.len(),
                numbers@ == start + instruction_numbers(instructions@.take(k as int)),
            decreases instructions@.len() - k,
        {
            proof {
                assert(instructions@.take(k as int + 1).drop_last() =~= instructions@.take(k as int));
                assert(instructions@.take(k as int + 1).last() == instructions@[k as int]);
            }
            match &instructions[k].op {
                Op::Const(Constant::Number(bits)) => {
                    numbers.push(*bits);
                },
                _ => {},
            }
            proof {
                assert(numbers@ =~= start + instruction_numbers(instructions@.take(k as int + 1)));
            }
            k = k + 1;
        }
        proof {
            assert(instructions@.take(instructions@.len() as int) =~= instructions@);
        }
        b = b + 1;
    }
    numbers
}

/// The dump of `function`, with each number literal printed as `numbers` says.
pub fn dump(function: &Function, numbers: &[(u64, String)]) -> (text: String)
    requires
        function.blocks@.len() <= u32::MAX + 1,
    ensures
        text@ == dump_of(*function, number_table(numbers@)),
{
    let ghost table = number_table(numbers@);
    let mut text = String::new();
    text.append("function ");
    text.append(function.name.as_str());
    if function.parameters.len() > 0 {
        text.append("(");
        push_slots(&mut text, function.parameters.as_slice());
        text.append(")");
    }
    if function.captures.len() > 0 {
        text.append(" captures [");
        push_slots(&mut text, function.captures.as_slice());
        text.append("]");
    }
    text.append(" {\n");
    let ghost header = text@;
    let mut raw: usize = 0;
    while raw < function.blocks.len()
        invariant
            raw <= function.blocks@.len(),
            function.blocks@.len() <= u32::MAX + 1,
            table == number_table(numbers@),
            text@ == header + blocks_dump(*function, table, raw as int),
        decreases function.blocks@.len() - raw,
    {
        let id = BlockId(raw as u32);
        push_block(&mut text, id, &function.blocks[raw], id.0 == function.entry.0, numbers);
        proof {
            assert(text@ =~= header + blocks_dump(*function, table, raw as int + 1));
        }
        raw = raw + 1;
    }
    text.append("}\n");
    proof {
        assert(text@ =~= dump_of(*function, table));
    }
    text
}

} // verus!
