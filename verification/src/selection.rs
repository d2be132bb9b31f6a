//! Instruction selection: how a backend carries out each instruction and each block's ending,
//! decided before any machine code is emitted.
//!
//! The choice depends on the instruction and on what the backend has proved about its
//! operands so far: a value defined by an instruction typed `Number` is a proven number, so
//! `-`, `*` and `/` on numbers, the comparisons, negation and `+x` become float instructions,
//! `!` on a proven boolean becomes a comparison, and everything else calls the runtime. `===`
//! and `!==` are float equality on proven numbers and refused otherwise: on boxed values of
//! unknown type a bit comparison gets `NaN` and the signed zeroes wrong. What has no lowering
//! is refused by name.

use std::collections::HashMap;

use vstd::prelude::*;

use crate::codegen::{helper_of, helper_symbol, CodegenError};
use crate::ir::function::{
    binary_symbol, unary_symbol, BinaryOp, Block, CompareOp, Constant, Function, Instruction, Op,
    Terminator, UnaryOp, ValueId,
};
use crate::ir::types::Type;

verus! {

broadcast use vstd::std_specs::hash::group_hash_axioms;

/// A runtime function an instruction calls.
#[derive(Clone, Copy, Debug, PartialEq, Eq, Structural)]
pub enum Runtime {
    /// The helper for a binary operator with no native instruction.
    Binary(BinaryOp),
    /// The helper for a unary operator on an operand not proven to fit an instruction.
    Unary(UnaryOp),
    /// Raising an exception.
    Throw,
    /// Allocating a string from interned text.
    CreateString,
    /// Allocating a regular expression.
    CreateRegExp,
    /// Appending to an array, or spreading into one.
    ArrayExtend,
    /// Starting an iteration.
    Iterate,
    /// Starting an enumeration of keys.
    Enumerate,
    /// `delete`.
    Delete,
    /// Reading a property by a computed key.
    ComputedLoad,
    /// Writing a property by a computed key.
    ComputedStore,
    /// Reading a global.
    GlobalLoad,
    /// Taking the pending exception.
    PendingException,
    /// Allocating an object.
    CreateObject,
    /// Writing a named property.
    PropertyStore,
    /// Reading a named property.
    PropertyLoad,
}

/// How an instruction or a block's ending is carried out.
#[derive(Clone, Copy, Debug, PartialEq, Eq, Structural)]
pub enum Selection {
    /// A boxed constant word: `undefined`, `null`, a boolean or a number.
    Word,
    /// A read of a slot's variable.
    ReadSlot,
    /// A write of a slot's variable.
    WriteSlot,
    /// A float instruction on the unboxed operands: `-`, `*` or `/`.
    Float(BinaryOp),
    /// A float comparison of the unboxed operands.
    FloatCompare(CompareOp),
    /// Float negation of a proven number.
    NegateNumber,
    /// `+x` on a proven number: the operand itself.
    NumberItself,
    /// `!x` on a proven boolean: a comparison with boxed `true`, inverted.
    NotBoolean,
    /// A comparison with the exception signal.
    IsException,
    /// `void x`: `undefined`, the operand having been evaluated.
    Undefined,
    /// A call of a runtime function.
    Call(Runtime),
    /// A closure allocated, then each of its `captures` stored into it.
    Closure { captures: usize },
    /// An array allocated, then each of its `elements` stored into it.
    Array { elements: usize },
    /// A call through the callee's code pointer.
    CallThrough,
    /// A construction: a receiver made from the callee, the call through it, and the result
    /// chosen between the two.
    Construct,
    /// A jump.
    Jump,
    /// A conditional branch, on a proven boolean directly or else on its truthiness.
    Branch { truthy: bool },
    /// A return.
    Return,
}

/// The backend proved `value` has type `ty`: it was defined by an instruction of that type.
pub open spec fn proven(known: Map<u32, Type>, value: ValueId, ty: Type) -> bool {
    known.contains_key(value.0) && known[value.0] == ty
}

/// How `op` is carried out given what is `known`, or the name of what cannot be.
pub open spec fn selection_of(known: Map<u32, Type>, op: Op) -> Result<Selection, Seq<char>> {
    match op {
        Op::Const(Constant::String(_)) => Ok(Selection::Call(Runtime::CreateString)),
        Op::Const(_) => Ok(Selection::Word),
        Op::Load { .. } => Ok(Selection::ReadSlot),
        Op::Store { .. } => Ok(Selection::WriteSlot),
        Op::Binary { op, .. } => if op is Subtract || op is Multiply || op is Divide {
            Ok(Selection::Float(op))
        } else if helper_of(op) is Some {
            Ok(Selection::Call(Runtime::Binary(op)))
        } else {
            Err("binary operator "@ + binary_symbol(op))
        },
        Op::Unary { op, operand } => if op is Negate && proven(known, operand, Type::Number) {
            Ok(Selection::NegateNumber)
        } else if op is ToNumber && proven(known, operand, Type::Number) {
            Ok(Selection::NumberItself)
        } else if op is Throw {
            Ok(Selection::Call(Runtime::Throw))
        } else if op is IsException {
            Ok(Selection::IsException)
        } else if op is Void {
            Ok(Selection::Undefined)
        } else if op is Not && proven(known, operand, Type::Bool) {
            Ok(Selection::NotBoolean)
        } else if op is BitNot {
            Err("unary operator "@ + unary_symbol(op))
        } else {
            Ok(Selection::Call(Runtime::Unary(op)))
        },
        Op::Compare { op, left, right } => if op is StrictEqual || op is StrictNotEqual {
            if proven(known, left, Type::Number) && proven(known, right, Type::Number) {
                Ok(Selection::FloatCompare(op))
            } else {
                Err("strict equality on values not proven to be numbers"@)
            }
        } else {
            Ok(Selection::FloatCompare(op))
        },
        Op::Closure { captures, .. } => Ok(Selection::Closure { captures: captures@.len() as usize }),
        Op::Call { .. } => Ok(Selection::CallThrough),
        Op::Construct { .. } => Ok(Selection::Construct),
        Op::CreateArray { elements } => Ok(Selection::Array { elements: elements@.len() as usize }),
        Op::CreateRegExp { .. } => Ok(Selection::Call(Runtime::CreateRegExp)),
        Op::ArrayExtend { .. } => Ok(Selection::Call(Runtime::ArrayExtend)),
        Op::Iterate { .. } => Ok(Selection::Call(Runtime::Iterate)),
        Op::Enumerate { .. } => Ok(Selection::Call(Runtime::Enumerate)),
        Op::Delete { .. } => Ok(Selection::Call(Runtime::Delete)),
        Op::ComputedLoad { .. } => Ok(Selection::Call(Runtime::ComputedLoad)),
        Op::ComputedStore { .. } => Ok(Selection::Call(Runtime::ComputedStore)),
        Op::GlobalLoad { .. } => Ok(Selection::Call(Runtime::GlobalLoad)),
        Op::CaughtValue => Ok(Selection::Call(Runtime::PendingException)),
        Op::CreateObject { .. } => Ok(Selection::Call(Runtime::CreateObject)),
        Op::PropertyStore { .. } => Ok(Selection::Call(Runtime::PropertyStore)),
        Op::PropertyLoad { .. } => Ok(Selection::Call(Runtime::PropertyLoad)),
        Op::GlobalLoadOptional { .. } => Err("GlobalLoadOptional"@),
        Op::DefineAccessor { .. } => Err("DefineAccessor"@),
        Op::SetPrototype { .. } => Err("SetPrototype"@),
        Op::Await { .. } => Err("Await"@),
    }
}

/// A selection that relies on a proved type is only ever made when the type is proved: `!`
/// becomes a comparison only on a proven boolean, negation and `+x` become float work only
/// on a proven number, and `===`/`!==` become float equality only when both sides are proven
/// numbers. On an operand not proven boolean, `!` calls the runtime's `!`.
pub proof fn law_typed_selections_need_proof(known: Map<u32, Type>, op: Op)
    ensures
        selection_of(known, op) == Ok::<Selection, Seq<char>>(Selection::NotBoolean) ==> (op matches Op::Unary {
            op: UnaryOp::Not,
            operand,
        } && known.contains_key(operand.0) && known[operand.0] == Type::Bool),
        selection_of(known, op) == Ok::<Selection, Seq<char>>(Selection::NegateNumber) ==> (op matches Op::Unary {
            op: UnaryOp::Negate,
            operand,
        } && known.contains_key(operand.0) && known[operand.0] == Type::Number),
        selection_of(known, op) == Ok::<Selection, Seq<char>>(Selection::NumberItself) ==> (op matches Op::Unary {
            op: UnaryOp::ToNumber,
            operand,
        } && known.contains_key(operand.0) && known[operand.0] == Type::Number),
        (op matches Op::Compare { op: cmp, left, right } && (cmp is StrictEqual || cmp is StrictNotEqual)
            && selection_of(known, op) is Ok) ==> (op matches Op::Compare { left, right, .. }
            && known.contains_key(left.0) && known[left.0] == Type::Number && known.contains_key(right.0)
            && known[right.0] == Type::Number),
        (op matches Op::Unary { op: UnaryOp::Not, operand } && !(known.contains_key(operand.0)
            && known[operand.0] == Type::Bool)) ==> selection_of(known, op) == Ok::<Selection, Seq<char>>(
            Selection::Call(Runtime::Unary(UnaryOp::Not)),
        ),
{
}

/// How a block's ending is carried out given what is `known`, or the name of what cannot be.
pub open spec fn ending_of(known: Map<u32, Type>, terminator: Terminator) -> Result<Selection, Seq<char>> {
    match terminator {
        Terminator::Jump { .. } => Ok(Selection::Jump),
        Terminator::Branch { condition, .. } => Ok(
            Selection::Branch { truthy: !proven(known, condition, Type::Bool) },
        ),
        Terminator::Return(_) => Ok(Selection::Return),
        Terminator::Throw(_) => Err("throw"@),
    }
}

/// What is known after `instruction`: the type of the value it defines, when it defines one.
/// A slot write defines nothing.
pub open spec fn learn(known: Map<u32, Type>, instruction: Instruction) -> Map<u32, Type> {
    match instruction.result {
        Some(value) => if instruction.op is Store {
            known
        } else {
            known.insert(value.0, instruction.ty)
        },
        None => known,
    }
}

/// The selections for `instructions` in order, starting from `known`, and what is known
/// after them; the first refusal stops the selection.
pub open spec fn select_all(known: Map<u32, Type>, instructions: Seq<Instruction>) -> (
    Result<Seq<Selection>, Seq<char>>,
    Map<u32, Type>,
)
    decreases instructions.len(),
{
    if instructions.len() == 0 {
        (Ok(Seq::empty()), known)
    } else {
        let (before, now) = select_all(known, instructions.drop_last());
        match before {
            Err(what) => (Err(what), now),
            Ok(done) => match selection_of(now, instructions.last().op) {
                Err(what) => (Err(what), now),
                Ok(selected) => (Ok(done.push(selected)), learn(now, instructions.last())),
            },
        }
    }
}

/// The plan for `blocks` in order: each block's instructions, then its ending, with what is
/// known carried from block to block; the first refusal stops the plan.
pub open spec fn plan_blocks(blocks: Seq<Block>) -> (Result<Seq<Selection>, Seq<char>>, Map<u32, Type>)
    decreases blocks.len(),
{
    if blocks.len() == 0 {
        (Ok(Seq::empty()), Map::empty())
    } else {
        let (before, known) = plan_blocks(blocks.drop_last());
        match before {
            Err(what) => (Err(what), known),
            Ok(done) => {
                let block = blocks.last();
                let (inner, after) = select_all(known, block.instructions@);
                match inner {
                    Err(what) => (Err(what), after),
                    Ok(steps) => match ending_of(after, block.terminator) {
                        Err(what) => (Err(what), after),
                        Ok(ending) => (Ok(done + steps.push(ending)), after),
                    },
                }
            },
        }
    }
}

/// A refusal part way through the instructions is the refusal of all of them.
proof fn lemma_select_refusal_stays(known: Map<u32, Type>, instructions: Seq<Instruction>, k: int, what: Seq<char>)
    requires
        0 <= k <= instructions.len(),
        select_all(known, instructions.take(k)).0 == Err::<Seq<Selection>, Seq<char>>(what),
    ensures
        select_all(known, instructions).0 == Err::<Seq<Selection>, Seq<char>>(what),
    decreases instructions.len() - k,
{
    if k < instructions.len() {
        assert(instructions.take(k + 1).drop_last() =~= instructions.take(k));
        lemma_select_refusal_stays(known, instructions, k + 1, what);
    } else {
        assert(instructions.take(k) =~= instructions);
    }
}

/// A refusal part way through the blocks is the refusal of the whole plan.
proof fn lemma_plan_refusal_stays(blocks: Seq<Block>, b: int, what: Seq<char>)
    requires
        0 <= b <= blocks.len(),
        plan_blocks(blocks.take(b)).0 == Err::<Seq<Selection>, Seq<char>>(what),
    ensures
        plan_blocks(blocks).0 == Err::<Seq<Selection>, Seq<char>>(what),
    decreases blocks.len() - b,
{
    if b < blocks.len() {
        assert(blocks.take(b + 1).drop_last() =~= blocks.take(b));
        lemma_plan_refusal_stays(blocks, b + 1, what);
    } else {
        assert(blocks.take(b) =~= blocks);
    }
}

/// Whether `known` proves `value` has type `ty`.
fn is_proven(known: &HashMap<u32, Type>, value: ValueId, ty: Type) -> (found: bool)
    ensures
        found == proven(known@, value, ty),
{
    match known.get(&value.0) {
        Some(t) => *t == ty,
        None => false,
    }
}

/// The text `prefix` followed by `symbol`.
fn named(prefix: &str, symbol: &str) -> (text: String)
    ensures
        text@ == prefix@ + symbol@,
{
    let mut text = String::new();
    text.append(prefix);
    text.append(symbol);
    text
}

/// How `op` is carried out given what is `known`, or the name of what cannot be.
pub fn select(known: &HashMap<u32, Type>, op: &Op) -> (selected: Result<Selection, String>)
    ensures
        match selected {
            Ok(selection) => selection_of(known@, *op) == Ok::<Selection, Seq<char>>(selection),
            Err(what) => selection_of(known@, *op) == Err::<Selection, Seq<char>>(what@),
        },
{
    match op {
        Op::Const(Constant::String(_)) => Ok(Selection::Call(Runtime::CreateString)),
        Op::Const(_) => Ok(Selection::Word),
        Op::Load { .. } => Ok(Selection::ReadSlot),
        Op::Store { .. } => Ok(Selection::WriteSlot),
        Op::Binary { op, .. } => match op {
            BinaryOp::Subtract | BinaryOp::Multiply | BinaryOp::Divide => Ok(Selection::Float(*op)),
            _ => match helper_symbol(*op) {
                Some(_) => Ok(Selection::Call(Runtime::Binary(*op))),
                None => Err(named("binary operator ", op.symbol())),
            },
        },
        Op::Unary { op, operand } => {
            let number = is_proven(known, *operand, Type::Number);
            let boolean = is_proven(known, *operand, Type::Bool);
            match op {
                UnaryOp::Negate if number => Ok(Selection::NegateNumber),
                UnaryOp::ToNumber if number => Ok(Selection::NumberItself),
                UnaryOp::Throw => Ok(Selection::Call(Runtime::Throw)),
                UnaryOp::IsException => Ok(Selection::IsException),
                UnaryOp::Void => Ok(Selection::Undefined),
                UnaryOp::Not if boolean => Ok(Selection::NotBoolean),
                UnaryOp::BitNot => Err(named("unary operator ", op.symbol())),
                _ => Ok(Selection::Call(Runtime::Unary(*op))),
            }
        },
        Op::Compare { op, left, right } => match op {
            CompareOp::StrictEqual | CompareOp::StrictNotEqual => {
                if is_proven(known, *left, Type::Number) && is_proven(known, *right, Type::Number) {
                    Ok(Selection::FloatCompare(*op))
                } else {
                    Err(String::from_str("strict equality on values not proven to be numbers"))
                }
            },
            _ => Ok(Selection::FloatCompare(*op)),
        },
        Op::Closure { captures, .. } => Ok(Selection::Closure { captures: captures.len() }),
        Op::Call { .. } => Ok(Selection::CallThrough),
        Op::Construct { .. } => Ok(Selection::Construct),
        Op::CreateArray { elements } => Ok(Selection::Array { elements: elements.len() }),
        Op::CreateRegExp { .. } => Ok(Selection::Call(Runtime::CreateRegExp)),
        Op::ArrayExtend { .. } => Ok(Selection::Call(Runtime::ArrayExtend)),
        Op::Iterate { .. } => Ok(Selection::Call(Runtime::Iterate)),
        Op::Enumerate { .. } => Ok(Selection::Call(Runtime::Enumerate)),
        Op::Delete { .. } => Ok(Selection::Call(Runtime::Delete)),
        Op::ComputedLoad { .. } => Ok(Selection::Call(Runtime::ComputedLoad)),
        Op::ComputedStore { .. } => Ok(Selection::Call(Runtime::ComputedStore)),
        Op::GlobalLoad { .. } => Ok(Selection::Call(Runtime::GlobalLoad)),
        Op::CaughtValue => Ok(Selection::Call(Runtime::PendingException)),
        Op::CreateObject { .. } => Ok(Selection::Call(Runtime::CreateObject)),
        Op::PropertyStore { .. } => Ok(Selection::Call(Runtime::PropertyStore)),
        Op::PropertyLoad { .. } => Ok(Selection::Call(Runtime::PropertyLoad)),
        Op::GlobalLoadOptional { .. } => Err(String::from_str("GlobalLoadOptional")),
        Op::DefineAccessor { .. } => Err(String::from_str("DefineAccessor")),
        Op::SetPrototype { .. } => Err(String::from_str("SetPrototype")),
        Op::Await { .. } => Err(String::from_str("Await")),
    }
}

/// How a block's ending is carried out given what is `known`, or the name of what cannot be.
pub fn select_ending(known: &HashMap<u32, Type>, terminator: &Terminator) -> (selected: Result<Selection, String>)
    ensures
        match selected {
            Ok(selection) => ending_of(known@, *terminator) == Ok::<Selection, Seq<char>>(selection),
            Err(what) => ending_of(known@, *terminator) == Err::<Selection, Seq<char>>(what@),
        },
{
    match terminator {
        Terminator::Jump { .. } => Ok(Selection::Jump),
        Terminator::Branch { condition, .. } => Ok(
            Selection::Branch { truthy: !is_proven(known, *condition, Type::Bool) },
        ),
        Terminator::Return(_) => Ok(Selection::Return),
        Terminator::Throw(_) => Err(String::from_str("throw")),
    }
}

/// The plan for a whole function: for each block in order, how each instruction and then
/// the block's ending is carried out, with the types proved by earlier instructions in hand.
/// The first operation with no lowering is refused by name, as the backend refuses it.
pub fn plan_function(function: &Function) -> (plan: Result<Vec<Selection>, CodegenError>)
    ensures
        match plan {
            Ok(steps) => plan_blocks(function.blocks@).0 == Ok::<Seq<Selection>, Seq<char>>(steps@),
            Err(CodegenError::Unsupported { operation }) => plan_blocks(function.blocks@).0 == Err::<
                Seq<Selection>,
                Seq<char>,
            >(operation@),
            Err(_) => false,
        },
{
    let ghost blocks = function.blocks@;
    let mut known: HashMap<u32, Type> = HashMap::new();
    let mut steps: Vec<Selection> = Vec::new();
    let mut b: usize = 0;
    proof {
        assert(blocks.take(0) =~= Seq::<Block>::empty());
    }
    while b < function.blocks.len()
        invariant
            b <= blocks.len(),
            blocks == function.blocks@,
            plan_blocks(blocks.take(b as int)) == (
                Ok::<Seq<Selection>, Seq<char>>(steps@),
                known@,
            ),
        decreases blocks.len() - b,
    {
        let block = &function.blocks[b];
        let ghost instructions = block.instructions@;
        let ghost start = known@;
        let ghost before = steps@;
        let mut k: usize = 0;
        proof {
            assert(blocks.take(b as int + 1).drop_last() =~= blocks.take(b as int));
            assert(blocks.take(b as int + 1).last() == *block);
            assert(instructions.take(0) =~= Seq::<Instruction>::empty());
            assert(steps@.skip(before.len() as int) =~= Seq::<Selection>::empty());
            assert(steps@.take(before.len() as int) =~= before);
        }
        while k < block.instructions.len()
            invariant
                k <= instructions.len(),
                instructions == block.instructions@,
                blocks == function.blocks@,
                b < blocks.len(),
                blocks.take(b as int + 1).drop_last() =~= blocks.take(b as int),
                blocks.take(b as int + 1).last() == *block,
                plan_blocks(blocks.take(b as int)) == (Ok::<Seq<Selection>, Seq<char>>(before), start),
                select_all(start, instructions.take(k as int)).0 == Ok::<Seq<Selection>, Seq<char>>(
                    steps@.skip(before.len() as int),
                ),
                select_all(start, instructions.take(k as int)).1 == known@,
                steps@.len() >= before.len(),
                steps@.take(before.len() as int) == before,
            decreases instructions.len() - k,
        {
            let instruction = &block.instructions[k];
            proof {
                assert(instructions.take(k as int + 1).drop_last() =~= instructions.take(k as int));
                assert(instructions.take(k as int + 1).last() == *instruction);
            }
            match select(&known, &instruction.op) {
                Ok(selection) => {
                    let ghost old_steps = steps@;
                    steps.push(selection);
                    match instruction.result {
                        Some(value) => {
                            match instruction.op {
                                Op::Store { .. } => {},
                                _ => {
                                    known.insert(value.0, instruction.ty);
                                },
                            }
                        },
                        None => {},
                    }
                    proof {
                        assert(steps@.skip(before.len() as int) =~= old_steps.skip(before.len() as int).push(selection));
                        assert(steps@.take(before.len() as int) =~= old_steps.take(before.len() as int));
                    }
                },
                Err(what) => {
                    proof {
                        lemma_select_refusal_stays(start, instructions, k as int + 1, what@);
                        lemma_plan_refusal_stays(blocks, b as int + 1, what@);
                    }
                    return Err(CodegenError::Unsupported { operation: what });
                },
            }
            k = k + 1;
        }
        proof {
            assert(instructions.take(k as int) =~= instructions);
            assert(steps@ =~= before + steps@.skip(before.len() as int));
        }
        match select_ending(&known, &block.terminator) {
            Ok(ending) => {
                let ghost old_steps = steps@;
                steps.push(ending);
                proof {
                    assert(steps@ =~= before + old_steps.skip(before.len() as int).push(ending));
                }
            },
            Err(what) => {
                proof {
                    lemma_plan_refusal_stays(blocks, b as int + 1, what@);
                }
                return Err(CodegenError::Unsupported { operation: what });
            },
        }
        b = b + 1;
    }
    proof {
        assert(blocks.take(b as int) =~= blocks);
    }
    Ok(steps)
}

} // verus!
