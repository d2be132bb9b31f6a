//! Functions, blocks, instructions.
//!
//! SSA with block parameters rather than phi nodes, so a value that differs by predecessor
//! is passed, and the verifier can check the argument count at every edge. Terminators are a
//! separate type from operations: a block holds a list of [`Op`] and exactly one
//! [`Terminator`], so "one terminator, at the end" is a shape the types enforce.
//!
//! Any operation that can allocate or transfer control, and therefore can collect, carries a
//! [`Safepoint`] naming the values that must stay reachable across it; [`Op::can_collect`]
//! decides which those are.

use vstd::prelude::*;

use crate::ir::types::Type;
use crate::ir::value::{PropertyKey, ShapeId};

verus! {

/// An SSA value.
#[derive(Clone, Copy, Debug, PartialEq, Eq, Structural, PartialOrd, Ord, Hash)]
pub struct ValueId(pub u32);

impl ValueId {
    /// The index.
    pub fn index(self) -> (index: u32)
        ensures
            index == self.0,
    {
        self.0
    }

    /// Rebuilds an id from [`ValueId::index`], for tests and for a pass keeping a side table.
    pub fn from_index(index: u32) -> (id: Self)
        ensures
            id.0 == index,
    {
        ValueId(index)
    }
}

/// A basic block.
#[derive(Clone, Copy, Debug, PartialEq, Eq, Structural, PartialOrd, Ord, Hash)]
pub struct BlockId(pub u32);

impl BlockId {
    /// The block every function starts with.
    pub fn entry() -> (id: Self)
        ensures
            id.0 == 0,
    {
        BlockId(0)
    }

    /// The index.
    pub fn index(self) -> (index: u32)
        ensures
            index == self.0,
    {
        self.0
    }

    /// Rebuilds an id from [`BlockId::index`].
    pub fn from_index(index: u32) -> (id: Self)
        ensures
            id.0 == index,
    {
        BlockId(index)
    }
}

/// Another function, for [`Op::Closure`].
#[derive(Clone, Copy, Debug, PartialEq, Eq, Structural, PartialOrd, Ord, Hash)]
pub struct FunctionId(pub u32);

impl FunctionId {
    /// The index.
    pub fn index(self) -> (index: u32)
        ensures
            index == self.0,
    {
        self.0
    }
}

/// A literal.
#[derive(Clone, Debug, PartialEq)]
pub enum Constant {
    /// `undefined`.
    Undefined,
    /// `null`.
    Null,
    /// A boolean.
    Bool(bool),
    /// A number, as the IEEE-754 bit pattern of the double.
    Number(u64),
    /// A string.
    String(String),
}

impl Constant {
    /// The type this constant has, which is always exact.
    pub fn type_of(&self) -> (ty: Type)
        ensures
            ty == (match self {
                Constant::Undefined => Type::Undefined,
                Constant::Null => Type::Null,
                Constant::Bool(_) => Type::Bool,
                Constant::Number(_) => Type::Number,
                Constant::String(_) => Type::String,
            }),
    {
        match self {
            Constant::Undefined => Type::Undefined,
            Constant::Null => Type::Null,
            Constant::Bool(_) => Type::Bool,
            Constant::Number(_) => Type::Number,
            Constant::String(_) => Type::String,
        }
    }
}

/// Arithmetic and bitwise operators.
///
/// `Add` is the odd one out: if either operand is a string after `ToPrimitive` it
/// concatenates, so `1 + "1"` is `"11"` and `Add` is never typed as a number.
#[derive(Clone, Copy, Debug, PartialEq, Eq, Structural, Hash)]
pub enum BinaryOp {
    /// `+`: numeric addition or string concatenation.
    Add,
    /// `-`.
    Subtract,
    /// `*`.
    Multiply,
    /// `/`.
    Divide,
    /// `%`: the sign follows the dividend.
    Remainder,
    /// `**`.
    Exponent,
    /// `&`, on int32.
    BitAnd,
    /// `|`, on int32.
    BitOr,
    /// `^`, on int32.
    BitXor,
    /// `<<`, on int32.
    ShiftLeft,
    /// `>>`, sign-propagating, on int32.
    ShiftRight,
    /// `>>>`, zero-filling, on uint32.
    UnsignedShiftRight,
    /// `instanceof`.
    InstanceOf,
    /// `==`: equality after coercion.
    LooseEqual,
    /// `!=`.
    LooseNotEqual,
    /// `in`.
    In,
}

/// The operators whose result is always a number: every arithmetic and bitwise operator
/// but `+`.
pub open spec fn always_numeric(op: BinaryOp) -> bool {
    match op {
        BinaryOp::Subtract | BinaryOp::Multiply | BinaryOp::Divide | BinaryOp::Remainder
        | BinaryOp::Exponent | BinaryOp::BitAnd | BinaryOp::BitOr | BinaryOp::BitXor
        | BinaryOp::ShiftLeft | BinaryOp::ShiftRight | BinaryOp::UnsignedShiftRight => true,
        _ => false,
    }
}

/// The operators whose result is always a boolean.
pub open spec fn always_boolean(op: BinaryOp) -> bool {
    match op {
        BinaryOp::InstanceOf | BinaryOp::LooseEqual | BinaryOp::LooseNotEqual | BinaryOp::In => true,
        _ => false,
    }
}

/// The source symbol of a binary operator.
pub open spec fn binary_symbol(op: BinaryOp) -> Seq<char> {
    match op {
        BinaryOp::Add => "+"@,
        BinaryOp::Subtract => "-"@,
        BinaryOp::Multiply => "*"@,
        BinaryOp::Divide => "/"@,
        BinaryOp::Remainder => "%"@,
        BinaryOp::Exponent => "**"@,
        BinaryOp::BitAnd => "&"@,
        BinaryOp::BitOr => "|"@,
        BinaryOp::BitXor => "^"@,
        BinaryOp::ShiftLeft => "<<"@,
        BinaryOp::ShiftRight => ">>"@,
        BinaryOp::UnsignedShiftRight => ">>>"@,
        BinaryOp::InstanceOf => "instanceof"@,
        BinaryOp::LooseEqual => "=="@,
        BinaryOp::LooseNotEqual => "!="@,
        BinaryOp::In => "in"@,
    }
}

impl BinaryOp {
    /// Whether the result is always a number, which codegen needs to know before it can
    /// emit a float instruction. Listed rather than negated, so a new operator has to be
    /// classified.
    pub fn is_always_numeric(self) -> (numeric: bool)
        ensures
            numeric == always_numeric(self),
    {
        match self {
            BinaryOp::Subtract | BinaryOp::Multiply | BinaryOp::Divide | BinaryOp::Remainder
            | BinaryOp::Exponent | BinaryOp::BitAnd | BinaryOp::BitOr | BinaryOp::BitXor
            | BinaryOp::ShiftLeft | BinaryOp::ShiftRight | BinaryOp::UnsignedShiftRight => true,
            _ => false,
        }
    }

    /// Whether the result is always a boolean.
    pub fn is_always_boolean(self) -> (boolean: bool)
        ensures
            boolean == always_boolean(self),
    {
        match self {
            BinaryOp::InstanceOf | BinaryOp::LooseEqual | BinaryOp::LooseNotEqual | BinaryOp::In => true,
            _ => false,
        }
    }

    /// The symbol, for the text dump.
    pub fn symbol(self) -> (symbol: &'static str)
        ensures
            symbol@ == binary_symbol(self),
    {
        match self {
            BinaryOp::Add => "+",
            BinaryOp::Subtract => "-",
            BinaryOp::Multiply => "*",
            BinaryOp::Divide => "/",
            BinaryOp::Remainder => "%",
            BinaryOp::Exponent => "**",
            BinaryOp::BitAnd => "&",
            BinaryOp::BitOr => "|",
            BinaryOp::BitXor => "^",
            BinaryOp::ShiftLeft => "<<",
            BinaryOp::ShiftRight => ">>",
            BinaryOp::UnsignedShiftRight => ">>>",
            BinaryOp::InstanceOf => "instanceof",
            BinaryOp::LooseEqual => "==",
            BinaryOp::LooseNotEqual => "!=",
            BinaryOp::In => "in",
        }
    }
}

/// Operators taking one operand.
#[derive(Clone, Copy, Debug, PartialEq, Eq, Structural)]
pub enum UnaryOp {
    /// `-`.
    Negate,
    /// `+`: `ToNumber`.
    ToNumber,
    /// `!`.
    Not,
    /// `~`, on int32.
    BitNot,
    /// `typeof`.
    TypeOf,
    /// `void`.
    Void,
    /// `throw`: records the operand as the value in flight and yields the exception signal.
    Throw,
    /// Whether the operand is the exception signal rather than a value.
    IsException,
}

/// The source symbol of a unary operator.
pub open spec fn unary_symbol(op: UnaryOp) -> Seq<char> {
    match op {
        UnaryOp::Negate => "-"@,
        UnaryOp::ToNumber => "+"@,
        UnaryOp::Not => "!"@,
        UnaryOp::BitNot => "~"@,
        UnaryOp::TypeOf => "typeof"@,
        UnaryOp::Void => "void"@,
        UnaryOp::Throw => "throw"@,
        UnaryOp::IsException => "is-exception"@,
    }
}

impl UnaryOp {
    /// The symbol, for the text dump.
    pub fn symbol(self) -> (symbol: &'static str)
        ensures
            symbol@ == unary_symbol(self),
    {
        match self {
            UnaryOp::Negate => "-",
            UnaryOp::ToNumber => "+",
            UnaryOp::Not => "!",
            UnaryOp::BitNot => "~",
            UnaryOp::TypeOf => "typeof",
            UnaryOp::Void => "void",
            UnaryOp::Throw => "throw",
            UnaryOp::IsException => "is-exception",
        }
    }
}

/// How two values are compared.
#[derive(Clone, Copy, Debug, PartialEq, Eq, Structural)]
pub enum CompareOp {
    /// `===`.
    StrictEqual,
    /// `!==`.
    StrictNotEqual,
    /// `<`.
    Less,
    /// `<=`.
    LessEqual,
    /// `>`.
    Greater,
    /// `>=`.
    GreaterEqual,
}

/// An operation that produces a value, or has an effect, but does not end a block.
#[derive(Clone, Debug, PartialEq)]
pub enum Op {
    /// A literal.
    Const(Constant),
    /// Reads a local slot.
    Load { slot: u32 },
    /// Writes a local slot.
    Store { slot: u32, value: ValueId },
    /// Calls a value with an explicit receiver: a plain `f()` passes `undefined`.
    Call { callee: ValueId, this_value: ValueId, args: Vec<ValueId> },
    /// Reads a property.
    PropertyLoad { object: ValueId, key: PropertyKey },
    /// The names a `for-in` over `object` visits, as an array.
    Enumerate { object: ValueId },
    /// What a `for-of` over `object` walks, as something indexable.
    Iterate { object: ValueId },
    /// `/source/flags`.
    CreateRegExp { source: String, flags: String },
    /// Appends to an array being built by a literal, spreading `value` when `spread`.
    ArrayExtend { array: ValueId, value: ValueId, spread: bool },
    /// `delete object[key]`.
    Delete { object: ValueId, key: ValueId },
    /// Reads a global for `typeof`, answering `undefined` when it is absent.
    GlobalLoadOptional { name: PropertyKey },
    /// Reads a global.
    GlobalLoad { name: PropertyKey },
    /// The value a `catch` binds.
    CaughtValue,
    /// `o[k]`.
    ComputedLoad { object: ValueId, key: ValueId },
    /// `o[k] = v`.
    ComputedStore { object: ValueId, key: ValueId, value: ValueId },
    /// Writes a property.
    PropertyStore { object: ValueId, key: PropertyKey, value: ValueId },
    /// Defines an accessor property with both halves at once.
    DefineAccessor { object: ValueId, key: PropertyKey, getter: ValueId, setter: ValueId },
    /// Sets `object`'s `[[Prototype]]`.
    SetPrototype { object: ValueId, prototype: ValueId },
    /// Allocates an object.
    CreateObject { shape: ShapeId },
    /// Allocates an array.
    CreateArray { elements: Vec<ValueId> },
    /// Allocates a closure over `captures`.
    Closure { function: FunctionId, captures: Vec<ValueId> },
    /// `new callee(args)`.
    Construct { callee: ValueId, args: Vec<ValueId> },
    /// Suspends until a promise settles.
    Await { value: ValueId },
    /// Compares two values.
    Compare { op: CompareOp, left: ValueId, right: ValueId },
    /// Arithmetic or a bitwise operation.
    Binary { op: BinaryOp, left: ValueId, right: ValueId },
    /// A one-operand operator.
    Unary { op: UnaryOp, operand: ValueId },
}

/// Whether a collection can happen during `op`: the allocating operations, and those that
/// can run user code. `+` can, through `ToPrimitive`; a property read can, through a getter.
pub open spec fn collects(op: Op) -> bool {
    match op {
        Op::Call { .. } | Op::PropertyLoad { .. } | Op::PropertyStore { .. }
        | Op::DefineAccessor { .. } | Op::ComputedLoad { .. } | Op::ComputedStore { .. }
        | Op::Delete { .. } | Op::Enumerate { .. } | Op::Iterate { .. }
        | Op::CreateRegExp { .. } | Op::ArrayExtend { .. } | Op::Construct { .. }
        | Op::CreateObject { .. } | Op::CreateArray { .. } | Op::Closure { .. }
        | Op::Await { .. } => true,
        Op::Binary { op, .. } => op == BinaryOp::Add,
        _ => false,
    }
}

/// Every value `op` reads, in operand order.
pub open spec fn op_operands(op: Op) -> Seq<ValueId> {
    match op {
        Op::Const(_) | Op::Load { .. } | Op::CreateObject { .. } | Op::CreateRegExp { .. }
        | Op::CaughtValue | Op::GlobalLoad { .. } | Op::GlobalLoadOptional { .. } => Seq::empty(),
        Op::Store { value, .. } => seq![value],
        Op::Await { value } => seq![value],
        Op::Call { callee, this_value, args } => seq![callee, this_value] + args@,
        Op::PropertyLoad { object, .. } => seq![object],
        Op::Enumerate { object } => seq![object],
        Op::Iterate { object } => seq![object],
        Op::PropertyStore { object, value, .. } => seq![object, value],
        Op::SetPrototype { object, prototype } => seq![object, prototype],
        Op::DefineAccessor { object, getter, setter, .. } => seq![object, getter, setter],
        Op::ComputedLoad { object, key } => seq![object, key],
        Op::Delete { object, key } => seq![object, key],
        Op::ArrayExtend { array, value, .. } => seq![array, value],
        Op::ComputedStore { object, key, value } => seq![object, key, value],
        Op::CreateArray { elements } => elements@,
        Op::Construct { callee, args } => seq![callee] + args@,
        Op::Closure { captures, .. } => captures@,
        Op::Compare { left, right, .. } => seq![left, right],
        Op::Binary { left, right, .. } => seq![left, right],
        Op::Unary { operand, .. } => seq![operand],
    }
}

/// A copy of `ids`.
pub(crate) fn copy_ids(ids: &[ValueId]) -> (copied: Vec<ValueId>)
    ensures
        copied@ == ids@,
{
    let mut copied: Vec<ValueId> = Vec::with_capacity(ids.len());
    let mut k: usize = 0;
    while k < ids.len()
        invariant
            0 <= k <= ids@.len(),
            copied@ == ids@.subrange(0, k as int),
        decreases ids@.len() - k,
    {
        copied.push(ids[k]);
        k = k + 1;
        proof {
            assert(copied@ =~= ids@.subrange(0, k as int));
        }
    }
    proof {
        assert(ids@.subrange(0, ids@.len() as int) =~= ids@);
    }
    copied
}

/// `first` followed by a copy of `rest`.
fn prefixed(first: &[ValueId], rest: &[ValueId]) -> (all: Vec<ValueId>)
    ensures
        all@ == first@ + rest@,
{
    let mut all = copy_ids(first);
    let mut k: usize = 0;
    while k < rest.len()
        invariant
            0 <= k <= rest@.len(),
            all@ == first@ + rest@.subrange(0, k as int),
        decreases rest@.len() - k,
    {
        all.push(rest[k]);
        k = k + 1;
        proof {
            assert(all@ =~= first@ + rest@.subrange(0, k as int));
        }
    }
    proof {
        assert(rest@.subrange(0, rest@.len() as int) =~= rest@);
    }
    all
}

impl Op {
    /// Whether a collection can happen during this operation.
    pub fn can_collect(&self) -> (collects_here: bool)
        ensures
            collects_here == collects(*self),
    {
        match self {
            Op::Call { .. } | Op::PropertyLoad { .. } | Op::PropertyStore { .. }
            | Op::DefineAccessor { .. } | Op::ComputedLoad { .. } | Op::ComputedStore { .. }
            | Op::Delete { .. } | Op::Enumerate { .. } | Op::Iterate { .. }
            | Op::CreateRegExp { .. } | Op::ArrayExtend { .. } | Op::Construct { .. }
            | Op::CreateObject { .. } | Op::CreateArray { .. } | Op::Closure { .. }
            | Op::Await { .. } => true,
            Op::Binary { op, .. } => *op == BinaryOp::Add,
            _ => false,
        }
    }

    /// Every value this operation reads.
    pub fn operands(&self) -> (operands: Vec<ValueId>)
        ensures
            operands@ == op_operands(*self),
    {
        match self {
            Op::Const(_) | Op::Load { .. } | Op::CreateObject { .. } | Op::CreateRegExp { .. }
            | Op::CaughtValue | Op::GlobalLoad { .. } | Op::GlobalLoadOptional { .. } => Vec::new(),
            Op::Store { value, .. } => vec![*value],
            Op::Await { value } => vec![*value],
            Op::Call { callee, this_value, args } => prefixed(&[*callee, *this_value], args.as_slice()),
            Op::PropertyLoad { object, .. } => vec![*object],
            Op::Enumerate { object } => vec![*object],
            Op::Iterate { object } => vec![*object],
            Op::PropertyStore { object, value, .. } => vec![*object, *value],
            Op::SetPrototype { object, prototype } => vec![*object, *prototype],
            Op::DefineAccessor { object, getter, setter, .. } => vec![*object, *getter, *setter],
            Op::ComputedLoad { object, key } => vec![*object, *key],
            Op::Delete { object, key } => vec![*object, *key],
            Op::ArrayExtend { array, value, .. } => vec![*array, *value],
            Op::ComputedStore { object, key, value } => vec![*object, *key, *value],
            Op::CreateArray { elements } => copy_ids(elements.as_slice()),
            Op::Construct { callee, args } => prefixed(&[*callee], args.as_slice()),
            Op::Closure { captures, .. } => copy_ids(captures.as_slice()),
            Op::Compare { left, right, .. } => vec![*left, *right],
            Op::Binary { left, right, .. } => vec![*left, *right],
            Op::Unary { operand, .. } => vec![*operand],
        }
    }
}

/// The values that must stay reachable across an operation that can collect.
#[derive(Clone, Debug, Default, PartialEq, Eq)]
pub struct Safepoint {
    /// Values live across this point.
    pub live: Vec<ValueId>,
}

/// One instruction: an operation, what it defines, and its safepoint if it needs one.
#[derive(Clone, Debug, PartialEq)]
pub struct Instruction {
    /// The value produced, when there is one.
    pub result: Option<ValueId>,
    /// The type of `result`.
    pub ty: Type,
    /// What it does.
    pub op: Op,
    /// Present exactly when [`Op::can_collect`] is true; the verifier says so.
    pub safepoint: Option<Safepoint>,
}

/// How a block ends. Exactly one per block, by construction.
#[derive(Clone, Debug, PartialEq)]
pub enum Terminator {
    /// Unconditional branch, with arguments for the target's parameters.
    Jump { target: BlockId, args: Vec<ValueId> },
    /// Conditional branch: `then_block` when `condition` is truthy, `else_block` otherwise.
    Branch {
        condition: ValueId,
        then_block: BlockId,
        then_args: Vec<ValueId>,
        else_block: BlockId,
        else_args: Vec<ValueId>,
    },
    /// Leaves the function.
    Return(Option<ValueId>),
    /// Throws.
    Throw(ValueId),
}

/// The blocks a terminator can transfer to, in order.
pub open spec fn successors_of(terminator: Terminator) -> Seq<BlockId> {
    match terminator {
        Terminator::Jump { target, .. } => seq![target],
        Terminator::Branch { then_block, else_block, .. } => seq![then_block, else_block],
        Terminator::Return(_) | Terminator::Throw(_) => Seq::empty(),
    }
}

/// Every value a terminator reads, in order.
pub open spec fn terminator_operands(terminator: Terminator) -> Seq<ValueId> {
    match terminator {
        Terminator::Jump { args, .. } => args@,
        Terminator::Branch { condition, then_args, else_args, .. } => seq![condition] + then_args@
            + else_args@,
        Terminator::Return(Some(value)) => seq![value],
        Terminator::Return(None) => Seq::empty(),
        Terminator::Throw(value) => seq![value],
    }
}

impl Terminator {
    /// The blocks this can transfer to.
    pub fn successors(&self) -> (successors: Vec<BlockId>)
        ensures
            successors@ == successors_of(*self),
    {
        match self {
            Terminator::Jump { target, .. } => vec![*target],
            Terminator::Branch { then_block, else_block, .. } => vec![*then_block, *else_block],
            Terminator::Return(_) | Terminator::Throw(_) => Vec::new(),
        }
    }

    /// Every value this reads.
    pub fn operands(&self) -> (operands: Vec<ValueId>)
        ensures
            operands@ == terminator_operands(*self),
    {
        match self {
            Terminator::Jump { args, .. } => copy_ids(args.as_slice()),
            Terminator::Branch { condition, then_args, else_args, .. } => {
                let mut all = prefixed(&[*condition], then_args.as_slice());
                let mut k: usize = 0;
                let ghost start = all@;
                while k < else_args.len()
                    invariant
                        0 <= k <= else_args@.len(),
                        all@ == start + else_args@.subrange(0, k as int),
                    decreases else_args@.len() - k,
                {
                    all.push(else_args[k]);
                    k = k + 1;
                    proof {
                        assert(all@ =~= start + else_args@.subrange(0, k as int));
                    }
                }
                proof {
                    assert(else_args@.subrange(0, else_args@.len() as int) =~= else_args@);
                }
                all
            },
            Terminator::Return(Some(value)) => vec![*value],
            Terminator::Return(None) => Vec::new(),
            Terminator::Throw(value) => vec![*value],
        }
    }
}

/// A basic block.
#[derive(Clone, Debug, PartialEq)]
pub struct Block {
    /// Values that arrive from predecessors, with their types.
    pub params: Vec<(ValueId, Type)>,
    /// What it does.
    pub instructions: Vec<Instruction>,
    /// How it ends.
    pub terminator: Terminator,
}

/// A function in SSA form.
#[derive(Clone, Debug)]
pub struct Function {
    /// For the text dump.
    pub name: String,
    /// Slots that receive the arguments, in declaration order.
    pub parameters: Vec<u32>,
    /// Its own index in the module's function list, kept by whoever builds the module.
    /// [`crate::ir::verify_module`] does not compare it with the position: a module's
    /// closures name their targets by position, and that pairing is what it checks.
    pub id: FunctionId,
    /// The slot holding `this`, when the function binds one.
    pub this_slot: Option<u32>,
    /// The slot holding `arguments`, for a function whose body names it.
    pub arguments_slot: Option<u32>,
    /// Slots that receive the captured values, pairing by position with
    /// [`Op::Closure`]'s `captures`.
    pub captures: Vec<u32>,
    /// The first block.
    pub entry: BlockId,
    /// Every block; the index is the [`BlockId`].
    pub blocks: Vec<Block>,
    /// How many SSA values have been handed out.
    pub values: u32,
}

impl Function {
    /// An empty function with one block that returns `undefined`.
    pub fn new(name: &str) -> (function: Self)
        ensures
            function.name@ == name@,
            function.id == FunctionId(0),
            function.parameters@.len() == 0,
            function.this_slot is None,
            function.arguments_slot is None,
            function.captures@.len() == 0,
            function.entry == BlockId(0),
            function.values == 0,
            function.blocks@.len() == 1,
            function.blocks@[0].params@.len() == 0,
            function.blocks@[0].instructions@.len() == 0,
            function.blocks@[0].terminator == Terminator::Return(None),
    {
        let mut blocks: Vec<Block> = Vec::new();
        blocks.push(Block {
            params: Vec::new(),
            instructions: Vec::new(),
            terminator: Terminator::Return(None),
        });
        Function {
            id: FunctionId(0),
            name: name.to_owned(),
            parameters: Vec::new(),
            this_slot: None,
            arguments_slot: None,
            captures: Vec::new(),
            entry: BlockId(0),
            blocks,
            values: 0,
        }
    }

    /// Hands out a fresh SSA value.
    pub fn value(&mut self) -> (id: ValueId)
        requires
            old(self).values < u32::MAX,
        ensures
            id.0 == old(self).values,
            final(self).values == old(self).values + 1,
            final(self).blocks == old(self).blocks,
            final(self).entry == old(self).entry,
            final(self).captures == old(self).captures,
            final(self).name == old(self).name,
            final(self).id == old(self).id,
            final(self).parameters == old(self).parameters,
            final(self).this_slot == old(self).this_slot,
            final(self).arguments_slot == old(self).arguments_slot,
    {
        let id = ValueId(self.values);
        self.values = self.values + 1;
        id
    }

    /// Adds a block, returning its id.
    pub fn block(&mut self, block: Block) -> (id: BlockId)
        requires
            old(self).blocks@.len() <= u32::MAX,
        ensures
            id.0 == old(self).blocks@.len(),
            final(self).blocks@ == old(self).blocks@.push(block),
            final(self).values == old(self).values,
            final(self).entry == old(self).entry,
            final(self).captures == old(self).captures,
            final(self).name == old(self).name,
            final(self).id == old(self).id,
            final(self).parameters == old(self).parameters,
            final(self).this_slot == old(self).this_slot,
            final(self).arguments_slot == old(self).arguments_slot,
    {
        let id = BlockId(self.blocks.len() as u32);
        self.blocks.push(block);
        id
    }

    /// A block, if the id names one.
    pub fn get(&self, block: BlockId) -> (found: Option<&Block>)
        ensures
            match found {
                Some(found) => (block.0 as int) < self.blocks@.len() && *found
                    == self.blocks@[block.0 as int],
                None => (block.0 as int) >= self.blocks@.len(),
            },
    {
        let at = block.0 as usize;
        if at < self.blocks.len() {
            Some(&self.blocks[at])
        } else {
            None
        }
    }

    /// A block, mutably.
    pub fn get_mut(&mut self, block: BlockId) -> (found: Option<&mut Block>)
        ensures
            match found {
                Some(found) => {
                    &&& (block.0 as int) < old(self).blocks@.len()
                    &&& *found == old(self).blocks@[block.0 as int]
                    &&& final(self).blocks@ == old(self).blocks@.update(block.0 as int, *final(found))
                },
                None => {
                    &&& (block.0 as int) >= old(self).blocks@.len()
                    &&& final(self).blocks@ == old(self).blocks@
                },
            },
            final(self).values == old(self).values,
            final(self).entry == old(self).entry,
            final(self).captures == old(self).captures,
            final(self).name == old(self).name,
            final(self).id == old(self).id,
    {
        let at = block.0 as usize;
        if at < self.blocks.len() {
            Some(&mut self.blocks[at])
        } else {
            None
        }
    }
}

} // verus!
