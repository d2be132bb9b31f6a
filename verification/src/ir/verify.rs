//! The verifier.
//!
//! The shape of the IR already rules out a block with two terminators or none. What is left
//! is what a type cannot express: that a value is defined before it is used on every path,
//! that a branch's arguments match what the block it jumps to expects, and that every
//! operation which can collect carries a safepoint. Every problem is reported, not the first:
//! a malformed graph usually has one cause and several symptoms.

use std::collections::HashMap;

use vstd::prelude::*;

use crate::ir::dominance::{dominates, dominators, is_path, is_source};
use crate::ir::function::{
    collects, copy_ids, op_operands, successors_of, terminator_operands, Block, BlockId, Function,
    Instruction, Op, Terminator, ValueId,
};
use crate::ir::dump::{block_text, push_block_id, push_type, push_value, type_text, value_text};
use crate::ir::types::{subtype, Type};
use crate::text::{decimal, push_char, push_decimal};

verus! {

broadcast use vstd::std_specs::hash::group_hash_axioms;

/// Why a function is malformed.
#[derive(Clone, Debug, PartialEq, Eq, Structural)]
pub enum VerifyError {
    /// A terminator names a block that does not exist.
    NoSuchBlock { from: BlockId, target: BlockId },
    /// A value is used but never defined.
    Undefined { value: ValueId, at: BlockId },
    /// A value is defined more than once, which SSA does not allow.
    DefinedTwice { value: ValueId },
    /// A value is used somewhere its definition does not reach on every path.
    NotDominated { value: ValueId, at: BlockId },
    /// A jump passes the wrong number of arguments.
    WrongArgumentCount { from: BlockId, target: BlockId, passed: usize, expected: usize },
    /// A jump passes an argument of an incompatible type.
    WrongArgumentType {
        from: BlockId,
        target: BlockId,
        index: usize,
        passed: Type,
        expected: Type,
    },
    /// An operation that can collect has no safepoint.
    MissingSafepoint { at: BlockId, index: usize },
    /// A closure names a function that does not exist.
    NoSuchFunction { at: BlockId, function: u32 },
    /// A closure passes the wrong number of captured values.
    WrongCaptureCount { at: BlockId, function: u32, passed: usize, expected: usize },
    /// An operation that cannot collect has a safepoint anyway.
    UnexpectedSafepoint { at: BlockId, index: usize },
}

// ---- definitions --------------------------------------------------------------------------

/// One definition: the value, the block it lives in, its position there (parameters first,
/// then instructions), and its declared type.
pub type Definition = (ValueId, BlockId, usize, Type);

/// The definitions a block's parameters make.
pub open spec fn param_definitions(params: Seq<(ValueId, Type)>, home: BlockId) -> Seq<Definition> {
    Seq::new(params.len(), |k: int| (params[k].0, home, k as usize, params[k].1))
}

/// The definitions a block's instructions make, positioned after `base` parameters.
pub open spec fn result_definitions(instructions: Seq<Instruction>, home: BlockId, base: int) -> Seq<
    Definition,
>
    decreases instructions.len(),
{
    if instructions.len() == 0 {
        Seq::empty()
    } else {
        let rest = result_definitions(instructions.drop_last(), home, base);
        let last = instructions.last();
        match last.result {
            Some(value) => rest.push(
                (value, home, (base + instructions.len() - 1) as usize, last.ty),
            ),
            None => rest,
        }
    }
}

/// Every definition a block makes, in order.
pub open spec fn block_definitions(block: Block, home: BlockId) -> Seq<Definition> {
    param_definitions(block.params@, home) + result_definitions(
        block.instructions@,
        home,
        block.params@.len() as int,
    )
}

/// Every definition the first `count` blocks make, in block order.
pub open spec fn definitions_upto(blocks: Seq<Block>, count: int) -> Seq<Definition>
    decreases count,
{
    if count <= 0 {
        Seq::empty()
    } else {
        definitions_upto(blocks, count - 1) + block_definitions(
            blocks[count - 1],
            BlockId((count - 1) as u32),
        )
    }
}

/// Every definition in a function, in block order.
pub open spec fn definitions(function: Function) -> Seq<Definition> {
    definitions_upto(function.blocks@, function.blocks@.len() as int)
}

/// The last definition of `value`, which is where a later one overrides an earlier.
pub open spec fn last_definition(defs: Seq<Definition>, value: ValueId) -> Option<Definition>
    decreases defs.len(),
{
    if defs.len() == 0 {
        None
    } else if defs.last().0 == value {
        Some(defs.last())
    } else {
        last_definition(defs.drop_last(), value)
    }
}

/// A value's declared type, `Unknown` when nothing defines it.
pub open spec fn value_type(defs: Seq<Definition>, value: ValueId) -> Type {
    match last_definition(defs, value) {
        Some(def) => def.3,
        None => Type::Unknown,
    }
}

/// `DefinedTwice` for every definition of a value something earlier already defined.
pub open spec fn twice_errors(defs: Seq<Definition>) -> Seq<VerifyError>
    decreases defs.len(),
{
    if defs.len() == 0 {
        Seq::empty()
    } else {
        let rest = twice_errors(defs.drop_last());
        if last_definition(defs.drop_last(), defs.last().0) is Some {
            rest.push(VerifyError::DefinedTwice { value: defs.last().0 })
        } else {
            rest
        }
    }
}

// ---- per block ----------------------------------------------------------------------------

/// A missing safepoint on an instruction that can collect, or a safepoint on one that
/// cannot, for each instruction in order.
pub open spec fn safepoint_errors(instructions: Seq<Instruction>, at: BlockId) -> Seq<VerifyError>
    decreases instructions.len(),
{
    if instructions.len() == 0 {
        Seq::empty()
    } else {
        let rest = safepoint_errors(instructions.drop_last(), at);
        let last = instructions.last();
        let index = (instructions.len() - 1) as usize;
        if collects(last.op) && last.safepoint is None {
            rest.push(VerifyError::MissingSafepoint { at, index })
        } else if !collects(last.op) && last.safepoint is Some {
            rest.push(VerifyError::UnexpectedSafepoint { at, index })
        } else {
            rest
        }
    }
}

/// A use: the value, and its position in the block, or `None` for the terminator, which
/// runs after everything in the block.
pub type Use = (ValueId, Option<usize>);

/// `values`, each used at `position`.
pub open spec fn uses_at(values: Seq<ValueId>, position: Option<usize>) -> Seq<Use> {
    Seq::new(values.len(), |k: int| (values[k], position))
}

/// What one instruction reads: its operands, then its safepoint's live values.
pub open spec fn instruction_uses(instruction: Instruction, position: usize) -> Seq<Use> {
    uses_at(op_operands(instruction.op), Some(position)) + match instruction.safepoint {
        Some(safepoint) => uses_at(safepoint.live@, Some(position)),
        None => Seq::empty(),
    }
}

/// What a block's instructions read, positioned after `base` parameters.
pub open spec fn instructions_uses(instructions: Seq<Instruction>, base: int) -> Seq<Use>
    decreases instructions.len(),
{
    if instructions.len() == 0 {
        Seq::empty()
    } else {
        instructions_uses(instructions.drop_last(), base) + instruction_uses(
            instructions.last(),
            (base + instructions.len() - 1) as usize,
        )
    }
}

/// Everything a block reads, in order, the terminator last.
pub open spec fn block_uses(block: Block) -> Seq<Use> {
    instructions_uses(block.instructions@, block.params@.len() as int) + uses_at(
        terminator_operands(block.terminator),
        None,
    )
}

/// What is wrong with one use in block `at`: nothing defines the value, or its definition
/// does not come first in the same block, or does not dominate this one.
pub open spec fn use_error(function: Function, defs: Seq<Definition>, at: BlockId, used: Use) -> Seq<
    VerifyError,
> {
    match last_definition(defs, used.0) {
        None => seq![VerifyError::Undefined { value: used.0, at }],
        Some(def) => if def.1 == at {
            match used.1 {
                Some(position) => if def.2 >= position {
                    seq![VerifyError::NotDominated { value: used.0, at }]
                } else {
                    Seq::empty()
                },
                None => Seq::empty(),
            }
        } else if !dominates(function, def.1.0 as int, at.0 as int) {
            seq![VerifyError::NotDominated { value: used.0, at }]
        } else {
            Seq::empty()
        },
    }
}

/// The use errors of `uses`, in order.
pub open spec fn use_errors(function: Function, defs: Seq<Definition>, at: BlockId, uses: Seq<Use>) -> Seq<
    VerifyError,
>
    decreases uses.len(),
{
    if uses.len() == 0 {
        Seq::empty()
    } else {
        use_errors(function, defs, at, uses.drop_last()) + use_error(function, defs, at, uses.last())
    }
}

/// `NoSuchBlock` for each successor that names no block.
pub open spec fn missing_blocks(count: int, from: BlockId, targets: Seq<BlockId>) -> Seq<VerifyError>
    decreases targets.len(),
{
    if targets.len() == 0 {
        Seq::empty()
    } else {
        let rest = missing_blocks(count, from, targets.drop_last());
        if targets.last().0 as int >= count {
            rest.push(VerifyError::NoSuchBlock { from, target: targets.last() })
        } else {
            rest
        }
    }
}

/// The `(target, arguments)` pairs a terminator produces.
pub open spec fn edges_of(terminator: Terminator) -> Seq<(BlockId, Seq<ValueId>)> {
    match terminator {
        Terminator::Jump { target, args } => seq![(target, args@)],
        Terminator::Branch { then_block, then_args, else_block, else_args, .. } => seq![
            (then_block, then_args@),
            (else_block, else_args@),
        ],
        Terminator::Return(_) | Terminator::Throw(_) => Seq::empty(),
    }
}

/// `WrongArgumentType` for each of the first `count` arguments whose declared type is not
/// a subtype of its parameter's.
pub open spec fn argument_type_errors(
    defs: Seq<Definition>,
    from: BlockId,
    target: BlockId,
    args: Seq<ValueId>,
    params: Seq<(ValueId, Type)>,
    count: int,
) -> Seq<VerifyError>
    decreases count,
{
    if count <= 0 {
        Seq::empty()
    } else {
        let rest = argument_type_errors(defs, from, target, args, params, count - 1);
        let k = count - 1;
        let passed = value_type(defs, args[k]);
        if !subtype(passed, params[k].1) {
            rest.push(
                VerifyError::WrongArgumentType {
                    from,
                    target,
                    index: k as usize,
                    passed,
                    expected: params[k].1,
                },
            )
        } else {
            rest
        }
    }
}

/// What is wrong with one edge: nothing when the target does not exist (that is reported
/// as `NoSuchBlock`), the count when it differs, or else each argument of the wrong type.
pub open spec fn edge_error(function: Function, defs: Seq<Definition>, from: BlockId, edge: (BlockId, Seq<ValueId>)) -> Seq<
    VerifyError,
> {
    let target = edge.0;
    let args = edge.1;
    if target.0 as int >= function.blocks@.len() {
        Seq::empty()
    } else {
        let params = function.blocks@[target.0 as int].params@;
        if args.len() != params.len() {
            seq![
                VerifyError::WrongArgumentCount {
                    from,
                    target,
                    passed: args.len() as usize,
                    expected: params.len() as usize,
                },
            ]
        } else {
            argument_type_errors(defs, from, target, args, params, args.len() as int)
        }
    }
}

/// The edge errors of `edges`, in order.
pub open spec fn edge_errors(function: Function, defs: Seq<Definition>, from: BlockId, edges: Seq<(BlockId, Seq<ValueId>)>) -> Seq<
    VerifyError,
>
    decreases edges.len(),
{
    if edges.len() == 0 {
        Seq::empty()
    } else {
        edge_errors(function, defs, from, edges.drop_last()) + edge_error(function, defs, from, edges.last())
    }
}

/// Everything wrong with block `raw`: safepoints, then uses, then missing targets, then
/// edges.
pub open spec fn block_errors(function: Function, defs: Seq<Definition>, raw: int) -> Seq<VerifyError> {
    let block = function.blocks@[raw];
    let at = BlockId(raw as u32);
    safepoint_errors(block.instructions@, at) + use_errors(function, defs, at, block_uses(block))
        + missing_blocks(function.blocks@.len() as int, at, successors_of(block.terminator))
        + edge_errors(function, defs, at, edges_of(block.terminator))
}

/// The errors of the first `count` blocks, in block order.
pub open spec fn blocks_errors_upto(function: Function, defs: Seq<Definition>, count: int) -> Seq<VerifyError>
    decreases count,
{
    if count <= 0 {
        Seq::empty()
    } else {
        blocks_errors_upto(function, defs, count - 1) + block_errors(function, defs, count - 1)
    }
}

/// Every problem with a function, in the order the verifier reports them: values defined
/// twice, then each block's problems in block order.
pub open spec fn verify_errors(function: Function) -> Seq<VerifyError> {
    twice_errors(definitions(function)) + blocks_errors_upto(
        function,
        definitions(function),
        function.blocks@.len() as int,
    )
}

/// What the verifier needs to count positions and blocks without overflow.
pub open spec fn countable(function: Function) -> bool {
    &&& function.blocks@.len() <= u32::MAX + 1
    &&& forall|b: int|
        0 <= b < function.blocks@.len() ==> (#[trigger] function.blocks@[b]).params@.len()
            + function.blocks@[b].instructions@.len() < usize::MAX
}


// ---- where each value is defined ----------------------------------------------------------

/// What the verifier remembers of a value's last definition: its block, its position there
/// and its type.
type Home = (BlockId, usize, Type);

/// `homes` holds, for every value that `defs` defines, its last definition.
spec fn tracks(homes: Map<u32, Home>, defs: Seq<Definition>) -> bool {
    forall|v: u32|
        #![trigger homes.contains_key(v)]
        #![trigger last_definition(defs, ValueId(v))]
        (homes.contains_key(v) <==> last_definition(defs, ValueId(v)) is Some) && (
        homes.contains_key(v) ==> {
            let def = last_definition(defs, ValueId(v))->0;
            homes[v] == (def.1, def.2, def.3)
        })
}

/// Every remembered block is one of the first `count`.
spec fn homes_within(homes: Map<u32, Home>, count: int) -> bool {
    forall|v: u32| #[trigger] homes.contains_key(v) ==> (homes[v].0.0 as int) < count
}

proof fn lemma_last_definition_push(defs: Seq<Definition>, def: Definition, value: ValueId)
    ensures
        last_definition(defs.push(def), value) == if def.0 == value {
            Some(def)
        } else {
            last_definition(defs, value)
        },
{
    assert(defs.push(def).drop_last() =~= defs);
}

proof fn lemma_last_definition_names(defs: Seq<Definition>, value: ValueId)
    ensures
        last_definition(defs, value) matches Some(def) ==> def.0 == value,
    decreases defs.len(),
{
    if defs.len() > 0 {
        lemma_last_definition_names(defs.drop_last(), value);
    }
}

/// Remembers `def`, reporting it when its value was already defined.
fn record(
    homes: &mut HashMap<u32, Home>,
    errors: &mut Vec<VerifyError>,
    Ghost(defs): Ghost<Seq<Definition>>,
    def: Definition,
)
    requires
        tracks(old(homes)@, defs),
        old(errors)@ == twice_errors(defs),
    ensures
        tracks(final(homes)@, defs.push(def)),
        final(errors)@ == twice_errors(defs.push(def)),
        final(homes)@ == old(homes)@.insert(def.0.0, (def.1, def.2, def.3)),
{
    let (value, home, position, ty) = def;
    let earlier = homes.insert(value.0, (home, position, ty));
    proof {
        assert(defs.push(def).drop_last() =~= defs);
        assert(old(homes)@.contains_key(value.0) == (last_definition(defs, ValueId(value.0)) is Some));
        assert forall|v: u32|
            #![trigger final(homes)@.contains_key(v)]
            #![trigger last_definition(defs.push(def), ValueId(v))]
            (final(homes)@.contains_key(v) <==> last_definition(defs.push(def), ValueId(v)) is Some) && (
            final(homes)@.contains_key(v) ==> {
                let d = last_definition(defs.push(def), ValueId(v))->0;
                final(homes)@[v] == (d.1, d.2, d.3)
            }) by {
            lemma_last_definition_push(defs, def, ValueId(v));
            assert(old(homes)@.contains_key(v) == (last_definition(defs, ValueId(v)) is Some));
        }
    }
    if earlier.is_some() {
        errors.push(VerifyError::DefinedTwice { value });
    }
}

/// Every definition in `function`, each value's last one remembered, with a `DefinedTwice`
/// for each that repeats an earlier value.
fn collect_definitions(function: &Function) -> (found: (HashMap<u32, Home>, Vec<VerifyError>))
    requires
        countable(*function),
    ensures
        tracks(found.0@, definitions(*function)),
        homes_within(found.0@, function.blocks@.len() as int),
        found.1@ == twice_errors(definitions(*function)),
{
    let mut homes: HashMap<u32, Home> = HashMap::new();
    let mut errors: Vec<VerifyError> = Vec::new();
    let ghost blocks = function.blocks@;
    let ghost mut defs: Seq<Definition> = Seq::empty();
    let mut raw: usize = 0;
    while raw < function.blocks.len()
        invariant
            raw <= blocks.len(),
            blocks == function.blocks@,
            countable(*function),
            defs == definitions_upto(blocks, raw as int),
            tracks(homes@, defs),
            homes_within(homes@, blocks.len() as int),
            errors@ == twice_errors(defs),
        decreases blocks.len() - raw,
    {
        let block = &function.blocks[raw];
        let id = BlockId(raw as u32);
        let ghost before = defs;
        let ghost params = block.params@;
        let ghost instructions = block.instructions@;
        assert(params.len() + instructions.len() < usize::MAX) by {
            assert(blocks[raw as int] == *block);
        }
        let mut k: usize = 0;
        while k < block.params.len()
            invariant
                k <= params.len(),
                params == block.params@,
                raw < blocks.len(),
                id.0 as int == raw as int,
                defs == before + param_definitions(params, id).take(k as int),
                tracks(homes@, defs),
                homes_within(homes@, blocks.len() as int),
                errors@ == twice_errors(defs),
            decreases params.len() - k,
        {
            let (value, ty) = block.params[k];
            record(&mut homes, &mut errors, Ghost(defs), (value, id, k, ty));
            proof {
                assert(param_definitions(params, id).take(k as int + 1) =~= param_definitions(
                    params,
                    id,
                ).take(k as int).push((value, id, k, ty)));
                defs = defs.push((value, id, k, ty));
            }
            k = k + 1;
        }
        let ghost middle = defs;
        proof {
            assert(param_definitions(params, id).take(params.len() as int) =~= param_definitions(
                params,
                id,
            ));
        }
        let base = block.params.len();
        let mut k: usize = 0;
        while k < block.instructions.len()
            invariant
                k <= instructions.len(),
                instructions == block.instructions@,
                base == params.len(),
                base + instructions.len() < usize::MAX,
                raw < blocks.len(),
                id.0 as int == raw as int,
                defs == middle + result_definitions(instructions.take(k as int), id, base as int),
                tracks(homes@, defs),
                homes_within(homes@, blocks.len() as int),
                errors@ == twice_errors(defs),
            decreases instructions.len() - k,
        {
            let instruction = &block.instructions[k];
            proof {
                assert(instructions.take(k as int + 1).drop_last() =~= instructions.take(k as int));
                assert(instructions.take(k as int + 1).last() == instructions[k as int]);
            }
            if let Some(value) = instruction.result {
                let position = base + k;
                record(&mut homes, &mut errors, Ghost(defs), (value, id, position, instruction.ty));
                proof {
                    defs = defs.push((value, id, position, instruction.ty));
                }
            }
            k = k + 1;
        }
        proof {
            assert(instructions.take(instructions.len() as int) =~= instructions);
            assert(blocks[raw as int] == *block);
            assert(definitions_upto(blocks, raw as int + 1) =~= definitions_upto(blocks, raw as int)
                + block_definitions(*block, id));
            assert(defs =~= definitions_upto(blocks, raw as int + 1));
        }
        raw = raw + 1;
    }
    (homes, errors)
}


// ---- the per-block checks -----------------------------------------------------------------

/// Appends the safepoint errors of `instructions`.
fn check_safepoints(instructions: &Vec<Instruction>, at: BlockId, errors: &mut Vec<VerifyError>)
    ensures
        final(errors)@ == old(errors)@ + safepoint_errors(instructions@, at),
{
    let ghost start = errors@;
    let mut k: usize = 0;
    while k < instructions.len()
        invariant
            k <= instructions@.len(),
            errors@ == start + safepoint_errors(instructions@.take(k as int), at),
        decreases instructions@.len() - k,
    {
        let instruction = &instructions[k];
        proof {
            assert(instructions@.take(k as int + 1).drop_last() =~= instructions@.take(k as int));
            assert(instructions@.take(k as int + 1).last() == instructions@[k as int]);
        }
        let collects_here = instruction.op.can_collect();
        if collects_here && instruction.safepoint.is_none() {
            errors.push(VerifyError::MissingSafepoint { at, index: k });
        } else if !collects_here && instruction.safepoint.is_some() {
            errors.push(VerifyError::UnexpectedSafepoint { at, index: k });
        }
        k = k + 1;
    }
    proof {
        assert(instructions@.take(instructions@.len() as int) =~= instructions@);
    }
}

/// Appends each of `values`, used at `position`.
fn push_uses(uses: &mut Vec<Use>, values: &Vec<ValueId>, position: Option<usize>)
    ensures
        final(uses)@ == old(uses)@ + uses_at(values@, position),
{
    let ghost start = uses@;
    let mut k: usize = 0;
    while k < values.len()
        invariant
            k <= values@.len(),
            uses@ == start + uses_at(values@.take(k as int), position),
        decreases values@.len() - k,
    {
        uses.push((values[k], position));
        k = k + 1;
        proof {
            assert(uses@ =~= start + uses_at(values@.take(k as int), position));
        }
    }
    proof {
        assert(values@.take(values@.len() as int) =~= values@);
    }
}

/// Everything `block` reads, in order, the terminator last.
fn uses_of(block: &Block) -> (uses: Vec<Use>)
    requires
        block.params@.len() + block.instructions@.len() < usize::MAX,
    ensures
        uses@ == block_uses(*block),
{
    let mut uses: Vec<Use> = Vec::new();
    let base = block.params.len();
    let ghost instructions = block.instructions@;
    let mut k: usize = 0;
    while k < block.instructions.len()
        invariant
            k <= instructions.len(),
            instructions == block.instructions@,
            base == block.params@.len(),
            base + instructions.len() < usize::MAX,
            uses@ == instructions_uses(instructions.take(k as int), base as int),
        decreases instructions.len() - k,
    {
        let instruction = &block.instructions[k];
        let position = base + k;
        let ghost before = uses@;
        let operands = instruction.op.operands();
        push_uses(&mut uses, &operands, Some(position));
        match &instruction.safepoint {
            Some(safepoint) => push_uses(&mut uses, &safepoint.live, Some(position)),
            None => {},
        }
        proof {
            assert(instructions.take(k as int + 1).drop_last() =~= instructions.take(k as int));
            assert(instructions.take(k as int + 1).last() == instructions[k as int]);
            assert(uses@ =~= before + instruction_uses(*instruction, position));
        }
        k = k + 1;
    }
    proof {
        assert(instructions.take(instructions.len() as int) =~= instructions);
    }
    let operands = block.terminator.operands();
    push_uses(&mut uses, &operands, None);
    uses
}

/// Appends the use errors of `uses` in block `at`, given where each value is defined and
/// which blocks dominate which.
fn check_uses(
    function: &Function,
    homes: &HashMap<u32, Home>,
    sets: &Vec<Vec<bool>>,
    Ghost(defs): Ghost<Seq<Definition>>,
    at: BlockId,
    uses: &Vec<Use>,
    errors: &mut Vec<VerifyError>,
)
    requires
        tracks(homes@, defs),
        homes_within(homes@, function.blocks@.len() as int),
        (at.0 as int) < function.blocks@.len(),
        sets@.len() == function.blocks@.len(),
        forall|b: int|
            0 <= b < function.blocks@.len() ==> (#[trigger] sets@[b])@.len()
                == function.blocks@.len(),
        forall|b: int, d: int|
            0 <= b < function.blocks@.len() && 0 <= d < function.blocks@.len() ==> (
            #[trigger] sets@[b]@[d] == dominates(*function, d, b)),
    ensures
        final(errors)@ == old(errors)@ + use_errors(*function, defs, at, uses@),
{
    let ghost start = errors@;
    let mut k: usize = 0;
    while k < uses.len()
        invariant
            k <= uses@.len(),
            tracks(homes@, defs),
            homes_within(homes@, function.blocks@.len() as int),
            (at.0 as int) < function.blocks@.len(),
            sets@.len() == function.blocks@.len(),
            forall|b: int|
                0 <= b < function.blocks@.len() ==> (#[trigger] sets@[b])@.len()
                    == function.blocks@.len(),
            forall|b: int, d: int|
                0 <= b < function.blocks@.len() && 0 <= d < function.blocks@.len() ==> (
                #[trigger] sets@[b]@[d] == dominates(*function, d, b)),
            errors@ == start + use_errors(*function, defs, at, uses@.take(k as int)),
        decreases uses@.len() - k,
    {
        let (value, position) = uses[k];
        proof {
            assert(uses@.take(k as int + 1).drop_last() =~= uses@.take(k as int));
            assert(uses@.take(k as int + 1).last() == uses@[k as int]);
            assert(homes@.contains_key(value.0) == (last_definition(defs, ValueId(value.0)) is Some));
        }
        let ghost before = errors@;
        match homes.get(&value.0) {
            None => {
                errors.push(VerifyError::Undefined { value, at });
            },
            Some(home) => {
                let (block, def_at, _) = *home;
                if block.0 == at.0 {
                    match position {
                        Some(use_at) => {
                            if def_at >= use_at {
                                errors.push(VerifyError::NotDominated { value, at });
                            }
                        },
                        None => {},
                    }
                } else if !sets[at.0 as usize][block.0 as usize] {
                    errors.push(VerifyError::NotDominated { value, at });
                }
            },
        }
        proof {
            assert(errors@ =~= before + use_error(*function, defs, at, (value, position)));
        }
        k = k + 1;
    }
    proof {
        assert(uses@.take(uses@.len() as int) =~= uses@);
    }
}

/// Appends a `NoSuchBlock` for each of `targets` that names no block of `function`.
fn check_targets(
    function: &Function,
    from: BlockId,
    targets: &Vec<BlockId>,
    errors: &mut Vec<VerifyError>,
)
    ensures
        final(errors)@ == old(errors)@ + missing_blocks(
            function.blocks@.len() as int,
            from,
            targets@,
        ),
{
    let ghost start = errors@;
    let ghost count = function.blocks@.len() as int;
    let mut k: usize = 0;
    while k < targets.len()
        invariant
            k <= targets@.len(),
            count == function.blocks@.len(),
            errors@ == start + missing_blocks(count, from, targets@.take(k as int)),
        decreases targets@.len() - k,
    {
        let target = targets[k];
        proof {
            assert(targets@.take(k as int + 1).drop_last() =~= targets@.take(k as int));
            assert(targets@.take(k as int + 1).last() == targets@[k as int]);
        }
        if function.get(target).is_none() {
            errors.push(VerifyError::NoSuchBlock { from, target });
        }
        k = k + 1;
    }
    proof {
        assert(targets@.take(targets@.len() as int) =~= targets@);
    }
}


/// The `(target, arguments)` pairs `terminator` produces.
fn edges(terminator: &Terminator) -> (found: Vec<(BlockId, Vec<ValueId>)>)
    ensures
        found@.len() == edges_of(*terminator).len(),
        forall|k: int|
            0 <= k < found@.len() ==> (#[trigger] found@[k]).0 == edges_of(*terminator)[k].0
                && found@[k].1@ == edges_of(*terminator)[k].1,
{
    match terminator {
        Terminator::Jump { target, args } => {
            let mut found: Vec<(BlockId, Vec<ValueId>)> = Vec::new();
            found.push((*target, copy_ids(args.as_slice())));
            found
        },
        Terminator::Branch { then_block, then_args, else_block, else_args, .. } => {
            let mut found: Vec<(BlockId, Vec<ValueId>)> = Vec::new();
            found.push((*then_block, copy_ids(then_args.as_slice())));
            found.push((*else_block, copy_ids(else_args.as_slice())));
            found
        },
        Terminator::Return(_) | Terminator::Throw(_) => Vec::new(),
    }
}

/// A value's declared type, `Unknown` when nothing defines it.
fn type_of_value(homes: &HashMap<u32, Home>, Ghost(defs): Ghost<Seq<Definition>>, value: ValueId) -> (ty: Type)
    requires
        tracks(homes@, defs),
    ensures
        ty == value_type(defs, value),
{
    proof {
        assert(homes@.contains_key(value.0) == (last_definition(defs, ValueId(value.0)) is Some));
    }
    match homes.get(&value.0) {
        Some(home) => home.2,
        None => Type::Unknown,
    }
}

/// Appends the errors of one edge out of block `from`.
fn check_edge(
    function: &Function,
    homes: &HashMap<u32, Home>,
    Ghost(defs): Ghost<Seq<Definition>>,
    from: BlockId,
    target: BlockId,
    args: &Vec<ValueId>,
    errors: &mut Vec<VerifyError>,
)
    requires
        tracks(homes@, defs),
    ensures
        final(errors)@ == old(errors)@ + edge_error(*function, defs, from, (target, args@)),
{
    let destination = match function.get(target) {
        Some(destination) => destination,
        None => {
            return;
        },
    };
    if args.len() != destination.params.len() {
        errors.push(
            VerifyError::WrongArgumentCount {
                from,
                target,
                passed: args.len(),
                expected: destination.params.len(),
            },
        );
        return;
    }
    let ghost start = errors@;
    let ghost params = destination.params@;
    let mut k: usize = 0;
    while k < args.len()
        invariant
            k <= args@.len(),
            args@.len() == params.len(),
            params == destination.params@,
            tracks(homes@, defs),
            errors@ == start + argument_type_errors(defs, from, target, args@, params, k as int),
        decreases args@.len() - k,
    {
        let passed = type_of_value(homes, Ghost(defs), args[k]);
        let expected = destination.params[k].1;
        if !passed.is_subtype_of(expected) {
            errors.push(
                VerifyError::WrongArgumentType { from, target, index: k, passed, expected },
            );
        }
        k = k + 1;
    }
}

/// Appends the errors of every edge out of block `from`.
fn check_edges(
    function: &Function,
    homes: &HashMap<u32, Home>,
    Ghost(defs): Ghost<Seq<Definition>>,
    from: BlockId,
    terminator: &Terminator,
    errors: &mut Vec<VerifyError>,
)
    requires
        tracks(homes@, defs),
    ensures
        final(errors)@ == old(errors)@ + edge_errors(*function, defs, from, edges_of(*terminator)),
{
    let found = edges(terminator);
    let ghost all = edges_of(*terminator);
    let ghost start = errors@;
    let mut k: usize = 0;
    while k < found.len()
        invariant
            k <= found@.len(),
            found@.len() == all.len(),
            forall|j: int|
                0 <= j < found@.len() ==> (#[trigger] found@[j]).0 == all[j].0 && found@[j].1@
                    == all[j].1,
            tracks(homes@, defs),
            errors@ == start + edge_errors(*function, defs, from, all.take(k as int)),
        decreases found@.len() - k,
    {
        let edge = &found[k];
        proof {
            assert(all.take(k as int + 1).drop_last() =~= all.take(k as int));
            assert(all.take(k as int + 1).last() == all[k as int]);
            assert(found@[k as int].0 == all[k as int].0);
            assert((edge.0, edge.1@) == all[k as int]);
        }
        let ghost before = errors@;
        check_edge(function, homes, Ghost(defs), from, edge.0, &edge.1, errors);
        proof {
            assert(errors@ =~= before + edge_error(*function, defs, from, all[k as int]));
        }
        k = k + 1;
    }
    proof {
        assert(all.take(all.len() as int) =~= all);
    }
}

// ---- the verifier -------------------------------------------------------------------------

/// Checks a function, returning every problem found, in the order `verify_errors` gives.
///
/// Every problem, not the first: a malformed graph usually has one cause and several
/// symptoms, and stopping at the first makes the cause the hardest one to see.
pub fn verify(function: &Function) -> (result: Result<(), Vec<VerifyError>>)
    requires
        countable(*function),
    ensures
        result is Ok <==> verify_errors(*function).len() == 0,
        result matches Err(errors) ==> errors@ == verify_errors(*function),
{
    let (homes, mut errors) = collect_definitions(function);
    let ghost defs = definitions(*function);
    let sets = dominators(function);
    let ghost blocks = function.blocks@;
    let mut raw: usize = 0;
    while raw < function.blocks.len()
        invariant
            raw <= blocks.len(),
            blocks == function.blocks@,
            countable(*function),
            tracks(homes@, defs),
            homes_within(homes@, blocks.len() as int),
            sets@.len() == blocks.len(),
            forall|b: int| 0 <= b < blocks.len() ==> (#[trigger] sets@[b])@.len() == blocks.len(),
            forall|b: int, d: int|
                0 <= b < blocks.len() && 0 <= d < blocks.len() ==> (#[trigger] sets@[b]@[d]
                    == dominates(*function, d, b)),
            errors@ == twice_errors(defs) + blocks_errors_upto(*function, defs, raw as int),
        decreases blocks.len() - raw,
    {
        let block = &function.blocks[raw];
        let id = BlockId(raw as u32);
        proof {
            assert(blocks[raw as int] == *block);
        }
        let ghost before = errors@;
        check_safepoints(&block.instructions, id, &mut errors);
        let uses = uses_of(block);
        check_uses(function, &homes, &sets, Ghost(defs), id, &uses, &mut errors);
        let targets = block.terminator.successors();
        check_targets(function, id, &targets, &mut errors);
        check_edges(function, &homes, Ghost(defs), id, &block.terminator, &mut errors);
        proof {
            assert(errors@ =~= before + block_errors(*function, defs, raw as int));
            assert(blocks_errors_upto(*function, defs, raw as int + 1) =~= blocks_errors_upto(
                *function,
                defs,
                raw as int,
            ) + block_errors(*function, defs, raw as int));
            assert(errors@ =~= twice_errors(defs) + blocks_errors_upto(
                *function,
                defs,
                raw as int + 1,
            ));
        }
        raw = raw + 1;
    }
    if errors.len() == 0 {
        Ok(())
    } else {
        Err(errors)
    }
}


// ---- modules ------------------------------------------------------------------------------

/// The closure errors of `instructions` in block `at`: a closure over a function the module
/// does not have, or one passing a different number of captures than that function takes.
pub open spec fn closure_errors(functions: Seq<Function>, instructions: Seq<Instruction>, at: BlockId) -> Seq<
    VerifyError,
>
    decreases instructions.len(),
{
    if instructions.len() == 0 {
        Seq::empty()
    } else {
        let rest = closure_errors(functions, instructions.drop_last(), at);
        match instructions.last().op {
            Op::Closure { function: target, captures } => if target.0 as int >= functions.len() {
                rest.push(VerifyError::NoSuchFunction { at, function: target.0 })
            } else if captures@.len() != functions[target.0 as int].captures@.len() {
                rest.push(
                    VerifyError::WrongCaptureCount {
                        at,
                        function: target.0,
                        passed: captures@.len() as usize,
                        expected: functions[target.0 as int].captures@.len() as usize,
                    },
                )
            } else {
                rest
            },
            _ => rest,
        }
    }
}

/// The closure errors of the first `count` blocks of `blocks`, in block order.
pub open spec fn blocks_closure_errors(functions: Seq<Function>, blocks: Seq<Block>, count: int) -> Seq<
    VerifyError,
>
    decreases count,
{
    if count <= 0 {
        Seq::empty()
    } else {
        blocks_closure_errors(functions, blocks, count - 1) + closure_errors(
            functions,
            blocks[count - 1].instructions@,
            BlockId((count - 1) as u32),
        )
    }
}

/// The closure errors of the first `count` functions, in order.
pub open spec fn module_closure_errors(functions: Seq<Function>, count: int) -> Seq<VerifyError>
    decreases count,
{
    if count <= 0 {
        Seq::empty()
    } else {
        module_closure_errors(functions, count - 1) + blocks_closure_errors(
            functions,
            functions[count - 1].blocks@,
            functions[count - 1].blocks@.len() as int,
        )
    }
}

/// Each of the first `count` functions' own problems, in order.
pub open spec fn functions_errors(functions: Seq<Function>, count: int) -> Seq<VerifyError>
    decreases count,
{
    if count <= 0 {
        Seq::empty()
    } else {
        functions_errors(functions, count - 1) + verify_errors(functions[count - 1])
    }
}

/// Every problem with a module, in the order the module verifier reports them: each
/// function's own, then every closure that does not fit the function it closes over.
pub open spec fn module_errors(functions: Seq<Function>) -> Seq<VerifyError> {
    functions_errors(functions, functions.len() as int) + module_closure_errors(
        functions,
        functions.len() as int,
    )
}

/// Appends the closure errors of `instructions` in block `at`.
fn check_closures(
    functions: &[Function],
    instructions: &Vec<Instruction>,
    at: BlockId,
    errors: &mut Vec<VerifyError>,
)
    ensures
        final(errors)@ == old(errors)@ + closure_errors(functions@, instructions@, at),
{
    let ghost start = errors@;
    let mut k: usize = 0;
    while k < instructions.len()
        invariant
            k <= instructions@.len(),
            errors@ == start + closure_errors(functions@, instructions@.take(k as int), at),
        decreases instructions@.len() - k,
    {
        proof {
            assert(instructions@.take(k as int + 1).drop_last() =~= instructions@.take(k as int));
            assert(instructions@.take(k as int + 1).last() == instructions@[k as int]);
        }
        match &instructions[k].op {
            Op::Closure { function: target, captures } => {
                let index = target.0 as usize;
                if index >= functions.len() {
                    errors.push(VerifyError::NoSuchFunction { at, function: target.0 });
                } else if captures.len() != functions[index].captures.len() {
                    errors.push(
                        VerifyError::WrongCaptureCount {
                            at,
                            function: target.0,
                            passed: captures.len(),
                            expected: functions[index].captures.len(),
                        },
                    );
                }
            },
            _ => {},
        }
        k = k + 1;
    }
    proof {
        assert(instructions@.take(instructions@.len() as int) =~= instructions@);
    }
}

/// Checks a whole module: every function, plus the closures, whose captures pair by position
/// with the target's [`Function::captures`] and so cannot be checked one function at a time.
/// Every problem across every function is reported, so one malformed closure does not hide
/// the rest. A function's `id` is not compared with its position: a closure names its target
/// by position, and that is what is paired here.
pub fn verify_module(functions: &[Function]) -> (result: Result<(), Vec<VerifyError>>)
    requires
        forall|f: int| 0 <= f < functions@.len() ==> countable(#[trigger] functions@[f]),
    ensures
        result is Ok <==> module_errors(functions@).len() == 0,
        result matches Err(errors) ==> errors@ == module_errors(functions@),
{
    let mut errors: Vec<VerifyError> = Vec::new();
    let mut f: usize = 0;
    while f < functions.len()
        invariant
            f <= functions@.len(),
            forall|g: int| 0 <= g < functions@.len() ==> countable(#[trigger] functions@[g]),
            errors@ == functions_errors(functions@, f as int),
        decreases functions@.len() - f,
    {
        let ghost before = errors@;
        match verify(&functions[f]) {
            Ok(()) => {},
            Err(found) => {
                let mut found = found;
                errors.append(&mut found);
            },
        }
        proof {
            assert(errors@ =~= before + verify_errors(functions@[f as int]));
        }
        f = f + 1;
    }
    let mut f: usize = 0;
    while f < functions.len()
        invariant
            f <= functions@.len(),
            forall|g: int| 0 <= g < functions@.len() ==> countable(#[trigger] functions@[g]),
            errors@ == functions_errors(functions@, functions@.len() as int)
                + module_closure_errors(functions@, f as int),
        decreases functions@.len() - f,
    {
        let function = &functions[f];
        let ghost blocks = function.blocks@;
        let ghost before = errors@;
        assert(countable(functions@[f as int]));
        let mut raw: usize = 0;
        while raw < function.blocks.len()
            invariant
                raw <= blocks.len(),
                blocks == function.blocks@,
                blocks.len() <= u32::MAX + 1,
                errors@ == before + blocks_closure_errors(functions@, blocks, raw as int),
            decreases blocks.len() - raw,
        {
            let id = BlockId(raw as u32);
            let ghost inner = errors@;
            check_closures(functions, &function.blocks[raw].instructions, id, &mut errors);
            proof {
                assert(errors@ =~= before + blocks_closure_errors(functions@, blocks, raw as int + 1));
            }
            raw = raw + 1;
        }
        proof {
            assert(errors@ =~= functions_errors(functions@, functions@.len() as int)
                + module_closure_errors(functions@, f as int + 1));
        }
        f = f + 1;
    }
    if errors.len() == 0 {
        Ok(())
    } else {
        Err(errors)
    }
}


// ---- laws ---------------------------------------------------------------------------------------

/// A function as [`Function::new`] makes it, one block that only returns, is well-formed:
/// the verifier finds nothing wrong with it.
pub proof fn law_a_new_function_verifies(function: Function)
    requires
        function.blocks@.len() == 1,
        function.blocks@[0].params@.len() == 0,
        function.blocks@[0].instructions@.len() == 0,
        function.blocks@[0].terminator == Terminator::Return(None),
    ensures
        verify_errors(function).len() == 0,
{
    let block = function.blocks@[0];
    let at = BlockId(0);
    assert(param_definitions(block.params@, at) =~= Seq::<Definition>::empty());
    assert(result_definitions(block.instructions@, at, 0) =~= Seq::<Definition>::empty());
    assert(definitions_upto(function.blocks@, 0) =~= Seq::<Definition>::empty());
    assert(definitions(function) =~= Seq::<Definition>::empty());
    assert(twice_errors(definitions(function)) =~= Seq::<VerifyError>::empty());
    assert(block_uses(block) =~= Seq::<Use>::empty());
    let defs = definitions(function);
    assert(use_errors(function, defs, at, block_uses(block)) =~= Seq::<VerifyError>::empty());
    assert(block_errors(function, defs, 0) =~= Seq::<VerifyError>::empty());
    assert(blocks_errors_upto(function, defs, 0) =~= Seq::<VerifyError>::empty());
    assert(blocks_errors_upto(function, defs, 1) =~= Seq::<VerifyError>::empty());
}

/// A module is well-formed exactly when every function in it is and every closure fits the
/// function it closes over; in particular an empty module is.
pub proof fn law_a_module_verifies_when_its_parts_do(functions: Seq<Function>)
    requires
        forall|f: int| 0 <= f < functions.len() ==> verify_errors(#[trigger] functions[f]).len() == 0,
        forall|f: int|
            0 <= f < functions.len() ==> blocks_closure_errors(
                functions,
                #[trigger] functions[f].blocks@,
                functions[f].blocks@.len() as int,
            ).len() == 0,
    ensures
        module_errors(functions).len() == 0,
{
    lemma_no_function_errors(functions, functions.len() as int);
    lemma_no_closure_errors(functions, functions.len() as int);
}

proof fn lemma_no_function_errors(functions: Seq<Function>, count: int)
    requires
        count <= functions.len(),
        forall|f: int| 0 <= f < functions.len() ==> verify_errors(#[trigger] functions[f]).len() == 0,
    ensures
        functions_errors(functions, count).len() == 0,
    decreases count,
{
    if count > 0 {
        lemma_no_function_errors(functions, count - 1);
        assert(verify_errors(functions[count - 1]).len() == 0);
    }
}

proof fn lemma_no_closure_errors(functions: Seq<Function>, count: int)
    requires
        count <= functions.len(),
        forall|f: int|
            0 <= f < functions.len() ==> blocks_closure_errors(
                functions,
                #[trigger] functions[f].blocks@,
                functions[f].blocks@.len() as int,
            ).len() == 0,
    ensures
        module_closure_errors(functions, count).len() == 0,
    decreases count,
{
    if count > 0 {
        lemma_no_closure_errors(functions, count - 1);
        assert(blocks_closure_errors(
            functions,
            functions[count - 1].blocks@,
            functions[count - 1].blocks@.len() as int,
        ).len() == 0);
    }
}


// ---- uses across blocks ---------------------------------------------------------------------

/// Some walk into block `at` from a source never passes through block `home`.
pub open spec fn avoidable(function: Function, home: int, at: int) -> bool {
    exists|path: Seq<int>|
        is_path(function, path) && is_source(function, path[0]) && path.last() == at
            && !#[trigger] path.contains(home)
}

/// The block holding `value`'s last definition in `defs`, when there is one.
pub open spec fn defining_block(defs: Seq<Definition>, value: ValueId) -> BlockId {
    match last_definition(defs, value) {
        Some((_, home, _, _)) => home,
        None => BlockId(0),
    }
}

/// A value used in a block other than the one that defines it is reported as not dominated
/// exactly when some walk from a source reaches the using block without passing through the
/// defining one; when every such walk passes through it, the use is fine.
pub proof fn law_a_use_elsewhere_needs_its_definition_on_every_path(
    function: Function,
    defs: Seq<Definition>,
    at: BlockId,
    used: Use,
)
    requires
        last_definition(defs, used.0) is Some,
        defining_block(defs, used.0) != at,
    ensures
        avoidable(function, defining_block(defs, used.0).0 as int, at.0 as int) ==> use_error(
            function,
            defs,
            at,
            used,
        ) == seq![VerifyError::NotDominated { value: used.0, at }],
        !avoidable(function, defining_block(defs, used.0).0 as int, at.0 as int) ==> use_error(
            function,
            defs,
            at,
            used,
        ).len() == 0,
{
    let block = defining_block(defs, used.0);
    let home = block.0 as int;
    let here = at.0 as int;
    assert(home != here) by {
        if home == here {
            assert(block == at);
        }
    }
    if avoidable(function, home, here) {
        let path = choose|path: Seq<int>|
            is_path(function, path) && is_source(function, path[0]) && path.last() == here
                && !#[trigger] path.contains(home);
        assert(!dominates(function, home, here));
    } else {
        assert(dominates(function, home, here)) by {
            assert forall|path: Seq<int>|
                is_path(function, path) && is_source(function, path[0]) && path.last() == here
                    implies path.contains(home) by {
                if !path.contains(home) {
                    assert(avoidable(function, home, here));
                }
            }
        }
    }
}

// ---- the safepoint rule ---------------------------------------------------------------------

/// No entry of `errors` is about a safepoint.
pub open spec fn free_of_safepoint_errors(errors: Seq<VerifyError>) -> bool {
    forall|k: int|
        0 <= k < errors.len() ==> !(#[trigger] errors[k] is MissingSafepoint) && !(
        errors[k] is UnexpectedSafepoint)
}

/// An error is in a concatenation exactly when it is in one of its parts.
proof fn lemma_concat_contains(a: Seq<VerifyError>, b: Seq<VerifyError>, x: VerifyError)
    ensures
        (a + b).contains(x) <==> a.contains(x) || b.contains(x),
{
    if (a + b).contains(x) {
        let k = choose|k: int| 0 <= k < (a + b).len() && (a + b)[k] == x;
        if k >= a.len() {
            assert(b[k - a.len()] == x);
        }
    }
    if a.contains(x) {
        let k = choose|k: int| 0 <= k < a.len() && a[k] == x;
        assert((a + b)[k] == x);
    }
    if b.contains(x) {
        let k = choose|k: int| 0 <= k < b.len() && b[k] == x;
        assert((a + b)[a.len() + k] == x);
    }
}

/// A part free of safepoint errors adds none to a concatenation.
proof fn lemma_concat_free(a: Seq<VerifyError>, b: Seq<VerifyError>)
    requires
        free_of_safepoint_errors(a),
        free_of_safepoint_errors(b),
    ensures
        free_of_safepoint_errors(a + b),
{
    assert forall|k: int| 0 <= k < (a + b).len() implies !(#[trigger] (a + b)[k] is MissingSafepoint)
        && !((a + b)[k] is UnexpectedSafepoint) by {
        if k < a.len() {
            assert((a + b)[k] == a[k]);
        } else {
            assert((a + b)[k] == b[k - a.len()]);
        }
    }
}

/// A safepoint error is not in a list free of them.
proof fn lemma_free_lacks(errors: Seq<VerifyError>, x: VerifyError)
    requires
        free_of_safepoint_errors(errors),
        x is MissingSafepoint || x is UnexpectedSafepoint,
    ensures
        !errors.contains(x),
{
    if errors.contains(x) {
        let k = choose|k: int| 0 <= k < errors.len() && errors[k] == x;
        assert(!(errors[k] is MissingSafepoint));
    }
}

proof fn lemma_twice_free(defs: Seq<Definition>)
    ensures
        free_of_safepoint_errors(twice_errors(defs)),
    decreases defs.len(),
{
    if defs.len() > 0 {
        lemma_twice_free(defs.drop_last());
    }
}

proof fn lemma_uses_free(function: Function, defs: Seq<Definition>, at: BlockId, uses: Seq<Use>)
    ensures
        free_of_safepoint_errors(use_errors(function, defs, at, uses)),
    decreases uses.len(),
{
    if uses.len() > 0 {
        lemma_uses_free(function, defs, at, uses.drop_last());
        lemma_concat_free(
            use_errors(function, defs, at, uses.drop_last()),
            use_error(function, defs, at, uses.last()),
        );
    }
}

proof fn lemma_missing_blocks_free(count: int, from: BlockId, targets: Seq<BlockId>)
    ensures
        free_of_safepoint_errors(missing_blocks(count, from, targets)),
    decreases targets.len(),
{
    if targets.len() > 0 {
        lemma_missing_blocks_free(count, from, targets.drop_last());
    }
}

proof fn lemma_argument_types_free(
    defs: Seq<Definition>,
    from: BlockId,
    target: BlockId,
    args: Seq<ValueId>,
    params: Seq<(ValueId, Type)>,
    count: int,
)
    ensures
        free_of_safepoint_errors(argument_type_errors(defs, from, target, args, params, count)),
    decreases count,
{
    if count > 0 {
        lemma_argument_types_free(defs, from, target, args, params, count - 1);
    }
}

proof fn lemma_edges_free(function: Function, defs: Seq<Definition>, from: BlockId, edges: Seq<(BlockId, Seq<ValueId>)>)
    ensures
        free_of_safepoint_errors(edge_errors(function, defs, from, edges)),
    decreases edges.len(),
{
    if edges.len() > 0 {
        lemma_edges_free(function, defs, from, edges.drop_last());
        let edge = edges.last();
        if (edge.0.0 as int) < function.blocks@.len() {
            let params = function.blocks@[edge.0.0 as int].params@;
            lemma_argument_types_free(defs, from, edge.0, edge.1, params, edge.1.len() as int);
        }
        lemma_concat_free(
            edge_errors(function, defs, from, edges.drop_last()),
            edge_error(function, defs, from, edge),
        );
    }
}

/// The safepoint errors of one block's instructions are exactly the missing and unexpected
/// safepoints among them.
proof fn lemma_safepoints_exact(instructions: Seq<Instruction>, at: BlockId, where_: BlockId, index: usize)
    requires
        instructions.len() <= usize::MAX,
    ensures
        safepoint_errors(instructions, at).contains(VerifyError::MissingSafepoint { at: where_, index })
            <==> (where_ == at && (index as int) < instructions.len() && collects(
            instructions[index as int].op,
        ) && instructions[index as int].safepoint is None),
        safepoint_errors(instructions, at).contains(VerifyError::UnexpectedSafepoint { at: where_, index })
            <==> (where_ == at && (index as int) < instructions.len() && !collects(
            instructions[index as int].op,
        ) && instructions[index as int].safepoint is Some),
    decreases instructions.len(),
{
    if instructions.len() > 0 {
        let shorter = instructions.drop_last();
        lemma_safepoints_exact(shorter, at, where_, index);
        let rest = safepoint_errors(shorter, at);
        let last = instructions.last();
        let at_last = (instructions.len() - 1) as usize;
        let missing = VerifyError::MissingSafepoint { at: where_, index };
        let unexpected = VerifyError::UnexpectedSafepoint { at: where_, index };
        let pushed = if collects(last.op) && last.safepoint is None {
            seq![VerifyError::MissingSafepoint { at, index: at_last }]
        } else if !collects(last.op) && last.safepoint is Some {
            seq![VerifyError::UnexpectedSafepoint { at, index: at_last }]
        } else {
            Seq::empty()
        };
        assert(safepoint_errors(instructions, at) =~= rest + pushed);
        lemma_concat_contains(rest, pushed, missing);
        lemma_concat_contains(rest, pushed, unexpected);
        if (index as int) < shorter.len() {
            assert(instructions[index as int] == shorter[index as int]);
        }
        assert(at_last as int == instructions.len() - 1);
        assert(instructions[instructions.len() - 1] == last);
        if pushed.contains(missing) {
            assert(pushed[0] == missing);
        }
        if pushed.contains(unexpected) {
            assert(pushed[0] == unexpected);
        }
        if where_ == at && index == at_last {
            if collects(last.op) && last.safepoint is None {
                assert(pushed[0] == missing);
            } else if !collects(last.op) && last.safepoint is Some {
                assert(pushed[0] == unexpected);
            }
        }
    }
}

/// The safepoint errors of a function's first `count` blocks.
proof fn lemma_blocks_safepoints_exact(
    function: Function,
    defs: Seq<Definition>,
    count: int,
    at: BlockId,
    index: usize,
)
    requires
        0 <= count <= function.blocks@.len(),
        countable(function),
    ensures
        blocks_errors_upto(function, defs, count).contains(VerifyError::MissingSafepoint { at, index })
            <==> ((at.0 as int) < count && (index as int) < function.blocks@[at.0 as int].instructions@.len()
            && collects(function.blocks@[at.0 as int].instructions@[index as int].op)
            && function.blocks@[at.0 as int].instructions@[index as int].safepoint is None),
        blocks_errors_upto(function, defs, count).contains(VerifyError::UnexpectedSafepoint { at, index })
            <==> ((at.0 as int) < count && (index as int) < function.blocks@[at.0 as int].instructions@.len()
            && !collects(function.blocks@[at.0 as int].instructions@[index as int].op)
            && function.blocks@[at.0 as int].instructions@[index as int].safepoint is Some),
    decreases count,
{
    if count > 0 {
        lemma_blocks_safepoints_exact(function, defs, count - 1, at, index);
        let raw = count - 1;
        let block = function.blocks@[raw];
        let here = BlockId(raw as u32);
        let missing = VerifyError::MissingSafepoint { at, index };
        let unexpected = VerifyError::UnexpectedSafepoint { at, index };
        assert(block.params@.len() + block.instructions@.len() < usize::MAX);
        lemma_safepoints_exact(block.instructions@, here, at, index);
        lemma_uses_free(function, defs, here, block_uses(block));
        lemma_missing_blocks_free(function.blocks@.len() as int, here, successors_of(block.terminator));
        lemma_edges_free(function, defs, here, edges_of(block.terminator));
        let first = safepoint_errors(block.instructions@, here);
        let uses = use_errors(function, defs, here, block_uses(block));
        let targets = missing_blocks(function.blocks@.len() as int, here, successors_of(block.terminator));
        let edges = edge_errors(function, defs, here, edges_of(block.terminator));
        lemma_concat_free(uses, targets);
        lemma_concat_free(uses + targets, edges);
        let tail = uses + targets + edges;
        assert(block_errors(function, defs, raw) =~= first + tail);
        lemma_free_lacks(tail, missing);
        lemma_free_lacks(tail, unexpected);
        lemma_concat_contains(first, tail, missing);
        lemma_concat_contains(first, tail, unexpected);
        let before = blocks_errors_upto(function, defs, raw);
        lemma_concat_contains(before, block_errors(function, defs, raw), missing);
        lemma_concat_contains(before, block_errors(function, defs, raw), unexpected);
        assert(here == at <==> at.0 as int == raw);
    }
}

/// The verifier reports a missing safepoint at instruction `index` of block `at` exactly
/// when that instruction can collect and has no safepoint, and an unexpected one exactly
/// when it cannot collect and has one; nothing else in its report is about safepoints.
pub proof fn law_safepoints_are_checked_exactly(function: Function, at: BlockId, index: usize)
    requires
        countable(function),
    ensures
        verify_errors(function).contains(VerifyError::MissingSafepoint { at, index }) <==> (
        (at.0 as int) < function.blocks@.len() && (index as int)
            < function.blocks@[at.0 as int].instructions@.len() && collects(
            function.blocks@[at.0 as int].instructions@[index as int].op,
        ) && function.blocks@[at.0 as int].instructions@[index as int].safepoint is None),
        verify_errors(function).contains(VerifyError::UnexpectedSafepoint { at, index }) <==> (
        (at.0 as int) < function.blocks@.len() && (index as int)
            < function.blocks@[at.0 as int].instructions@.len() && !collects(
            function.blocks@[at.0 as int].instructions@[index as int].op,
        ) && function.blocks@[at.0 as int].instructions@[index as int].safepoint is Some),
{
    let defs = definitions(function);
    let count = function.blocks@.len() as int;
    lemma_blocks_safepoints_exact(function, defs, count, at, index);
    lemma_twice_free(defs);
    let twice = twice_errors(defs);
    let blocks = blocks_errors_upto(function, defs, count);
    lemma_free_lacks(twice, VerifyError::MissingSafepoint { at, index });
    lemma_free_lacks(twice, VerifyError::UnexpectedSafepoint { at, index });
    lemma_concat_contains(twice, blocks, VerifyError::MissingSafepoint { at, index });
    lemma_concat_contains(twice, blocks, VerifyError::UnexpectedSafepoint { at, index });
}


// ---- messages -----------------------------------------------------------------------------------

/// What a verifier error says, for a person reading it.
pub open spec fn message_of(error: VerifyError) -> Seq<char> {
    match error {
        VerifyError::NoSuchBlock { from, target } => block_text(from) + " jumps to "@ + block_text(
            target,
        ) + ", which does not exist"@,
        VerifyError::Undefined { value, at } => block_text(at) + " uses "@ + value_text(value)
            + ", which is never defined"@,
        VerifyError::DefinedTwice { value } => value_text(value) + " is defined more than once"@,
        VerifyError::NotDominated { value, at } => block_text(at) + " uses "@ + value_text(value)
            + ", whose definition does not reach it on every path"@,
        VerifyError::WrongArgumentCount { from, target, passed, expected } => block_text(from)
            + " passes "@ + decimal(passed as nat) + " arguments to "@ + block_text(target)
            + ", which takes "@ + decimal(expected as nat),
        VerifyError::WrongArgumentType { from, target, index, passed, expected } => block_text(
            from,
        ) + " passes "@ + type_text(passed) + " as argument "@ + decimal(index as nat) + " to "@
            + block_text(target) + ", which takes "@ + type_text(expected),
        VerifyError::MissingSafepoint { at, index } => block_text(at) + seq!['['] + decimal(
            index as nat,
        ) + "] can collect and has no safepoint, so the GC would not see its live values"@,
        VerifyError::NoSuchFunction { at, function } => block_text(at)
            + " closes over function @"@ + decimal(function as nat) + ", which does not exist"@,
        VerifyError::WrongCaptureCount { at, function, passed, expected } => block_text(at)
            + " passes "@ + decimal(passed as nat) + " captures to function @"@ + decimal(
            function as nat,
        ) + ", which takes "@ + decimal(expected as nat),
        VerifyError::UnexpectedSafepoint { at, index } => block_text(at) + seq!['['] + decimal(
            index as nat,
        ) + "] cannot collect but carries a safepoint"@,
    }
}

impl VerifyError {
    /// What this error says, for a person reading it.
    pub fn message(&self) -> (text: String)
        ensures
            text@ == message_of(*self),
    {
        let mut text = String::new();
        match *self {
            VerifyError::NoSuchBlock { from, target } => {
                push_block_id(&mut text, from);
                text.append(" jumps to ");
                push_block_id(&mut text, target);
                text.append(", which does not exist");
            },
            VerifyError::Undefined { value, at } => {
                push_block_id(&mut text, at);
                text.append(" uses ");
                push_value(&mut text, value);
                text.append(", which is never defined");
            },
            VerifyError::DefinedTwice { value } => {
                push_value(&mut text, value);
                text.append(" is defined more than once");
            },
            VerifyError::NotDominated { value, at } => {
                push_block_id(&mut text, at);
                text.append(" uses ");
                push_value(&mut text, value);
                text.append(", whose definition does not reach it on every path");
            },
            VerifyError::WrongArgumentCount { from, target, passed, expected } => {
                push_block_id(&mut text, from);
                text.append(" passes ");
                push_decimal(&mut text, passed as u64);
                text.append(" arguments to ");
                push_block_id(&mut text, target);
                text.append(", which takes ");
                push_decimal(&mut text, expected as u64);
            },
            VerifyError::WrongArgumentType { from, target, index, passed, expected } => {
                push_block_id(&mut text, from);
                text.append(" passes ");
                push_type(&mut text, passed);
                text.append(" as argument ");
                push_decimal(&mut text, index as u64);
                text.append(" to ");
                push_block_id(&mut text, target);
                text.append(", which takes ");
                push_type(&mut text, expected);
            },
            VerifyError::MissingSafepoint { at, index } => {
                push_block_id(&mut text, at);
                push_char(&mut text, '[');
                push_decimal(&mut text, index as u64);
                text.append("] can collect and has no safepoint, so the GC would not see its live values");
            },
            VerifyError::NoSuchFunction { at, function } => {
                push_block_id(&mut text, at);
                text.append(" closes over function @");
                push_decimal(&mut text, function as u64);
                text.append(", which does not exist");
            },
            VerifyError::WrongCaptureCount { at, function, passed, expected } => {
                push_block_id(&mut text, at);
                text.append(" passes ");
                push_decimal(&mut text, passed as u64);
                text.append(" captures to function @");
                push_decimal(&mut text, function as u64);
                text.append(", which takes ");
                push_decimal(&mut text, expected as u64);
            },
            VerifyError::UnexpectedSafepoint { at, index } => {
                push_block_id(&mut text, at);
                push_char(&mut text, '[');
                push_decimal(&mut text, index as u64);
                text.append("] cannot collect but carries a safepoint");
            },
        }
        proof {
            assert(text@ =~= message_of(*self));
        }
        text
    }
}

} // verus!
