//! What a code generator takes from a function before it emits anything, and what it
//! reports afterwards.
//!
//! The backends themselves turn the IR into machine code through a code-generation library;
//! what is decided here is plain: the symbol a function is emitted under, the text it puts in
//! the data section, and which runtime helper each operator calls.

use vstd::prelude::*;

use vstd::std_specs::iter::IteratorSpec;

use crate::ir::function::{BinaryOp, Constant, Function, Instruction, Op};
use crate::text::{decimal, lemma_decimal_injective, lemma_decimal_shape, push_char, push_decimal};

verus! {

/// Why a function could not be compiled.
///
/// Every variant is a refusal, never a silent approximation: a backend that guessed at an
/// operation it did not implement would emit machine code that runs and is wrong.
#[derive(Clone, Debug, PartialEq, Eq)]
pub enum CodegenError {
    /// An IR operation this backend does not lower yet.
    Unsupported { operation: String },
    /// The target triple is not one this build can emit for.
    UnknownTarget { triple: String },
    /// The code-generation library rejected something, which is a bug here rather than in
    /// the input.
    Backend { message: String },
}

/// What a code-generation error says, for a person reading it.
pub open spec fn codegen_message(error: CodegenError) -> Seq<char> {
    match error {
        CodegenError::Unsupported { operation } => "cannot compile "@ + operation@ + " yet"@,
        CodegenError::UnknownTarget { triple } => "no backend for target "@ + triple@,
        CodegenError::Backend { message } => "backend error: "@ + message@,
    }
}

impl CodegenError {
    /// What this error says, for a person reading it.
    pub fn message(&self) -> (text: String)
        ensures
            text@ == codegen_message(*self),
    {
        let mut text = String::new();
        match self {
            CodegenError::Unsupported { operation } => {
                text.append("cannot compile ");
                text.append(operation.as_str());
                text.append(" yet");
            },
            CodegenError::UnknownTarget { triple } => {
                text.append("no backend for target ");
                text.append(triple.as_str());
            },
            CodegenError::Backend { message } => {
                text.append("backend error: ");
                text.append(message.as_str());
            },
        }
        proof {
            assert(text@ =~= codegen_message(*self));
        }
        text
    }
}

/// Where live values sit in a frame at one safepoint.
#[derive(Clone, Debug, PartialEq, Eq)]
pub struct SafepointMap {
    /// Offset of the safepoint from the start of the function's machine code: the return
    /// address a collector holds.
    pub code_offset: u32,
    /// How many bytes of stack the map covers, measured from the stack pointer.
    pub span: u32,
    /// Byte offsets within the frame holding live values.
    pub live_offsets: Vec<u32>,
}

/// What compiling one function produced.
#[derive(Clone, Debug, PartialEq, Eq)]
pub struct Report {
    /// Every safepoint in the function, with what is live at it.
    pub safepoints: Vec<SafepointMap>,
    /// How many values were declared live across a safepoint: what was handed to the code
    /// generator, not what reached the object file.
    pub stack_map_entries: usize,
}

impl Report {
    /// A report of nothing: no safepoints, no entries.
    pub fn empty() -> (report: Self)
        ensures
            report.safepoints@.len() == 0,
            report.stack_map_entries == 0,
    {
        Report { safepoints: Vec::new(), stack_map_entries: 0 }
    }
}

// ---- runtime helpers ------------------------------------------------------------------------

/// The runtime symbol a binary operator calls when it has no native instruction.
pub open spec fn helper_of(op: BinaryOp) -> Option<Seq<char>> {
    match op {
        BinaryOp::Add => Some("crisol_add"@),
        BinaryOp::Remainder => Some("crisol_remainder"@),
        BinaryOp::Exponent => Some("crisol_exponent"@),
        BinaryOp::BitAnd => Some("crisol_bit_and"@),
        BinaryOp::BitOr => Some("crisol_bit_or"@),
        BinaryOp::BitXor => Some("crisol_bit_xor"@),
        BinaryOp::ShiftLeft => Some("crisol_shift_left"@),
        BinaryOp::ShiftRight => Some("crisol_shift_right"@),
        BinaryOp::UnsignedShiftRight => Some("crisol_unsigned_shift_right"@),
        BinaryOp::InstanceOf => Some("crisol_instanceof"@),
        BinaryOp::LooseEqual => Some("crisol_loose_equal"@),
        BinaryOp::LooseNotEqual => Some("crisol_loose_not_equal"@),
        BinaryOp::In => Some("crisol_in"@),
        _ => None,
    }
}

/// The operators that call a runtime helper, in the order the backend declares them.
pub open spec fn helper_operators() -> Seq<BinaryOp> {
    seq![
        BinaryOp::Add,
        BinaryOp::Remainder,
        BinaryOp::Exponent,
        BinaryOp::BitAnd,
        BinaryOp::BitOr,
        BinaryOp::BitXor,
        BinaryOp::ShiftLeft,
        BinaryOp::ShiftRight,
        BinaryOp::UnsignedShiftRight,
        BinaryOp::InstanceOf,
        BinaryOp::LooseEqual,
        BinaryOp::LooseNotEqual,
        BinaryOp::In,
    ]
}

/// The runtime symbol `op` calls, when it calls one.
pub fn helper_symbol(op: BinaryOp) -> (symbol: Option<&'static str>)
    ensures
        match symbol {
            Some(text) => helper_of(op) == Some(text@),
            None => helper_of(op) is None,
        },
{
    match op {
        BinaryOp::Add => Some("crisol_add"),
        BinaryOp::Remainder => Some("crisol_remainder"),
        BinaryOp::Exponent => Some("crisol_exponent"),
        BinaryOp::BitAnd => Some("crisol_bit_and"),
        BinaryOp::BitOr => Some("crisol_bit_or"),
        BinaryOp::BitXor => Some("crisol_bit_xor"),
        BinaryOp::ShiftLeft => Some("crisol_shift_left"),
        BinaryOp::ShiftRight => Some("crisol_shift_right"),
        BinaryOp::UnsignedShiftRight => Some("crisol_unsigned_shift_right"),
        BinaryOp::InstanceOf => Some("crisol_instanceof"),
        BinaryOp::LooseEqual => Some("crisol_loose_equal"),
        BinaryOp::LooseNotEqual => Some("crisol_loose_not_equal"),
        BinaryOp::In => Some("crisol_in"),
        _ => None,
    }
}

/// The runtime symbols the backend emits calls to, one per helper operator, in declaration
/// order.
///
/// The backend and the runtime are connected only by these names, so a test can hold the two
/// sides against each other.
pub fn helper_symbols() -> (symbols: Vec<&'static str>)
    ensures
        symbols@.len() == helper_operators().len(),
        forall|k: int|
            0 <= k < symbols@.len() ==> helper_of(helper_operators()[k]) == Some(
                (#[trigger] symbols@[k])@,
            ),
{
    let operators = [
        BinaryOp::Add,
        BinaryOp::Remainder,
        BinaryOp::Exponent,
        BinaryOp::BitAnd,
        BinaryOp::BitOr,
        BinaryOp::BitXor,
        BinaryOp::ShiftLeft,
        BinaryOp::ShiftRight,
        BinaryOp::UnsignedShiftRight,
        BinaryOp::InstanceOf,
        BinaryOp::LooseEqual,
        BinaryOp::LooseNotEqual,
        BinaryOp::In,
    ];
    proof {
        assert(operators@ =~= helper_operators());
    }
    let mut symbols: Vec<&'static str> = Vec::new();
    let mut k: usize = 0;
    while k < 13
        invariant
            k <= 13,
            operators@ == helper_operators(),
            symbols@.len() == k,
            forall|j: int|
                0 <= j < k ==> helper_of(helper_operators()[j]) == Some((#[trigger] symbols@[j])@),
        decreases 13 - k,
    {
        match helper_symbol(operators[k]) {
            Some(symbol) => symbols.push(symbol),
            None => {
                proof {
                    assert(helper_of(helper_operators()[k as int]) is Some);
                }
            },
        }
        k = k + 1;
    }
    symbols
}

// ---- symbols ----------------------------------------------------------------------------------

/// An ASCII letter or digit.
pub open spec fn ascii_alphanumeric(c: char) -> bool {
    ('0' <= c && c <= '9') || ('a' <= c && c <= 'z') || ('A' <= c && c <= 'Z')
}

/// `name` with everything but ASCII letters and digits replaced by `_`.
pub open spec fn readable(name: Seq<char>) -> Seq<char> {
    name.map_values(|c: char| if ascii_alphanumeric(c) {
        c
    } else {
        '_'
    })
}

/// The symbol a function is emitted under.
///
/// Function zero keeps its own name, which is what the C entry point calls. The others are
/// numbered by their index, because two functions may share a source name (and every
/// anonymous one shares the same compiler temporary), and carry the source name only as a
/// readable suffix.
pub open spec fn symbol_of(function: Function) -> Seq<char> {
    if function.id.0 == 0 {
        function.name@
    } else {
        "crisol_fn"@ + decimal(function.id.0 as nat) + seq!['_'] + readable(function.name@)
    }
}

/// A function other than function zero is emitted as `crisol_fn`, its id in decimal, `_`,
/// and its name with each ASCII letter (either case) and digit kept and every other
/// character replaced by `_`, one for one.
pub proof fn law_symbols_keep_letters_and_digits(function: Function)
    requires
        function.id.0 != 0,
    ensures
        ({
            let prefix = "crisol_fn"@ + decimal(function.id.0 as nat) + seq!['_'];
            let symbol = symbol_of(function);
            let name = function.name@;
            &&& symbol.len() == prefix.len() + name.len()
            &&& symbol.take(prefix.len() as int) == prefix
            &&& forall|i: int|
                0 <= i < name.len() ==> #[trigger] symbol[prefix.len() + i] == if ('0' <= name[i]
                    && name[i] <= '9') || ('a' <= name[i] && name[i] <= 'z') || ('A' <= name[i]
                    && name[i] <= 'Z') {
                    name[i]
                } else {
                    '_'
                }
        }),
{
    let prefix = "crisol_fn"@ + decimal(function.id.0 as nat) + seq!['_'];
    let symbol = symbol_of(function);
    assert(symbol.take(prefix.len() as int) =~= prefix);
    assert forall|i: int| 0 <= i < function.name@.len() implies #[trigger] symbol[prefix.len() + i]
        == readable(function.name@)[i] by {}
}

/// Functions with distinct ids other than zero are emitted under distinct symbols, whatever
/// their names: the id is spelled out between the prefix and the first underscore after it.
pub proof fn law_distinct_ids_give_distinct_symbols(first: Function, second: Function)
    requires
        first.id.0 != 0,
        second.id.0 != 0,
        first.id != second.id,
    ensures
        symbol_of(first) != symbol_of(second),
{
    reveal_strlit("crisol_fn");
    let d1 = decimal(first.id.0 as nat);
    let d2 = decimal(second.id.0 as nat);
    lemma_decimal_shape(first.id.0 as nat);
    lemma_decimal_shape(second.id.0 as nat);
    let s1 = symbol_of(first);
    let s2 = symbol_of(second);
    let p = "crisol_fn"@;
    assert(p.len() == 9);
    if s1 == s2 {
        if d1.len() < d2.len() {
            assert(s1[9 + d1.len() as int] == '_');
            assert(s2[9 + d1.len() as int] == d2[d1.len() as int]);
        } else if d2.len() < d1.len() {
            assert(s2[9 + d2.len() as int] == '_');
            assert(s1[9 + d2.len() as int] == d1[d2.len() as int]);
        } else {
            assert forall|k: int| 0 <= k < d1.len() implies d1[k] == d2[k] by {
                assert(s1[9 + k] == d1[k]);
                assert(s2[9 + k] == d2[k]);
            }
            assert(d1 =~= d2);
            lemma_decimal_injective(first.id.0 as nat, second.id.0 as nat);
        }
    }
}

/// The symbol `function` is emitted under.
pub fn symbol_name(function: &Function) -> (symbol: String)
    ensures
        symbol@ == symbol_of(*function),
{
    if function.id.index() == 0 {
        return function.name.clone();
    }
    let mut symbol = String::from_str("crisol_fn");
    push_decimal(&mut symbol, function.id.index() as u64);
    push_char(&mut symbol, '_');
    let ghost prefix = symbol@;
    proof {
        assert(prefix =~= "crisol_fn"@ + decimal(function.id.0 as nat) + seq!['_']);
    }
    let name = function.name.as_str();
    let mut chars = name.chars();
    let ghost mut taken: nat = 0;
    loop
        invariant
            name@ == function.name@,
            taken <= name@.len(),
            chars.obeys_prophetic_iter_laws(),
            chars.remaining() == name@.skip(taken as int),
            symbol@ == prefix + readable(name@.take(taken as int)),
        ensures
            symbol@ == prefix + readable(name@),
        decreases name@.len() - taken,
    {
        broadcast use vstd::string::group_string_axioms;

        let ghost remaining = chars.remaining();
        match chars.next() {
            Some(c) => {
                proof {
                    assert(remaining.len() > 0);
                    assert(c == name@[taken as int]);
                }
                let kept = ('0' <= c && c <= '9') || ('a' <= c && c <= 'z') || ('A' <= c && c <= 'Z');
                if kept {
                    push_char(&mut symbol, c);
                } else {
                    push_char(&mut symbol, '_');
                }
                proof {
                    taken = taken + 1;
                    assert(name@.take(taken as int).drop_last() =~= name@.take(taken - 1));
                    assert(readable(name@.take(taken as int)) =~= readable(name@.take(taken - 1)).push(
                        if ascii_alphanumeric(c) {
                            c
                        } else {
                            '_'
                        },
                    ));
                    assert(symbol@ =~= prefix + readable(name@.take(taken as int)));
                    assert(chars.remaining() =~= name@.skip(taken as int));
                }
            },
            None => {
                proof {
                    assert(remaining.len() == 0);
                    assert(name@.take(taken as int) =~= name@);
                }
                break;
            },
        }
    }
    symbol
}

// ---- the text a function names ----------------------------------------------------------------

/// The texts one instruction names: a property key, a global's name, a string literal, or a
/// regular expression's pattern and flags.
pub open spec fn instruction_texts(instruction: Instruction) -> Seq<Seq<char>> {
    match instruction.op {
        Op::PropertyLoad { key, .. } => seq![key.text()],
        Op::PropertyStore { key, .. } => seq![key.text()],
        Op::GlobalLoad { name } => seq![name.text()],
        Op::Const(Constant::String(text)) => seq![text@],
        Op::CreateRegExp { source, flags } => seq![source@, flags@],
        _ => Seq::empty(),
    }
}

/// The texts a run of instructions names, in order.
pub open spec fn instructions_texts(instructions: Seq<Instruction>) -> Seq<Seq<char>>
    decreases instructions.len(),
{
    if instructions.len() == 0 {
        Seq::empty()
    } else {
        instructions_texts(instructions.drop_last()) + instruction_texts(instructions.last())
    }
}

/// The texts the first `count` blocks of `function` name, in order.
pub open spec fn blocks_texts(function: Function, count: int) -> Seq<Seq<char>>
    decreases count,
{
    if count <= 0 {
        Seq::empty()
    } else {
        blocks_texts(function, count - 1) + instructions_texts(
            function.blocks@[count - 1].instructions@,
        )
    }
}

/// `texts` with every repeat dropped, each kept where it first appears.
pub open spec fn first_occurrences(texts: Seq<Seq<char>>) -> Seq<Seq<char>>
    decreases texts.len(),
{
    if texts.len() == 0 {
        Seq::empty()
    } else {
        let kept = first_occurrences(texts.drop_last());
        if kept.contains(texts.last()) {
            kept
        } else {
            kept.push(texts.last())
        }
    }
}

/// Every piece of text `function` names, each once, in the order first seen: what the
/// backend puts in the data section.
pub open spec fn keys_of_function(function: Function) -> Seq<Seq<char>> {
    first_occurrences(blocks_texts(function, function.blocks@.len() as int))
}

/// Dropping repeats keeps exactly the texts there were, each once.
proof fn lemma_first_occurrences(texts: Seq<Seq<char>>)
    ensures
        forall|t: Seq<char>| first_occurrences(texts).contains(t) <==> texts.contains(t),
        first_occurrences(texts).no_duplicates(),
    decreases texts.len(),
{
    if texts.len() > 0 {
        let rest = texts.drop_last();
        lemma_first_occurrences(rest);
        let kept = first_occurrences(rest);
        assert forall|t: Seq<char>| first_occurrences(texts).contains(t) <==> texts.contains(t) by {
            if texts.contains(t) {
                let i = choose|i: int| 0 <= i < texts.len() && texts[i] == t;
                if i < rest.len() {
                    assert(rest[i] == t);
                }
            }
            if rest.contains(t) {
                let i = choose|i: int| 0 <= i < rest.len() && rest[i] == t;
                assert(texts[i] == t);
            }
            if !kept.contains(texts.last()) {
                assert(kept.push(texts.last())[kept.len() as int] == texts.last());
                if kept.push(texts.last()).contains(t) {
                    let i = choose|i: int| 0 <= i < kept.len() + 1 && kept.push(texts.last())[i] == t;
                    if i < kept.len() {
                        assert(kept[i] == t);
                    }
                }
                if kept.contains(t) {
                    let i = choose|i: int| 0 <= i < kept.len() && kept[i] == t;
                    assert(kept.push(texts.last())[i] == t);
                }
            }
        }
    }
}

/// Every text an instruction of the run names is among the run's texts.
proof fn lemma_instructions_texts(instructions: Seq<Instruction>, k: int, t: Seq<char>)
    requires
        0 <= k < instructions.len(),
        instruction_texts(instructions[k]).contains(t),
    ensures
        instructions_texts(instructions).contains(t),
    decreases instructions.len(),
{
    let rest = instructions.drop_last();
    let whole = instructions_texts(instructions);
    if k == instructions.len() - 1 {
        let j = choose|j: int| 0 <= j < instruction_texts(instructions[k]).len() && instruction_texts(instructions[k])[j] == t;
        assert(whole[instructions_texts(rest).len() + j] == t);
    } else {
        assert(rest[k] == instructions[k]);
        lemma_instructions_texts(rest, k, t);
        let j = choose|j: int| 0 <= j < instructions_texts(rest).len() && instructions_texts(rest)[j] == t;
        assert(whole[j] == t);
    }
}

/// Every text an instruction of one of the first `count` blocks names is among their texts.
proof fn lemma_blocks_texts(function: Function, count: int, b: int, k: int, t: Seq<char>)
    requires
        0 <= b < count <= function.blocks@.len(),
        0 <= k < function.blocks@[b].instructions@.len(),
        instruction_texts(function.blocks@[b].instructions@[k]).contains(t),
    ensures
        blocks_texts(function, count).contains(t),
    decreases count,
{
    let rest = blocks_texts(function, count - 1);
    let whole = blocks_texts(function, count);
    if b == count - 1 {
        lemma_instructions_texts(function.blocks@[b].instructions@, k, t);
        let j = choose|j: int| 0 <= j < instructions_texts(function.blocks@[b].instructions@).len()
            && instructions_texts(function.blocks@[b].instructions@)[j] == t;
        assert(whole[rest.len() + j] == t);
    } else {
        lemma_blocks_texts(function, count - 1, b, k, t);
        let j = choose|j: int| 0 <= j < rest.len() && rest[j] == t;
        assert(whole[j] == t);
    }
}

/// The key table holds, once each, every property key a load or store names, every global
/// name, every string literal and every regular expression's pattern and flags, so the
/// backend has the bytes of each.
pub proof fn law_every_named_text_is_in_the_key_table(function: Function, b: int, k: int)
    requires
        0 <= b < function.blocks@.len(),
        0 <= k < function.blocks@[b].instructions@.len(),
    ensures
        keys_of_function(function).no_duplicates(),
        ({
            let op = function.blocks@[b].instructions@[k].op;
            &&& op matches Op::PropertyLoad { key, .. } ==> keys_of_function(function).contains(key.text())
            &&& op matches Op::PropertyStore { key, .. } ==> keys_of_function(function).contains(key.text())
            &&& op matches Op::GlobalLoad { name } ==> keys_of_function(function).contains(name.text())
            &&& op matches Op::Const(Constant::String(text)) ==> keys_of_function(function).contains(text@)
            &&& op matches Op::CreateRegExp { source, flags } ==> keys_of_function(function).contains(source@)
                && keys_of_function(function).contains(flags@)
        }),
{
    let count = function.blocks@.len() as int;
    let texts = blocks_texts(function, count);
    lemma_first_occurrences(texts);
    let instruction = function.blocks@[b].instructions@[k];
    let named = instruction_texts(instruction);
    assert forall|t: Seq<char>| named.contains(t) implies keys_of_function(function).contains(t) by {
        lemma_blocks_texts(function, count, b, k, t);
    }
    match instruction.op {
        Op::PropertyLoad { key, .. } => {
            assert(named[0] == key.text());
            assert(named.contains(key.text()));
        },
        Op::PropertyStore { key, .. } => {
            assert(named[0] == key.text());
            assert(named.contains(key.text()));
        },
        Op::GlobalLoad { name } => {
            assert(named[0] == name.text());
            assert(named.contains(name.text()));
        },
        Op::Const(Constant::String(text)) => {
            assert(named[0] == text@);
            assert(named.contains(text@));
        },
        Op::CreateRegExp { source, flags } => {
            assert(named[0] == source@);
            assert(named[1] == flags@);
            assert(named.contains(source@));
            assert(named.contains(flags@));
        },
        _ => {},
    }
}

/// Adds `text` to `keys` unless it is there already.
fn intern(keys: &mut Vec<String>, text: &str)
    ensures
        final(keys)@.map_values(|key: String| key@) == if old(keys)@.map_values(
            |key: String| key@,
        ).contains(text@) {
            old(keys)@.map_values(|key: String| key@)
        } else {
            old(keys)@.map_values(|key: String| key@).push(text@)
        },
{
    let ghost seen = keys@.map_values(|key: String| key@);
    let owned = text.to_owned();
    let mut k: usize = 0;
    while k < keys.len()
        invariant
            k <= keys@.len(),
            seen == keys@.map_values(|key: String| key@),
            owned@ == text@,
            forall|j: int| 0 <= j < k ==> seen[j] != text@,
        decreases keys@.len() - k,
    {
        if keys[k] == owned {
            proof {
                assert(seen[k as int] == text@);
            }
            return;
        }
        k = k + 1;
    }
    keys.push(owned);
    proof {
        assert(keys@.map_values(|key: String| key@) =~= seen.push(text@));
    }
}

/// Every piece of text `function` names, in the order first seen: property keys and global
/// names, string literals, and regular expressions' patterns and flags.
pub fn keys_of(function: &Function) -> (keys: Vec<String>)
    ensures
        keys@.map_values(|key: String| key@) == keys_of_function(*function),
{
    let mut keys: Vec<String> = Vec::new();
    let mut b: usize = 0;
    while b < function.blocks.len()
        invariant
            b <= function.blocks@.len(),
            keys@.map_values(|key: String| key@) == first_occurrences(blocks_texts(*function, b as int)),
        decreases function.blocks@.len() - b,
    {
        let instructions = &function.blocks[b].instructions;
        let mut k: usize = 0;
        while k < instructions.len()
            invariant
                b < function.blocks@.len(),
                *instructions == function.blocks@[b as int].instructions,
                k <= instructions@.len(),
                keys@.map_values(|key: String| key@) == first_occurrences(
                    blocks_texts(*function, b as int) + instructions_texts(instructions@.take(k as int)),
                ),
            decreases instructions@.len() - k,
        {
            let ghost before = blocks_texts(*function, b as int) + instructions_texts(instructions@.take(k as int));
            proof {
                assert(instructions@.take(k as int + 1).drop_last() =~= instructions@.take(k as int));
                assert(instructions@.take(k as int + 1).last() == instructions@[k as int]);
            }
            let instruction = &instructions[k];
            match &instruction.op {
                Op::PropertyLoad { key, .. } | Op::PropertyStore { key, .. } | Op::GlobalLoad { name: key } => {
                    intern(&mut keys, key.as_str());
                    proof {
                        assert(instruction_texts(*instruction) =~= seq![key.text()]);
                        assert(before + seq![key.text()] =~= before.push(key.text()));
                        assert(before.push(key.text()).drop_last() =~= before);
                        assert(keys@.map_values(|key: String| key@) == first_occurrences(before.push(key.text())));
                    }
                },
                Op::Const(Constant::String(text)) => {
                    intern(&mut keys, text.as_str());
                    proof {
                        assert(instruction_texts(*instruction) =~= seq![text@]);
                        assert(before + seq![text@] =~= before.push(text@));
                        assert(before.push(text@).drop_last() =~= before);
                        assert(keys@.map_values(|key: String| key@) == first_occurrences(before.push(text@)));
                    }
                },
                Op::CreateRegExp { source, flags } => {
                    intern(&mut keys, source.as_str());
                    proof {
                        assert(before.push(source@).drop_last() =~= before);
                        assert(keys@.map_values(|key: String| key@) == first_occurrences(before.push(source@)));
                    }
                    intern(&mut keys, flags.as_str());
                    proof {
                        assert(instruction_texts(*instruction) =~= seq![source@, flags@]);
                        let two = before + seq![source@, flags@];
                        assert(two =~= before.push(source@).push(flags@));
                        assert(before.push(source@).push(flags@).drop_last() =~= before.push(source@));
                        assert(before.push(source@).drop_last() =~= before);
                        assert(keys@.map_values(|key: String| key@) == first_occurrences(before.push(source@).push(flags@)));
                    }
                },
                _ => {
                    proof {
                        assert(instruction_texts(*instruction) =~= Seq::<Seq<char>>::empty());
                        assert(before + Seq::<Seq<char>>::empty() =~= before);
                    }
                },
            }
            k = k + 1;
            proof {
                assert(blocks_texts(*function, b as int) + instructions_texts(instructions@.take(k as int))
                    =~= before + instruction_texts(*instruction));
            }
        }
        proof {
            assert(instructions@.take(instructions@.len() as int) =~= instructions@);
        }
        b = b + 1;
    }
    keys
}

} // verus!
