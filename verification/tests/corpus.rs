//! The program corpus the IR dump is reviewed against.
//!
//! The corpus itself is data: each entry names a program and gives its source. Lowering the
//! sources needs a JavaScript parser, which this crate does not carry; what is checked here is
//! the corpus's own promise, that it holds at least thirty programs.

/// The programs, in the order their dumps are listed.
const CORPUS: &[(&str, &str)] = &[
    ("empty", ""),
    ("number", "let x = 1;"),
    ("negative-is-not-arithmetic-here", "let x = 0;"),
    ("float", "let x = 1.5;"),
    ("string", "let s = \"hello\";"),
    ("string-with-quotes", "let s = \"a \\\"b\\\" c\";"),
    ("bool", "let t = true; let f = false;"),
    ("null", "let n = null;"),
    ("undefined", "let u = undefined;"),
    ("declaration-without-init", "let x;"),
    ("two-declarations", "let a = 1; let b = 2;"),
    ("read-a-variable", "let a = 1; let b = a;"),
    ("assign", "let a = 1; a = 2;"),
    ("assign-is-an-expression", "let a = 1; let b = (a = 2);"),
    ("strict-equal", "let a = 1; let b = 2; let c = a === b;"),
    ("strict-not-equal", "let a = 1; let b = 2; let c = a !== b;"),
    ("less", "let a = 1; let b = 2; let c = a < b;"),
    ("less-equal", "let a = 1; let b = 2; let c = a <= b;"),
    ("greater", "let a = 1; let b = 2; let c = a > b;"),
    ("greater-equal", "let a = 1; let b = 2; let c = a >= b;"),
    ("return-nothing", "return;"),
    ("return-a-value", "let a = 1; return a;"),
    ("dead-code-after-return", "return; let a = 1;"),
    ("throw", "let e = \"boom\"; throw e;"),
    ("if-without-else", "let a = 1; if (a === 1) { a = 2; }"),
    (
        "if-else",
        "let a = 1; if (a === 1) { a = 2; } else { a = 3; }",
    ),
    (
        "nested-if",
        "let a = 1; if (a === 1) { if (a === 1) { a = 2; } else { a = 3; } }",
    ),
    (
        "if-with-return",
        "let a = 1; if (a === 1) { return a; } a = 2;",
    ),
    ("while", "let a = 1; while (a < 10) { a = 10; }"),
    (
        "while-with-if",
        "let a = 1; while (a < 10) { if (a === 1) { a = 10; } }",
    ),
    ("empty-object", "let o = {};"),
    ("object-with-properties", "let o = { a: 1, b: \"two\" };"),
    ("object-with-string-key", "let o = { \"a b\": 1 };"),
    ("property-read", "let o = { a: 1 }; let v = o.a;"),
    ("property-chain", "let o = { a: 1 }; let v = o.a.b;"),
    ("call-no-args", "let f = null; let v = f();"),
    (
        "call-with-args",
        "let f = null; let a = 1; let v = f(a, a);",
    ),
    ("call-a-method", "let o = { a: 1 }; let v = o.a();"),
    ("block-scope", "let a = 1; { a = 2; }"),
    ("empty-statement", ";"),
    ("add", "let a = 1 + 2;"),
    ("subtract", "let a = 3 - 1;"),
    ("multiply", "let a = 2 * 3;"),
    ("divide", "let a = 6 / 2;"),
    ("remainder", "let a = 7 % 3;"),
    ("exponent", "let a = 2 ** 8;"),
    (
        "string-concatenation-is-the-same-operator",
        "let a = \"x\" + \"y\";",
    ),
    ("bitwise-and", "let a = 6 & 3;"),
    ("bitwise-or", "let a = 6 | 3;"),
    ("bitwise-xor", "let a = 6 ^ 3;"),
    ("shift-left", "let a = 1 << 4;"),
    ("shift-right", "let a = 16 >> 2;"),
    ("unsigned-shift-right", "let a = 1 >>> 0;"),
    ("negate", "let a = -1;"),
    ("unary-plus", "let a = +\"1\";"),
    ("logical-not", "let a = !true;"),
    ("bitwise-not", "let a = ~0;"),
    ("typeof", "let a = typeof 1;"),
    ("void", "let a = void 0;"),
    (
        "logical-and-short-circuits",
        "let a = 1; let b = false && a;",
    ),
    ("logical-or-short-circuits", "let a = 1; let b = true || a;"),
    ("nullish-coalescing-is-not-or", "let a = 0; let b = a ?? 1;"),
    ("conditional", "let a = true ? 1 : 2;"),
    ("nested-arithmetic", "let a = 1 + 2 * 3;"),
    ("array-literal", "let a = [1, 2, 3];"),
    ("empty-array", "let a = [];"),
    ("arrow-concise-body", "let f = (x) => x;"),
    ("arrow-block-body", "let f = (x) => { return x; };"),
    ("arrow-no-parameters", "let f = () => 1;"),
    (
        "function-expression",
        "let f = function (a, b) { return a; };",
    ),
    (
        "a-closure-captures-an-outer-local",
        "let a = 1; let f = () => a;",
    ),
    (
        "a-parameter-shadows-rather-than-captures",
        "let a = 1; let f = (a) => a;",
    ),
    (
        "a-local-shadows-rather-than-captures",
        "let a = 1; let f = () => { let a = 2; return a; };",
    ),
    (
        "two-captures-keep-their-order",
        "let a = 1; let b = 2; let f = () => a + b;",
    ),
    (
        "a-nested-closure-captures-through-each-level",
        "let a = 1; let f = () => () => a;",
    ),
    (
        "a-function-that-runs-off-the-end-returns-undefined",
        "let f = () => { let a = 1; };",
    ),
];

#[test]
fn the_corpus_is_at_least_thirty_programs() {
    assert!(
        CORPUS.len() >= 30,
        "thirty representative programs are asked for, and there are {}",
        CORPUS.len()
    );
}

