# crisol

The verified core of Crisol's compiler and renderer plumbing, written in Verus.

- `graph`, `tarjan`, `cycles`, `ordering`: the module graph of a program. Modules are
  interned by specifier; the evaluation order is a depth-first post-order from the entry;
  cycles are Tarjan's strongly connected components with more than one module or a
  self-import. The laws proved here say that every module the entry reaches is evaluated
  exactly once, after every import that does not reach it back, the entry last; and that a
  module is reported in a cycle exactly when it lies on one.
- `loader`: the bookkeeping of a load: which files were read, which requests resolved,
  what went wrong, and requests put back in source order.
- `ir`: the intermediate representation: values, blocks, instructions, the type lattice,
  dominators, the verifier with an exact statement of every error it reports, and the
  text dump.
- `codegen`: the parts of code generation that are plain data: error messages, runtime
  helper symbols, safepoint bookkeeping, symbol names and property-key tables.
- `selection`: instruction selection: how each instruction and block ending is carried out
  (a float instruction on proven numbers, a runtime call, or a refusal by name), planned for
  a whole function with the types proved so far.
- `pixels`: the readback buffer of a render target, unpadded into tightly packed pixels.

`app/` holds what touches the file system and what needs floating point: walking a module
tree on disk, and printing number literals as doubles.
