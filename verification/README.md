# lib — verified code-generation passes

A library of compiler back-end passes whose behaviour is stated in `requires` /
`ensures` contracts and proved with Verus.

- `src/` — the verified library.
  - `ast`, `mir` — the source and mid-level program representations the passes read.
  - `names`, `text`, `seqs`, `order` — insertion-ordered maps and sets keyed by names,
    character-level text functions with their specifications, and sequence helpers.
  - `codegen` — x86-64 registers, operands and instructions as text; ELF object layout;
    CPU feature parsing; monomorphization; lowering to MIR; iterator-chain fusion;
    loop tiling; inlining; escape analysis and memory layout; dynamic dispatch; the
    compiler configuration builders; and, under `codegen/optimization`, passes over
    instruction lists and over line-oriented IR text (constant folding and propagation,
    dead-code elimination, loop optimizations, link-time optimization).
- `tests/` — tests run against the compiled library.
- `app/` — the host side: reading `/proc/cpuinfo` and `lscpu`, running `as` and `ld`,
  console reporting, and the estimates computed in floating point.

Partly included: of the x86-64 code generator, `Codegen` holds the frame state (labels,
variable slots around the collection region, string constants, struct field lookups,
struct-return copies, operand selection), each verified. Not included: the generation of a
whole program, function and statement (`generate`, `generate_function`,
`generate_statement`, `generate_code`), and the generator that builds the MIR of a fused
iterator loop (`FusionMirGenerator`). They are written against parts of the MIR, the
lowering tables and the runtime support code (indexing, field, deref, aggregate and
unary rvalues, globals, function return types, the MIR builder, the runtime assembly)
that this project does not contain; `mir` here models only what the other passes read.
