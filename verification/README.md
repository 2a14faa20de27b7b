# gradu

A compiler pipeline for a small dynamically typed language, written in Verus
with its behaviour stated in contracts and proved.

- `src/` is the verified library: the syntax tree and its visitors, name
  resolution, the flow-insensitive type analysis (`analysis`, and the older
  round-based inference in `ty`), layout selection (`layout`), lowering to a
  block-based SSA form (`lower`, `ir`), peephole optimization (`optimize`),
  C code emission (`comp`), a reference interpreter (`interp`) and the
  reporting of parse errors (`parse`).
- `app/` is the command-line driver: it reads the source file, runs the
  pipeline, prints results and calls the C compiler.
- `tests/` exercise the library on concrete programs.

The grammar module that the driver's parser is generated from is not part of
this tree, so `app/` reports that it cannot parse.
