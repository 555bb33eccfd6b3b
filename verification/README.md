# desdec_app

The logic behind Desdec's reading windows, with its behaviour stated as
contracts and proved with Verus.

- `src/calculator/` — the programmer's calculator: widths, the six fields a
  value is written in and read back from, the operations, the window's state
  and its pad of keys, and `laws.rs`, which proves what the calculator
  promises as a whole (every field reads back what it wrote, a rotation is
  undone by the opposite one, a digit typed and taken back leaves the number
  as it was, the string spells the bytes it holds and refuses its own mark,
  writing ignores the bits above the width, the binary field is grouped in
  fours, and Not, Negate and the byte swap each undo themselves).
- `src/graph.rs` — the control-flow graph's ranks: a breadth-first walk whose
  ranks are proved to be shortest distances from the entry, the rows they are
  laid out in, and the function the graph shows.
- `src/functions.rs` — the function table: which addresses begin a function,
  which symbol names each, and where each ends.
- `src/disassembly.rs`, `src/dump.rs`, `src/decompile.rs` — the listing's
  rows and columns, the hexadecimal dump, and the C reading of an instruction.
- `src/text.rs`, `src/characters.rs`, `src/numerals.rs` — text as sequences of
  characters, and numbers written in a base.
- `app/` — the calculator and About windows drawn with egui over the library.
- `tests/` — the library's tests.
