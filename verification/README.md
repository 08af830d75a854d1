# renjulibviewer

A viewer library for Renju opening books (`.lib` trees and `.db` position
databases), with a VCF (victory by continuous fours) solver, written in Verus
and verified.

Layout of `src/`:

- `board.rs`: the game board (stones, side to move, undo/redo history).
- `engine/`: the hashing board and its symmetry-aware Zobrist keys (with the
  proof, in `keys.rs` and `key_chain.rs`, that the written key table is the
  generator's output), the node type of the book tree and the text pool.
- `io/`: reading `.lib` files and `.db` databases (`parser.rs`), writing them
  (`writer.rs`), label texts (`labels.rs`), text encodings (`codec.rs`), and
  the proof that a written `.lib` file reads back as its tree
  (`lib_roundtrip.rs`).
- `exportkifu.rs`, `kifu_roundtrip.rs`: move notation, SGF and RenjuPortal
  links, and the proofs that they read back what they write.
- `session.rs`, `branches.rs`: the viewer's state and the decisions behind its
  commands (moving through the tree, comments, branch marks).
- `vcf/`: Black's forbidden moves and the VCF search. The search asks a stop
  signal whether to go on; the public searches build it from the clock and a
  cancel flag.

`app/` holds the command-line program around the library (file I/O, settings,
running a search), and `tests/` the tests.
