# Skylite support library, verified

The logic of the Skylite game engine's tooling and runtime support, with contracts proved by
Verus.

## Layout

`src/` is the verified library:

- Compression: `bits`, `bit_prediction`, `fibonacci_code`, `lz77`, `lz78`, `range_coding`,
  `lempel_ziv` (a bit-level LZ77 variant), `decoder` (the decoder chain) and `compression`
  (chaining the methods). The round-trip laws of the methods stand in `lz77_round_trip`,
  `lz78_round_trip`, `rc_round_trip` and `compress_round_trip`.
- The compiled data format of games: `serialize` (big-endian numbers, varint lengths) and
  `deserialize`.
- The asset server's messages: `base_serde` (little-endian, `u32` lengths), `assets`
  (metadata, types, projects, errors), `asset_values` (typed values), `asset_nodes` and
  `asset_sequences`.
- Sequences: `scheme_ops` (reading script operations and branch conditions from Scheme data),
  `sequence_ir` (scripts into the intermediate representation), `script_labels`
  (checking and renaming labels), `sequence_encode` (compiling operations into bytes),
  `sequence_decode` (decoding them at run time), `sequencer` (what each operation does to the
  playback state) and `field_compare` (comparing field values).
- `ecs`: entities as lists of components, one of each type.
- `render_order`: the order in which the nodes of a tree are rendered, and `node_hooks`: which
  methods of a node definition run at each step of its update and render cycle.
- `asset_ids`: numbering the assets of a group by the position of their files.
- `ident_case`: converting identifiers between naming conventions.
- `target` and `mock`: the interface of render targets and a mock target for tests.
- `w4alloc`: the chunk headers of the WASM-4 heap allocator.

`tests/` holds the tests, and `app/` the client of the asset server, which talks to the Racket
process over a socket and hands the answers to the library, and the update loop of a sequence,
which does the work on a node that the library's sequencer hands it.
