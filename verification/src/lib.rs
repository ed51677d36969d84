use vstd::prelude::*;

pub mod asset_ids;
pub mod asset_nodes;
pub mod asset_sequences;
pub mod asset_values;
pub mod assets;
pub mod base_serde;
pub mod bit_prediction;
pub mod bits;
pub mod compress_round_trip;
pub mod compression;
pub mod decoder;
pub mod deserialize;
pub mod ecs;
pub mod error;
pub mod fibonacci_code;
pub mod field_compare;
pub mod ident_case;
pub mod lempel_ziv;
pub mod lz77;
pub mod lz77_round_trip;
pub mod lz78;
pub mod lz78_round_trip;
pub mod mock;
pub mod node_hooks;
pub mod range_coding;
pub mod rc_round_trip;
pub mod render_order;
pub mod sequence_ir;
pub mod scheme_ops;
pub mod script_labels;
pub mod sequence_decode;
pub mod sequence_encode;
pub mod sequencer;
pub mod serialize;
pub mod target;
pub mod w4alloc;

verus! {

} // verus!
