//! A verified codec for a compact, streamable binary encoding of weighted
//! directed graphs.
//!
//! A graph file is one header record followed by a sequence of edge records,
//! each framed as a length-prefixed message whose integers use a base-128
//! varint encoding.  An edge record carries either a single `(from, to,
//! weight)` edge or a batch of edges sharing one source node.  The encoder
//! offers an ungrouped mode (one record per edge) and a grouped mode (one
//! record per contiguous run of equal sources); the decoder reconstructs the
//! exact edge sequence from either.  Edge weights are 32-bit floating-point
//! values carried throughout as their raw bit patterns, so the codec itself
//! is purely integral.

pub mod model;
pub mod varint;
pub mod wire;
pub mod group;
pub mod codec;
pub mod text;
pub mod laws;

pub use model::{CodecError, Edge, EdgeRecord, GraphHeader, ToField, WeightField};
pub use codec::{decode_all, encode_grouped, encode_ungrouped, Encoder};
pub use group::GroupState;
pub use text::{base_name, convert_lines, parse_row, EdgeIter};
