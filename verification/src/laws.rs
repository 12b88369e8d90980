//! The codec's laws, stated over the specification functions and proved
//! once for all inputs.

use vstd::prelude::*;
use crate::model::{wf_header, wf_record, CodecError, Edge, HeaderV};
use crate::codec::{lemma_decode_encode, lemma_flatten_singles, spec_decode,
    spec_encode_grouped, spec_encode_ungrouped, spec_single, spec_singles};
use crate::group::{lemma_grouped_records, spec_grouped_records};

verus! {

/// Round trip, ungrouped: for any edge sequence whose header declares the
/// matching count, decoding the ungrouped encoding yields the header and
/// exactly the original edges, in order (and so as a multiset).
pub proof fn lemma_round_trip_ungrouped(h: HeaderV, edges: Seq<Edge>)
    requires
        wf_header(h),
        h.num_edges == edges.len(),
    ensures
        spec_decode(spec_encode_ungrouped(h, edges))
            == Ok::<(HeaderV, Seq<Edge>), CodecError>((h, edges)),
{
    lemma_flatten_singles(edges);
    assert(forall|i: int| 0 <= i < spec_singles(edges).len()
        ==> wf_record(#[trigger] spec_singles(edges)[i])) by {
        assert(forall|i: int| 0 <= i < spec_singles(edges).len()
            ==> spec_singles(edges)[i] == spec_single(edges[i]));
    }
    lemma_decode_encode(h, spec_singles(edges), edges);
}

/// Round trip, grouped: decoding the grouped encoding likewise yields
/// exactly the original edges, in order, for any arrangement of sources —
/// in particular for a sequence pre-sorted by source.  A non-contiguous
/// source merely costs extra records, never an edge.
pub proof fn lemma_round_trip_grouped(h: HeaderV, edges: Seq<Edge>)
    requires
        wf_header(h),
        h.num_edges == edges.len(),
        edges.len() <= u32::MAX,
    ensures
        spec_decode(spec_encode_grouped(h, edges))
            == Ok::<(HeaderV, Seq<Edge>), CodecError>((h, edges)),
{
    lemma_grouped_records(edges);
    lemma_decode_encode(h, spec_grouped_records(edges), edges);
}

/// Mode equivalence: the ungrouped and the grouped encoding of one edge
/// sequence decode to identical results; only the on-disk record count
/// differs.
pub proof fn lemma_mode_equivalence(h: HeaderV, edges: Seq<Edge>)
    requires
        wf_header(h),
        h.num_edges == edges.len(),
        edges.len() <= u32::MAX,
    ensures
        spec_decode(spec_encode_ungrouped(h, edges))
            == spec_decode(spec_encode_grouped(h, edges)),
{
    lemma_round_trip_ungrouped(h, edges);
    lemma_round_trip_grouped(h, edges);
}

} // verus!
