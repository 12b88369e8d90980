//! The record model of the binary graph format: the header, the two shapes
//! of an edge record, the flattening of records back into plain edges, and
//! the error taxonomy shared by the whole crate.

use vstd::prelude::*;

verus! {

/// One directed, weighted edge.  The weight is a 32-bit float carried as its
/// raw bit pattern, so that the codec stays purely integral; callers convert
/// with `f32::to_bits` / `f32::from_bits` at the boundary.
#[derive(Clone, Copy, PartialEq, Eq, Structural, Debug)]
pub struct Edge {
    pub from: u32,
    pub to: u32,
    pub weight: u32,
}

/// Everything that can go wrong while converting or decoding a graph.
#[derive(Clone, Copy, PartialEq, Eq, Structural, Debug)]
pub enum CodecError {
    /// A text header line with the wrong field count or an unparsable field,
    /// or a binary stream whose header record is absent or corrupt.
    MalformedHeader,
    /// A text data row whose numeric field failed to parse.
    MalformedRow,
    /// A binary edge record whose `to` and `weight` variants disagree, whose
    /// two lists differ in length, or whose bytes do not parse.
    MalformedRecord,
    /// The header's declared edge count differs from the edges actually seen.
    CountMismatch,
}

/// The header record: a human-readable tag plus the declared node and edge
/// counts.  The tag is kept as raw bytes.
#[derive(Clone, PartialEq, Eq, Debug)]
pub struct GraphHeader {
    pub tag: Vec<u8>,
    pub num_nodes: u32,
    pub num_edges: u64,
}

/// Mathematical value of a `GraphHeader`.
pub struct HeaderV {
    pub tag: Seq<u8>,
    pub num_nodes: u32,
    pub num_edges: u64,
}

impl View for GraphHeader {
    type V = HeaderV;

    open spec fn view(&self) -> HeaderV {
        HeaderV { tag: self.tag@, num_nodes: self.num_nodes, num_edges: self.num_edges }
    }
}

/// The target field of an edge record: one node, or a list of nodes.
#[derive(Clone, PartialEq, Eq, Debug)]
pub enum ToField {
    Node(u32),
    List(Vec<u32>),
}

/// The weight field of an edge record: one weight, or a list of weights
/// (each a 32-bit float's bit pattern).
#[derive(Clone, PartialEq, Eq, Debug)]
pub enum WeightField {
    Value(u32),
    List(Vec<u32>),
}

/// Mathematical value of a `ToField`.
pub enum ToV {
    Node(u32),
    List(Seq<u32>),
}

/// Mathematical value of a `WeightField`.
pub enum WeightV {
    Value(u32),
    List(Seq<u32>),
}

impl View for ToField {
    type V = ToV;

    open spec fn view(&self) -> ToV {
        match self {
            ToField::Node(t) => ToV::Node(*t),
            ToField::List(v) => ToV::List(v@),
        }
    }
}

impl View for WeightField {
    type V = WeightV;

    open spec fn view(&self) -> WeightV {
        match self {
            WeightField::Value(w) => WeightV::Value(*w),
            WeightField::List(v) => WeightV::List(v@),
        }
    }
}

/// One edge record as it stands on the wire: a source node and the two
/// variant fields.  The `to` and `weight` variants are chosen independently
/// by the bytes, so a mismatched pair is representable and is rejected when
/// the record is flattened, never coerced.
#[derive(Clone, PartialEq, Eq, Debug)]
pub struct EdgeRecord {
    pub from: u32,
    pub to: ToField,
    pub weight: WeightField,
}

/// Mathematical value of an `EdgeRecord`.
pub struct RecordV {
    pub from: u32,
    pub to: ToV,
    pub weight: WeightV,
}

impl View for EdgeRecord {
    type V = RecordV;

    open spec fn view(&self) -> RecordV {
        RecordV { from: self.from, to: self.to@, weight: self.weight@ }
    }
}

/// The edges a record stands for: one edge for the single shape, the
/// positionally paired edges for the batch shape, and `None` for the two
/// mismatched shapes and for a batch whose lists differ in length.
pub open spec fn rec_edges(r: RecordV) -> Option<Seq<Edge>> {
    match (r.to, r.weight) {
        (ToV::Node(t), WeightV::Value(w)) => Some(
            seq![Edge { from: r.from, to: t, weight: w }],
        ),
        (ToV::List(ts), WeightV::List(ws)) => if ts.len() == ws.len() {
            Some(Seq::new(ts.len(), |i: int| Edge { from: r.from, to: ts[i], weight: ws[i] }))
        } else {
            None
        },
        _ => None,
    }
}

/// A record small enough to frame: both lists, if present, have at most
/// `u32::MAX` entries (the batch length is a 32-bit count).
pub open spec fn wf_record(r: RecordV) -> bool {
    &&& match r.to {
        ToV::Node(_) => true,
        ToV::List(ts) => ts.len() <= u32::MAX,
    }
    &&& match r.weight {
        WeightV::Value(_) => true,
        WeightV::List(ws) => ws.len() <= u32::MAX,
    }
}

/// A header small enough to frame: the tag has at most `u32::MAX` bytes.
pub open spec fn wf_header(h: HeaderV) -> bool {
    h.tag.len() <= u32::MAX
}

/// The edges of a whole record sequence, in order; `None` as soon as any
/// record is malformed.
pub open spec fn flatten_records(rs: Seq<RecordV>) -> Option<Seq<Edge>>
    decreases rs.len(),
{
    if rs.len() == 0 {
        Some(Seq::empty())
    } else {
        match rec_edges(rs[0]) {
            None => None,
            Some(es) => match flatten_records(rs.skip(1)) {
                None => None,
                Some(rest) => Some(es + rest),
            },
        }
    }
}

/// Flattens one record into the edges it stands for, rejecting the
/// mismatched and unequal-length shapes with `MalformedRecord`.
pub fn unpack_record(r: &EdgeRecord) -> (res: Result<Vec<Edge>, CodecError>)
    ensures
        match res {
            Ok(es) => rec_edges(r@) == Some(es@),
            Err(e) => e == CodecError::MalformedRecord && rec_edges(r@) is None,
        },
{
    match (&r.to, &r.weight) {
        (ToField::Node(t), WeightField::Value(w)) => {
            let es = vec![Edge { from: r.from, to: *t, weight: *w }];
            proof {
                assert(rec_edges(r@) == Some(es@)) by {
                    assert(es@ =~= seq![Edge { from: r.from, to: r.to@->Node_0, weight: r.weight@->Value_0 }]);
                }
            }
            Ok(es)
        },
        (ToField::List(ts), WeightField::List(ws)) => {
            if ts.len() != ws.len() {
                Err(CodecError::MalformedRecord)
            } else {
                let mut es: Vec<Edge> = Vec::new();
                let mut i: usize = 0;
                while i < ts.len()
                    invariant
                        i <= ts.len(),
                        ts.len() == ws.len(),
                        r.to@ matches ToV::List(tv) && tv == ts@,
                        r.weight@ matches WeightV::List(wv) && wv == ws@,
                        es@ == Seq::new(i as nat, |j: int| Edge { from: r.from, to: ts@[j], weight: ws@[j] }),
                    decreases ts.len() - i,
                {
                    es.push(Edge { from: r.from, to: ts[i], weight: ws[i] });
                    proof {
                        assert(es@ =~= Seq::new((i + 1) as nat, |j: int| Edge { from: r.from, to: ts@[j], weight: ws@[j] }));
                    }
                    i = i + 1;
                }
                proof {
                    assert(rec_edges(r@) == Some(es@)) by {
                        assert(es@ =~= Seq::new(ts@.len(), |j: int| Edge { from: r.from, to: ts@[j], weight: ws@[j] }));
                    }
                }
                Ok(es)
            }
        },
        _ => Err(CodecError::MalformedRecord),
    }
}

} // verus!
