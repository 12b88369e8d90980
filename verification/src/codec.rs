//! The codec proper: the meaning of a whole byte stream (`spec_decode`), the
//! decoder that reconstructs every edge from either record shape, the
//! streaming encoder with its ungrouped and grouped write paths, and the
//! theorem that decoding undoes encoding.

use vstd::prelude::*;
use crate::model::{flatten_records, rec_edges, unpack_record, wf_header, wf_record, CodecError,
    Edge, EdgeRecord, GraphHeader, HeaderV, RecordV, ToField, ToV, WeightField, WeightV};
use crate::varint::{read_varint, spec_parse_varint, spec_varint, write_varint};
use crate::group::{opt_rec, spec_flush, spec_grouped_records, spec_pending, spec_run, spec_step,
    wf_group, GroupState, GroupV};
use crate::wire::{lemma_frames_bytes_push, lemma_frames_round_trip,
    lemma_header_bytes_len, lemma_header_round_trip,
    lemma_record_bytes_len, lemma_record_round_trip, spec_frame, spec_frames_bytes,
    spec_header_bytes, spec_list, spec_parse_frame, spec_parse_frames, spec_parse_header,
    spec_parse_list, spec_parse_record, spec_parse_to, spec_parse_u32s, spec_parse_weight,
    spec_record_bytes, spec_to_bytes, spec_u32s, spec_weight_bytes};

verus! {

// ---------------------------------------------------------------------------
// The meaning of a byte stream

/// The edges carried by a sequence of record payloads: each payload must
/// parse as a record and each record must flatten; any failure poisons the
/// whole sequence.
pub open spec fn spec_decode_edges(fs: Seq<Seq<u8>>) -> Option<Seq<Edge>>
    decreases fs.len(),
{
    if fs.len() == 0 {
        Some(Seq::empty())
    } else {
        match spec_parse_record(fs[0]) {
            None => None,
            Some(r) => match rec_edges(r) {
                None => None,
                Some(es) => match spec_decode_edges(fs.skip(1)) {
                    None => None,
                    Some(rest) => Some(es + rest),
                },
            },
        }
    }
}

/// What a whole byte stream means: the frames are read as far as they are
/// complete (a truncated tail merely ends the stream), the first frame must
/// hold the header, and every further frame holds one edge record.
pub open spec fn spec_decode(s: Seq<u8>) -> Result<(HeaderV, Seq<Edge>), CodecError> {
    let frames = spec_parse_frames(s);
    if frames.len() == 0 {
        Err(CodecError::MalformedHeader)
    } else {
        match spec_parse_header(frames[0]) {
            None => Err(CodecError::MalformedHeader),
            Some(h) => match spec_decode_edges(frames.skip(1)) {
                None => Err(CodecError::MalformedRecord),
                Some(es) => Ok((h, es)),
            },
        }
    }
}

// ---------------------------------------------------------------------------
// The bytes an encoding session produces

/// The single-shape record of one edge.
pub open spec fn spec_single(e: Edge) -> RecordV {
    RecordV { from: e.from, to: ToV::Node(e.to), weight: WeightV::Value(e.weight) }
}

/// One single-shape record per edge: the ungrouped record sequence.
pub open spec fn spec_singles(edges: Seq<Edge>) -> Seq<RecordV> {
    edges.map_values(|e: Edge| spec_single(e))
}

/// The framed payloads of a record sequence.
pub open spec fn spec_payloads(recs: Seq<RecordV>) -> Seq<Seq<u8>> {
    recs.map_values(|r: RecordV| spec_record_bytes(r))
}

/// A whole encoded stream: the framed header, then the framed records.
pub open spec fn spec_encode(h: HeaderV, recs: Seq<RecordV>) -> Seq<u8> {
    spec_frame(spec_header_bytes(h)) + spec_frames_bytes(spec_payloads(recs))
}

/// The bytes of an ungrouped encoding of `edges` under header `h`.
pub open spec fn spec_encode_ungrouped(h: HeaderV, edges: Seq<Edge>) -> Seq<u8> {
    spec_encode(h, spec_singles(edges))
}

/// The bytes of a grouped encoding of `edges` under header `h`.
pub open spec fn spec_encode_grouped(h: HeaderV, edges: Seq<Edge>) -> Seq<u8> {
    spec_encode(h, spec_grouped_records(edges))
}

// ---------------------------------------------------------------------------
// Decoding undoes encoding

/// Ungrouped records flatten back to their edges.
pub proof fn lemma_flatten_singles(edges: Seq<Edge>)
    ensures
        flatten_records(spec_singles(edges)) == Some(edges),
    decreases edges.len(),
{
    if edges.len() == 0 {
        assert(spec_singles(edges).len() == 0);
        assert(Seq::<Edge>::empty() =~= edges);
    } else {
        lemma_flatten_singles(edges.skip(1));
        assert(spec_singles(edges).skip(1) =~= spec_singles(edges.skip(1)));
        assert(spec_singles(edges)[0] == spec_single(edges[0]));
        assert(rec_edges(spec_single(edges[0])) == Some(seq![edges[0]]));
        assert(seq![edges[0]] + edges.skip(1) =~= edges);
    }
}

/// Reading record payloads back agrees exactly with flattening the records.
proof fn lemma_decode_edges_payloads(recs: Seq<RecordV>)
    requires
        forall|i: int| 0 <= i < recs.len() ==> wf_record(#[trigger] recs[i]),
    ensures
        spec_decode_edges(spec_payloads(recs)) == flatten_records(recs),
    decreases recs.len(),
{
    if recs.len() == 0 {
    } else {
        assert(forall|i: int| 0 <= i < recs.skip(1).len()
            ==> wf_record(#[trigger] recs.skip(1)[i])) by {
            assert(forall|i: int| 0 <= i < recs.skip(1).len() ==> recs.skip(1)[i] == recs[i + 1]);
        }
        lemma_decode_edges_payloads(recs.skip(1));
        assert(spec_payloads(recs)[0] == spec_record_bytes(recs[0]));
        lemma_record_round_trip(recs[0]);
        assert(spec_payloads(recs).skip(1) =~= spec_payloads(recs.skip(1)));
    }
}

/// The central theorem: an encoded stream decodes to the header it was
/// written with and to the flattening of its records.
pub proof fn lemma_decode_encode(h: HeaderV, recs: Seq<RecordV>, es: Seq<Edge>)
    requires
        wf_header(h),
        forall|i: int| 0 <= i < recs.len() ==> wf_record(#[trigger] recs[i]),
        flatten_records(recs) == Some(es),
    ensures
        spec_decode(spec_encode(h, recs)) == Ok::<(HeaderV, Seq<Edge>), CodecError>((h, es)),
{
    let hb = spec_header_bytes(h);
    let ps = seq![hb] + spec_payloads(recs);
    lemma_header_bytes_len(h);
    assert(forall|i: int| 0 <= i < ps.len() ==> #[trigger] ps[i].len() <= u64::MAX) by {
        assert forall|i: int| 0 <= i < ps.len() implies #[trigger] ps[i].len() <= u64::MAX by {
            if i == 0 {
            } else {
                assert(ps[i] == spec_payloads(recs)[i - 1]);
                assert(spec_payloads(recs)[i - 1] == spec_record_bytes(recs[i - 1]));
                lemma_record_bytes_len(recs[i - 1]);
            }
        }
    }
    lemma_frames_round_trip(ps);
    assert(spec_frames_bytes(ps) =~= spec_encode(h, recs)) by {
        assert(ps[0] == hb);
        assert(ps.skip(1) =~= spec_payloads(recs));
    }
    let frames = spec_parse_frames(spec_encode(h, recs));
    assert(frames == ps);
    assert(frames.len() >= 1);
    lemma_header_round_trip(h);
    assert(frames[0] == hb);
    assert(frames.skip(1) =~= spec_payloads(recs));
    lemma_decode_edges_payloads(recs);
}

// ---------------------------------------------------------------------------
// The decoder

/// Reads one frame starting at `pos`: the payload length, then a copy of
/// the payload bytes.
fn read_frame(s: &Vec<u8>, pos: usize) -> (r: Option<(Vec<u8>, usize)>)
    requires
        pos <= s.len(),
    ensures
        match r {
            Some((p, p2)) => pos < p2 <= s.len()
                && spec_parse_frame(s@.skip(pos as int)) == Some((p@, s@.skip(p2 as int))),
            None => spec_parse_frame(s@.skip(pos as int)) is None,
        },
{
    match read_varint(s, pos) {
        None => None,
        Some((n, p1)) => {
            if n > (s.len() - p1) as u64 {
                None
            } else {
                let nn = n as usize;
                let mut payload: Vec<u8> = Vec::new();
                let mut j: usize = 0;
                while j < nn
                    invariant
                        j <= nn,
                        p1 + nn <= s.len(),
                        payload@ == s@.subrange(p1 as int, p1 + j as int),
                    decreases nn - j,
                {
                    payload.push(s[p1 + j]);
                    proof {
                        assert(payload@ =~= s@.subrange(p1 as int, p1 + (j + 1) as int));
                    }
                    j = j + 1;
                }
                proof {
                    assert(s@.skip(p1 as int).take(n as int) =~= payload@);
                    assert(s@.skip(p1 as int).skip(n as int) =~= s@.skip((p1 + nn) as int));
                }
                Some((payload, p1 + nn))
            }
        },
    }
}

/// Splits a stream into its complete frames; a truncated tail simply ends
/// the stream.
fn split_frames(s: &Vec<u8>) -> (fs: Vec<Vec<u8>>)
    ensures
        fs@.map_values(|f: Vec<u8>| f@) == spec_parse_frames(s@),
{
    let mut fs: Vec<Vec<u8>> = Vec::new();
    let mut pos: usize = 0;
    let mut done: bool = false;
    proof {
        assert(s@.skip(0) =~= s@);
        assert(fs@.map_values(|f: Vec<u8>| f@) + spec_parse_frames(s@) =~= spec_parse_frames(s@));
    }
    while !done && pos < s.len()
        invariant
            pos <= s.len(),
            spec_parse_frames(s@) == fs@.map_values(|f: Vec<u8>| f@)
                + spec_parse_frames(s@.skip(pos as int)),
            done ==> spec_parse_frames(s@.skip(pos as int)) == Seq::<Seq<u8>>::empty(),
        decreases s.len() - pos + (if done { 0int } else { 1int }),
    {
        match read_frame(s, pos) {
            None => {
                proof {
                    assert(spec_parse_frames(s@.skip(pos as int)) == Seq::<Seq<u8>>::empty());
                }
                done = true;
            },
            Some((p, p2)) => {
                proof {
                    let suffix = s@.skip(pos as int);
                    assert(suffix.len() > 0);
                    assert(s@.skip(p2 as int).len() < suffix.len());
                    assert(spec_parse_frames(suffix)
                        == seq![p@] + spec_parse_frames(s@.skip(p2 as int)));
                    assert(fs@.push(p).map_values(|f: Vec<u8>| f@)
                        =~= fs@.map_values(|f: Vec<u8>| f@).push(p@));
                    assert(fs@.map_values(|f: Vec<u8>| f@) + (seq![p@]
                        + spec_parse_frames(s@.skip(p2 as int)))
                        =~= fs@.map_values(|f: Vec<u8>| f@).push(p@)
                            + spec_parse_frames(s@.skip(p2 as int)));
                }
                fs.push(p);
                pos = p2;
            },
        }
    }
    proof {
        if !done {
            assert(s@.skip(pos as int).len() == 0);
        }
        assert(fs@.map_values(|f: Vec<u8>| f@) + Seq::<Seq<u8>>::empty()
            =~= fs@.map_values(|f: Vec<u8>| f@));
    }
    fs
}

/// Reads a counted list of 32-bit values starting at `pos`.
fn read_list(p: &Vec<u8>, pos: usize) -> (r: Option<(Vec<u32>, usize)>)
    requires
        pos <= p.len(),
    ensures
        match r {
            Some((v, p2)) => pos < p2 <= p.len()
                && spec_parse_list(p@.skip(pos as int)) == Some((v@, p@.skip(p2 as int))),
            None => spec_parse_list(p@.skip(pos as int)) is None,
        },
{
    match read_varint(p, pos) {
        None => None,
        Some((n, p1)) => {
            let mut items: Vec<u32> = Vec::new();
            let mut k: u64 = 0;
            let mut cur: usize = p1;
            let mut failed: bool = false;
            while !failed && k < n
                invariant
                    pos < cur <= p.len(),
                    k <= n,
                    !failed ==> spec_parse_u32s(p@.skip(p1 as int), n as nat)
                        == match spec_parse_u32s(p@.skip(cur as int), (n - k) as nat) {
                            None => None::<(Seq<u32>, Seq<u8>)>,
                            Some((vs, r)) => Some((items@ + vs, r)),
                        },
                    failed ==> spec_parse_u32s(p@.skip(p1 as int), n as nat)
                        is None,
                decreases n - k + (if failed { 0int } else { 1int }),
            {
                match read_varint(p, cur) {
                    None => {
                        proof {
                            assert(spec_parse_u32s(p@.skip(cur as int), (n - k) as nat) is None);
                        }
                        failed = true;
                    },
                    Some((v, p2)) => {
                        if v > u32::MAX as u64 {
                            proof {
                                assert(spec_parse_u32s(p@.skip(cur as int), (n - k) as nat)
                                    is None);
                            }
                            failed = true;
                        } else {
                            proof {
                                let tail = spec_parse_u32s(p@.skip(p2 as int),
                                    (n - k - 1) as nat);
                                assert(spec_parse_u32s(p@.skip(cur as int), (n - k) as nat)
                                    == match tail {
                                        None => None::<(Seq<u32>, Seq<u8>)>,
                                        Some((vs, r)) => Some((seq![v as u32] + vs, r)),
                                    });
                                if tail is Some {
                                    let (vs, r) = tail->Some_0;
                                    assert(items@ + (seq![v as u32] + vs)
                                        =~= items@.push(v as u32) + vs);
                                }
                            }
                            items.push(v as u32);
                            cur = p2;
                            k = k + 1;
                        }
                    },
                }
            }
            if failed {
                None
            } else {
                proof {
                    assert(spec_parse_u32s(p@.skip(cur as int), 0) ==
                        Some((Seq::<u32>::empty(), p@.skip(cur as int))));
                    assert(items@ + Seq::<u32>::empty() =~= items@);
                }
                Some((items, cur))
            }
        },
    }
}

/// Reads the target field of a record starting at `pos`.
fn read_to(p: &Vec<u8>, pos: usize) -> (r: Option<(ToField, usize)>)
    requires
        pos <= p.len(),
    ensures
        match r {
            Some((t, p2)) => pos < p2 <= p.len()
                && spec_parse_to(p@.skip(pos as int)) == Some((t@, p@.skip(p2 as int))),
            None => spec_parse_to(p@.skip(pos as int)) is None,
        },
{
    if pos == p.len() {
        return None;
    }
    let tag = p[pos];
    proof {
        assert(p@.skip(pos as int)[0] == tag);
        assert(p@.skip(pos as int).skip(1) =~= p@.skip(pos as int + 1));
    }
    if tag == 0 {
        match read_varint(p, pos + 1) {
            None => None,
            Some((v, p2)) => {
                if v > u32::MAX as u64 {
                    None
                } else {
                    Some((ToField::Node(v as u32), p2))
                }
            },
        }
    } else if tag == 1 {
        match read_list(p, pos + 1) {
            None => None,
            Some((vs, p2)) => Some((ToField::List(vs), p2)),
        }
    } else {
        None
    }
}

/// Reads the weight field of a record starting at `pos`.
fn read_weight(p: &Vec<u8>, pos: usize) -> (r: Option<(WeightField, usize)>)
    requires
        pos <= p.len(),
    ensures
        match r {
            Some((w, p2)) => pos < p2 <= p.len()
                && spec_parse_weight(p@.skip(pos as int)) == Some((w@, p@.skip(p2 as int))),
            None => spec_parse_weight(p@.skip(pos as int)) is None,
        },
{
    if pos == p.len() {
        return None;
    }
    let tag = p[pos];
    proof {
        assert(p@.skip(pos as int)[0] == tag);
        assert(p@.skip(pos as int).skip(1) =~= p@.skip(pos as int + 1));
    }
    if tag == 0 {
        match read_varint(p, pos + 1) {
            None => None,
            Some((v, p2)) => {
                if v > u32::MAX as u64 {
                    None
                } else {
                    Some((WeightField::Value(v as u32), p2))
                }
            },
        }
    } else if tag == 1 {
        match read_list(p, pos + 1) {
            None => None,
            Some((vs, p2)) => Some((WeightField::List(vs), p2)),
        }
    } else {
        None
    }
}

/// Parses one whole record payload; trailing bytes make it malformed.
fn parse_record_payload(p: &Vec<u8>) -> (r: Option<EdgeRecord>)
    ensures
        match r {
            Some(rec) => spec_parse_record(p@) == Some(rec@),
            None => spec_parse_record(p@) is None,
        },
{
    proof {
        assert(p@.skip(0) =~= p@);
    }
    match read_varint(p, 0) {
        None => None,
        Some((f, p1)) => {
            if f > u32::MAX as u64 {
                None
            } else {
                match read_to(p, p1) {
                    None => None,
                    Some((t, p2)) => match read_weight(p, p2) {
                        None => None,
                        Some((w, p3)) => {
                            if p3 == p.len() {
                                proof {
                                    assert(p@.skip(p3 as int).len() == 0);
                                }
                                Some(EdgeRecord { from: f as u32, to: t, weight: w })
                            } else {
                                proof {
                                    assert(p@.skip(p3 as int).len() > 0);
                                }
                                None
                            }
                        },
                    },
                }
            }
        },
    }
}

/// Parses the whole header payload; trailing bytes make it malformed.
fn parse_header_payload(p: &Vec<u8>) -> (r: Option<GraphHeader>)
    ensures
        match r {
            Some(gh) => spec_parse_header(p@) == Some(gh@),
            None => spec_parse_header(p@) is None,
        },
{
    proof {
        assert(p@.skip(0) =~= p@);
    }
    match read_varint(p, 0) {
        None => None,
        Some((tl, p1)) => {
            if tl > (p.len() - p1) as u64 {
                None
            } else {
                let tln = tl as usize;
                let mut tag: Vec<u8> = Vec::new();
                let mut j: usize = 0;
                while j < tln
                    invariant
                        j <= tln,
                        p1 + tln <= p.len(),
                        tag@ == p@.subrange(p1 as int, p1 + j as int),
                    decreases tln - j,
                {
                    tag.push(p[p1 + j]);
                    proof {
                        assert(tag@ =~= p@.subrange(p1 as int, p1 + (j + 1) as int));
                    }
                    j = j + 1;
                }
                proof {
                    assert(p@.skip(p1 as int).take(tl as int) =~= tag@);
                    assert(p@.skip(p1 as int).skip(tl as int) =~= p@.skip((p1 + tln) as int));
                }
                match read_varint(p, p1 + tln) {
                    None => None,
                    Some((nn, p2)) => {
                        if nn > u32::MAX as u64 {
                            None
                        } else {
                            match read_varint(p, p2) {
                                None => None,
                                Some((ne, p3)) => {
                                    if p3 == p.len() {
                                        proof {
                                            assert(p@.skip(p3 as int).len() == 0);
                                        }
                                        Some(GraphHeader {
                                            tag: tag,
                                            num_nodes: nn as u32,
                                            num_edges: ne,
                                        })
                                    } else {
                                        proof {
                                            assert(p@.skip(p3 as int).len() > 0);
                                        }
                                        None
                                    }
                                },
                            }
                        }
                    },
                }
            }
        },
    }
}

/// Decodes a whole byte stream: the header record, then every edge of every
/// record, single or batch shapes alike, in stream order.  The result is
/// exactly `spec_decode` of the bytes.
pub fn decode_all(bytes: &Vec<u8>) -> (r: Result<(GraphHeader, Vec<Edge>), CodecError>)
    ensures
        match r {
            Ok((gh, es)) => spec_decode(bytes@)
                == Ok::<(HeaderV, Seq<Edge>), CodecError>((gh@, es@)),
            Err(e) => spec_decode(bytes@) == Err::<(HeaderV, Seq<Edge>), CodecError>(e),
        },
{
    let frames = split_frames(bytes);
    let ghost fsv = frames@.map_values(|f: Vec<u8>| f@);
    if frames.len() == 0 {
        return Err(CodecError::MalformedHeader);
    }
    let gh = match parse_header_payload(&frames[0]) {
        None => {
            return Err(CodecError::MalformedHeader);
        },
        Some(gh) => gh,
    };
    let mut edges: Vec<Edge> = Vec::new();
    let mut i: usize = 1;
    while i < frames.len()
        invariant
            1 <= i <= frames.len(),
            fsv == frames@.map_values(|f: Vec<u8>| f@),
            fsv == spec_parse_frames(bytes@),
            spec_parse_header(fsv[0]) == Some(gh@),
            spec_decode_edges(fsv.skip(1)) == match spec_decode_edges(fsv.skip(i as int)) {
                None => None::<Seq<Edge>>,
                Some(x) => Some(edges@ + x),
            },
        decreases frames.len() - i,
    {
        proof {
            assert(fsv.skip(i as int)[0] == fsv[i as int]);
            assert(fsv[i as int] == frames@[i as int]@);
            assert(fsv.skip(i as int).skip(1) =~= fsv.skip(i as int + 1));
        }
        let rec = match parse_record_payload(&frames[i]) {
            None => {
                return Err(CodecError::MalformedRecord);
            },
            Some(rec) => rec,
        };
        let mut es = match unpack_record(&rec) {
            Err(_) => {
                return Err(CodecError::MalformedRecord);
            },
            Ok(es) => es,
        };
        proof {
            let tail = spec_decode_edges(fsv.skip(i as int + 1));
            if tail is Some {
                assert(edges@ + (es@ + tail->Some_0) =~= (edges@ + es@) + tail->Some_0);
            }
        }
        edges.append(&mut es);
        i = i + 1;
    }
    proof {
        assert(fsv.skip(i as int).len() == 0);
        assert(spec_decode_edges(fsv.skip(i as int)) == Some(Seq::<Edge>::empty()));
        assert(edges@ + Seq::<Edge>::empty() =~= edges@);
    }
    Ok((gh, edges))
}

// ---------------------------------------------------------------------------
// Writing payloads

/// Appends the varint bytes of each element of `v`.
fn write_u32s(v: &Vec<u32>, out: &mut Vec<u8>)
    ensures
        final(out)@ == old(out)@ + spec_u32s(v@),
{
    let ghost base = out@;
    let mut i: usize = 0;
    proof {
        assert(v@.skip(0) =~= v@);
    }
    while i < v.len()
        invariant
            i <= v.len(),
            base + spec_u32s(v@) == out@ + spec_u32s(v@.skip(i as int)),
        decreases v.len() - i,
    {
        proof {
            assert(v@.skip(i as int)[0] == v@[i as int]);
            assert(v@.skip(i as int).skip(1) =~= v@.skip(i as int + 1));
        }
        write_varint(v[i] as u64, out);
        proof {
            assert(base + spec_u32s(v@) =~= out@ + spec_u32s(v@.skip(i as int + 1)));
        }
        i = i + 1;
    }
    proof {
        assert(v@.skip(v.len() as int).len() == 0);
        assert(out@ + spec_u32s(v@.skip(v.len() as int)) =~= out@);
    }
}

/// Appends a counted list.
fn write_list(v: &Vec<u32>, out: &mut Vec<u8>)
    ensures
        final(out)@ == old(out)@ + spec_list(v@),
{
    write_varint(v.len() as u64, out);
    write_u32s(v, out);
    proof {
        assert(old(out)@ + spec_list(v@)
            =~= (old(out)@ + spec_varint(v@.len() as u64)) + spec_u32s(v@));
    }
}

/// Appends one record payload.
fn write_record_payload(r: &EdgeRecord, out: &mut Vec<u8>)
    ensures
        final(out)@ == old(out)@ + spec_record_bytes(r@),
{
    write_varint(r.from as u64, out);
    match &r.to {
        ToField::Node(t) => {
            out.push(0);
            write_varint(*t as u64, out);
        },
        ToField::List(v) => {
            out.push(1);
            write_list(v, out);
        },
    }
    match &r.weight {
        WeightField::Value(w) => {
            out.push(0);
            write_varint(*w as u64, out);
        },
        WeightField::List(v) => {
            out.push(1);
            write_list(v, out);
        },
    }
    proof {
        assert(out@ =~= old(out)@ + spec_record_bytes(r@));
    }
}

/// Appends the header payload.
fn write_header_payload(h: &GraphHeader, out: &mut Vec<u8>)
    ensures
        final(out)@ == old(out)@ + spec_header_bytes(h@),
{
    write_varint(h.tag.len() as u64, out);
    let ghost mid = out@;
    let mut i: usize = 0;
    while i < h.tag.len()
        invariant
            i <= h.tag.len(),
            out@ == mid + h.tag@.take(i as int),
        decreases h.tag.len() - i,
    {
        out.push(h.tag[i]);
        proof {
            assert(out@ =~= mid + h.tag@.take(i as int + 1));
        }
        i = i + 1;
    }
    write_varint(h.num_nodes as u64, out);
    write_varint(h.num_edges, out);
    proof {
        assert(h.tag@.take(h.tag.len() as int) =~= h.tag@);
        assert(out@ =~= old(out)@ + spec_header_bytes(h@));
    }
}

/// Appends one frame: the payload length, then the payload bytes.
fn write_frame(payload: &Vec<u8>, out: &mut Vec<u8>)
    ensures
        final(out)@ == old(out)@ + spec_frame(payload@),
{
    write_varint(payload.len() as u64, out);
    let ghost mid = out@;
    let mut i: usize = 0;
    while i < payload.len()
        invariant
            i <= payload.len(),
            out@ == mid + payload@.take(i as int),
        decreases payload.len() - i,
    {
        out.push(payload[i]);
        proof {
            assert(out@ =~= mid + payload@.take(i as int + 1));
        }
        i = i + 1;
    }
    proof {
        assert(payload@.take(payload.len() as int) =~= payload@);
        assert(out@ =~= old(out)@ + spec_frame(payload@));
    }
}

// ---------------------------------------------------------------------------
// The streaming encoder

/// A streaming encode session: the header first, then one record per write.
/// A caller that drains the buffer with `take_bytes` after each write keeps
/// the memory bounded by one in-flight record plus the pending batch.  The
/// ghost fields record the bytes already drained, the records framed so far
/// and every edge consumed, and the invariant ties them together, so that
/// `finish` can promise that the whole output decodes to exactly the
/// consumed edges.
pub struct Encoder {
    pub out: Vec<u8>,
    pub header: Option<GraphHeader>,
    pub written: u64,
    pub group: GroupState,
    pub emitted: Ghost<Seq<u8>>,
    pub recs: Ghost<Seq<RecordV>>,
    pub consumed: Ghost<Seq<Edge>>,
}

impl Encoder {
    /// The session invariant.
    pub open spec fn wf(self) -> bool {
        match self.header {
            None => self.emitted@.len() == 0 && self.out@.len() == 0
                && self.recs@ == Seq::<RecordV>::empty()
                && self.consumed@ == Seq::<Edge>::empty() && self.group@ == GroupV::Awaiting
                && self.written == 0,
            Some(gh) => {
                &&& wf_header(gh@)
                &&& self.emitted@ + self.out@ == spec_encode(gh@, self.recs@)
                &&& forall|i: int| 0 <= i < self.recs@.len()
                    ==> wf_record(#[trigger] self.recs@[i])
                &&& flatten_records(self.recs@) matches Some(fl)
                    && fl + spec_pending(self.group@) == self.consumed@
                &&& wf_group(self.group@)
                &&& self.written == self.consumed@.len()
            },
        }
    }

    /// A fresh session with nothing written.
    pub fn new() -> (s: Self)
        ensures
            s.wf(),
            s.header is None,
    {
        Encoder {
            out: Vec::new(),
            header: None,
            written: 0,
            group: GroupState::new(),
            emitted: Ghost(Seq::empty()),
            recs: Ghost(Seq::empty()),
            consumed: Ghost(Seq::empty()),
        }
    }

    /// Hands out the bytes framed since the last drain, so that a caller
    /// can stream them to a sink instead of holding the whole encoding.
    pub fn take_bytes(&mut self) -> (b: Vec<u8>)
        requires
            old(self).wf(),
        ensures
            final(self).wf(),
            b@ == old(self).out@,
            final(self).out@ == Seq::<u8>::empty(),
            final(self).emitted@ == old(self).emitted@ + b@,
            final(self).header == old(self).header,
            final(self).group == old(self).group,
            final(self).written == old(self).written,
            final(self).recs == old(self).recs,
            final(self).consumed == old(self).consumed,
    {
        let mut b: Vec<u8> = Vec::new();
        core::mem::swap(&mut self.out, &mut b);
        self.emitted = Ghost(self.emitted@ + b@);
        proof {
            assert(self.emitted@ + self.out@ =~= old(self).emitted@ + b@);
            if old(self).header is None {
                assert(self.emitted@ =~= Seq::<u8>::empty());
            }
        }
        b
    }

    /// Writes the one header record.  Must precede every edge record.
    pub fn write_header(&mut self, h: GraphHeader)
        requires
            old(self).wf(),
            old(self).header is None,
            h@.tag.len() <= u32::MAX,
        ensures
            final(self).wf(),
            final(self).header matches Some(gh) && gh@ == h@,
            final(self).consumed@ == Seq::<Edge>::empty(),
            final(self).recs@ == Seq::<RecordV>::empty(),
            final(self).group@ == GroupV::Awaiting,
            final(self).written == 0,
            final(self).emitted@ == Seq::<u8>::empty(),
    {
        let ghost hv = h@;
        let mut payload: Vec<u8> = Vec::new();
        write_header_payload(&h, &mut payload);
        write_frame(&payload, &mut self.out);
        self.header = Some(h);
        proof {
            assert(old(self).out@ =~= Seq::<u8>::empty());
            assert(self.emitted@ =~= Seq::<u8>::empty());
            assert(self.emitted@ + self.out@ =~= self.out@);
            assert(spec_payloads(Seq::<RecordV>::empty()).len() == 0);
            assert(spec_frames_bytes(Seq::<Seq<u8>>::empty()) == Seq::<u8>::empty());
            assert(self.out@ =~= spec_encode(hv, Seq::<RecordV>::empty()));
            assert(flatten_records(Seq::<RecordV>::empty()) == Some(Seq::<Edge>::empty()));
            assert(Seq::<Edge>::empty() + spec_pending(GroupV::Awaiting)
                =~= Seq::<Edge>::empty());
        }
    }

    /// Writes one single-shape record carrying `e`.
    pub fn write_edge_ungrouped(&mut self, e: Edge)
        requires
            old(self).wf(),
            old(self).header is Some,
            old(self).group@ == GroupV::Awaiting,
            old(self).written < u64::MAX,
        ensures
            final(self).wf(),
            final(self).header == old(self).header,
            final(self).group@ == GroupV::Awaiting,
            final(self).recs@ == old(self).recs@ + seq![spec_single(e)],
            final(self).consumed@ == old(self).consumed@ + seq![e],
            final(self).written == old(self).written + 1,
            final(self).emitted@ == old(self).emitted@,
    {
        let rec = EdgeRecord {
            from: e.from,
            to: ToField::Node(e.to),
            weight: WeightField::Value(e.weight),
        };
        let mut payload: Vec<u8> = Vec::new();
        write_record_payload(&rec, &mut payload);
        write_frame(&payload, &mut self.out);
        self.written = self.written + 1;
        proof {
            assert(rec@ == spec_single(e));
        }
        self.recs = Ghost(self.recs@ + seq![spec_single(e)]);
        self.consumed = Ghost(self.consumed@ + seq![e]);
        proof {
            let gh = self.header->Some_0;
            let orecs = old(self).recs@;
            let fl = flatten_records(orecs)->Some_0;
            let pb = spec_record_bytes(spec_single(e));
            lemma_frames_bytes_push(spec_payloads(orecs), pb);
            assert(spec_payloads(self.recs@) =~= spec_payloads(orecs).push(pb));
            assert(payload@ =~= pb);
            assert(self.out@ == old(self).out@ + spec_frame(pb));
            assert(spec_encode(gh@, self.recs@)
                =~= spec_encode(gh@, orecs) + spec_frame(pb));
            assert(self.emitted@ + self.out@
                =~= (old(self).emitted@ + old(self).out@) + spec_frame(pb));
            assert(self.emitted@ + self.out@ == spec_encode(gh@, self.recs@));
            assert(rec_edges(spec_single(e)) == Some(seq![e]));
            crate::group::lemma_flatten_push(orecs, spec_single(e), fl, seq![e]);
            assert(fl + spec_pending(GroupV::Awaiting) =~= fl);
            assert((fl + seq![e]) + spec_pending(GroupV::Awaiting) =~= self.consumed@);
            assert(forall|i: int| 0 <= i < self.recs@.len()
                ==> wf_record(#[trigger] self.recs@[i])) by {
                assert(forall|i: int| 0 <= i < orecs.len() ==> self.recs@[i] == orecs[i]);
                assert(self.recs@[orecs.len() as int] == spec_single(e));
            }
        }
    }

    /// Feeds one edge to the grouping machine, framing the batch it flushes
    /// when the source node changes.
    pub fn write_edge_grouped(&mut self, e: Edge)
        requires
            old(self).wf(),
            old(self).header is Some,
            old(self).written < u64::MAX,
            old(self).group@ matches GroupV::Accum { to, .. } ==> to.len() < u32::MAX,
        ensures
            final(self).wf(),
            final(self).header == old(self).header,
            final(self).group@ == spec_step(old(self).group@, e).0,
            final(self).recs@ == old(self).recs@ + opt_rec(spec_step(old(self).group@, e).1),
            final(self).consumed@ == old(self).consumed@ + seq![e],
            final(self).written == old(self).written + 1,
            final(self).emitted@ == old(self).emitted@,
    {
        proof {
            crate::group::lemma_step(old(self).group@, e);
        }
        let ghost ost = self.group@;
        let ghost orecs = self.recs@;
        let ghost fl = flatten_records(self.recs@)->Some_0;
        let flushed = self.group.step(e);
        match flushed {
            None => {
                proof {
                    assert(orecs + opt_rec(spec_step(ost, e).1) =~= orecs);
                }
            },
            Some(rec) => {
                let mut payload: Vec<u8> = Vec::new();
                write_record_payload(&rec, &mut payload);
                proof {
                    assert(payload@ =~= spec_record_bytes(rec@));
                }
                write_frame(&payload, &mut self.out);
            },
        }
        self.written = self.written + 1;
        self.recs = Ghost(orecs + opt_rec(spec_step(ost, e).1));
        self.consumed = Ghost(self.consumed@ + seq![e]);
        proof {
            let gh = self.header->Some_0;
            let em = spec_step(ost, e).1;
            match em {
                None => {
                    assert(self.recs@ =~= orecs);
                    assert(self.emitted@ + self.out@ == spec_encode(gh@, self.recs@));
                    assert(fl + (spec_pending(ost) + seq![e])
                        =~= (fl + spec_pending(ost)) + seq![e]);
                },
                Some(rv) => {
                    let pb = spec_record_bytes(rv);
                    lemma_frames_bytes_push(spec_payloads(orecs), pb);
                    assert(spec_payloads(self.recs@) =~= spec_payloads(orecs).push(pb));
                    assert(self.out@ == old(self).out@ + spec_frame(pb));
                    assert(spec_encode(gh@, self.recs@)
                        =~= spec_encode(gh@, orecs) + spec_frame(pb));
                    assert(self.emitted@ + self.out@
                        =~= (old(self).emitted@ + old(self).out@) + spec_frame(pb));
                    assert(self.emitted@ + self.out@ == spec_encode(gh@, self.recs@));
                    crate::group::lemma_flatten_push(orecs, rv, fl, spec_pending(ost));
                    assert((fl + spec_pending(ost)) + seq![e]
                        =~= old(self).consumed@ + seq![e]);
                    assert(forall|i: int| 0 <= i < self.recs@.len()
                        ==> wf_record(#[trigger] self.recs@[i])) by {
                        assert(forall|i: int| 0 <= i < orecs.len()
                            ==> self.recs@[i] == orecs[i]);
                        assert(self.recs@[orecs.len() as int] == rv);
                    }
                },
            }
        }
    }

    /// Ends the session: flushes the pending batch, then enforces the
    /// header's declared edge count against the edges actually consumed.
    /// On success the drained bytes followed by the returned tail decode to
    /// exactly the consumed edges; on a count mismatch nothing usable is
    /// returned.
    pub fn finish(self) -> (r: Result<Vec<u8>, CodecError>)
        requires
            self.wf(),
            self.header is Some,
        ensures
            ({
                let gh = self.header->Some_0;
                match r {
                    Ok(b) => gh@.num_edges == self.consumed@.len()
                        && self.emitted@ + b@
                            == spec_encode(gh@, self.recs@ + opt_rec(spec_flush(self.group@)))
                        && spec_decode(self.emitted@ + b@)
                            == Ok::<(HeaderV, Seq<Edge>), CodecError>((gh@, self.consumed@)),
                    Err(e) => e == CodecError::CountMismatch
                        && gh@.num_edges != self.consumed@.len(),
                }
            }),
    {
        let ghost ge = self;
        let Encoder { mut out, header, written, group, .. } = self;
        let gh = match header {
            Some(gh) => gh,
            None => {
                proof {
                    assert(false);
                }
                unreached()
            },
        };
        proof {
            crate::group::lemma_flush(ge.group@);
        }
        let flushed = group.flush();
        let ghost recs2 = ge.recs@ + opt_rec(spec_flush(ge.group@));
        match flushed {
            None => {
                proof {
                    assert(recs2 =~= ge.recs@);
                    assert(ge.emitted@ + out@ == spec_encode(gh@, recs2));
                }
            },
            Some(rec) => {
                let mut payload: Vec<u8> = Vec::new();
                write_record_payload(&rec, &mut payload);
                write_frame(&payload, &mut out);
                proof {
                    let rv = spec_flush(ge.group@)->Some_0;
                    let pb = spec_record_bytes(rv);
                    lemma_frames_bytes_push(spec_payloads(ge.recs@), pb);
                    assert(spec_payloads(recs2) =~= spec_payloads(ge.recs@).push(pb));
                    assert(payload@ =~= pb);
                    assert(out@ == ge.out@ + spec_frame(pb));
                    assert(spec_encode(gh@, recs2) =~= spec_encode(gh@, ge.recs@) + spec_frame(pb));
                    assert(ge.emitted@ + out@ =~= (ge.emitted@ + ge.out@) + spec_frame(pb));
                    assert(ge.emitted@ + out@ == spec_encode(gh@, recs2));
                }
            },
        }
        proof {
            let fl = flatten_records(ge.recs@)->Some_0;
            match spec_flush(ge.group@) {
                None => {
                    assert(flatten_records(recs2) == Some(fl));
                    assert(fl =~= ge.consumed@);
                },
                Some(rv) => {
                    crate::group::lemma_flatten_push(ge.recs@, rv, fl, spec_pending(ge.group@));
                    assert(flatten_records(recs2) == Some(fl + spec_pending(ge.group@)));
                },
            }
            assert(forall|i: int| 0 <= i < recs2.len()
                ==> wf_record(#[trigger] recs2[i])) by {
                assert(forall|i: int| 0 <= i < ge.recs@.len() ==> recs2[i] == ge.recs@[i]);
                if spec_flush(ge.group@) is Some {
                    assert(recs2[ge.recs@.len() as int] == spec_flush(ge.group@)->Some_0);
                }
            }
            lemma_decode_encode(gh@, recs2, ge.consumed@);
        }
        if written != gh.num_edges {
            Err(CodecError::CountMismatch)
        } else {
            Ok(out)
        }
    }
}

// ---------------------------------------------------------------------------
// One-shot encoders

/// Encodes `edges` under `header` with one single-shape record per edge.
/// Succeeds exactly when the header's declared edge count equals the number
/// of edges supplied, and then the output decodes back to exactly `edges`.
pub fn encode_ungrouped(header: GraphHeader, edges: &Vec<Edge>) -> (r: Result<Vec<u8>, CodecError>)
    requires
        header@.tag.len() <= u32::MAX,
    ensures
        match r {
            Ok(b) => header@.num_edges == edges@.len()
                && b@ == spec_encode_ungrouped(header@, edges@)
                && spec_decode(b@) == Ok::<(HeaderV, Seq<Edge>), CodecError>((header@, edges@)),
            Err(e) => e == CodecError::CountMismatch && header@.num_edges != edges@.len(),
        },
{
    let ghost hv = header@;
    let mut enc = Encoder::new();
    enc.write_header(header);
    let mut i: usize = 0;
    proof {
        assert(edges@.take(0) =~= Seq::<Edge>::empty());
        assert(spec_singles(Seq::<Edge>::empty()) =~= Seq::<RecordV>::empty());
    }
    while i < edges.len()
        invariant
            i <= edges.len(),
            enc.wf(),
            enc.header matches Some(gh) && gh@ == hv,
            enc.group@ == GroupV::Awaiting,
            enc.consumed@ == edges@.take(i as int),
            enc.recs@ == spec_singles(edges@.take(i as int)),
            enc.written == i,
            enc.emitted@ == Seq::<u8>::empty(),
        decreases edges.len() - i,
    {
        enc.write_edge_ungrouped(edges[i]);
        proof {
            assert(edges@.take(i as int + 1) =~= edges@.take(i as int) + seq![edges@[i as int]]);
            assert(spec_singles(edges@.take(i as int + 1))
                =~= spec_singles(edges@.take(i as int)) + seq![spec_single(edges@[i as int])]);
        }
        i = i + 1;
    }
    proof {
        assert(edges@.take(edges.len() as int) =~= edges@);
    }
    let ghost ge = enc;
    let r = enc.finish();
    proof {
        if r is Ok {
            assert(ge.recs@ + opt_rec(spec_flush(ge.group@)) =~= spec_singles(edges@));
            assert(ge.emitted@ + r->Ok_0@ =~= r->Ok_0@);
        }
    }
    r
}

/// Encodes `edges` under `header` through the grouping machine: one batch
/// record per contiguous run of equal sources.  Succeeds exactly when the
/// declared edge count matches, and then the output decodes back to exactly
/// `edges`, whatever the arrangement of sources.
pub fn encode_grouped(header: GraphHeader, edges: &Vec<Edge>) -> (r: Result<Vec<u8>, CodecError>)
    requires
        header@.tag.len() <= u32::MAX,
        edges@.len() <= u32::MAX,
    ensures
        match r {
            Ok(b) => header@.num_edges == edges@.len()
                && b@ == spec_encode_grouped(header@, edges@)
                && spec_decode(b@) == Ok::<(HeaderV, Seq<Edge>), CodecError>((header@, edges@)),
            Err(e) => e == CodecError::CountMismatch && header@.num_edges != edges@.len(),
        },
{
    let ghost hv = header@;
    let mut enc = Encoder::new();
    enc.write_header(header);
    let mut i: usize = 0;
    proof {
        assert(edges@.take(0) =~= Seq::<Edge>::empty());
    }
    while i < edges.len()
        invariant
            i <= edges.len(),
            edges@.len() <= u32::MAX,
            enc.wf(),
            enc.header matches Some(gh) && gh@ == hv,
            enc.group@ == spec_run(edges@.take(i as int)).0,
            enc.recs@ == spec_run(edges@.take(i as int)).1,
            enc.consumed@ == edges@.take(i as int),
            enc.written == i,
            enc.emitted@ == Seq::<u8>::empty(),
        decreases edges.len() - i,
    {
        proof {
            crate::group::lemma_run(edges@.take(i as int));
            match enc.group@ {
                GroupV::Awaiting => {},
                GroupV::Accum { to, .. } => {
                    assert(to.len() == spec_pending(enc.group@).len());
                    assert(spec_pending(enc.group@).len() <= i);
                },
            }
        }
        enc.write_edge_grouped(edges[i]);
        proof {
            assert(edges@.take(i as int + 1).drop_last() =~= edges@.take(i as int));
            assert(edges@.take(i as int + 1).last() == edges@[i as int]);
            assert(edges@.take(i as int + 1) =~= edges@.take(i as int) + seq![edges@[i as int]]);
        }
        i = i + 1;
    }
    proof {
        assert(edges@.take(edges.len() as int) =~= edges@);
    }
    let ghost ge = enc;
    let r = enc.finish();
    proof {
        if r is Ok {
            assert(ge.recs@ + opt_rec(spec_flush(ge.group@)) == spec_grouped_records(edges@));
            assert(ge.emitted@ + r->Ok_0@ =~= r->Ok_0@);
        }
    }
    r
}

} // verus!
