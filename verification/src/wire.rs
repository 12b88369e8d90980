//! The byte-level wire format: payload encodings for the header and edge
//! records, the length-prefixed framing of payloads, and the round-trip
//! lemmas showing that parsing undoes encoding.

use vstd::prelude::*;
use vstd::arithmetic::power2::{lemma2_to64, lemma_pow2_adds, pow2};
use crate::model::{HeaderV, RecordV, ToV, WeightV};
use crate::varint::{
    lemma_varint_nonempty, lemma_varint_round_trip, spec_parse_varint, spec_varint,
};

verus! {

// ---------------------------------------------------------------------------
// Length bounds

proof fn lemma_varint_len_k(n: u64, k: nat)
    requires
        k >= 1,
        (n as nat) < pow2(7 * k),
    ensures
        spec_varint(n).len() <= k,
    decreases k,
{
    if n < 128 {
    } else {
        lemma2_to64();
        if k == 1 {
            assert(false);
        }
        lemma_pow2_adds(7, 7 * ((k - 1) as nat));
        assert(7 * k == 7 + 7 * ((k - 1) as nat));
        assert(((n / 128) as nat) < pow2(7 * ((k - 1) as nat))) by (nonlinear_arith)
            requires
                (n as nat) < 128 * pow2(7 * ((k - 1) as nat)),
                pow2(7 * ((k - 1) as nat)) >= 1,
        ;
        lemma_varint_len_k((n / 128) as u64, (k - 1) as nat);
    }
}

/// A varint never takes more than ten bytes.
pub proof fn lemma_varint_len10(n: u64)
    ensures
        spec_varint(n).len() <= 10,
{
    lemma2_to64();
    lemma_pow2_adds(64, 6);
    lemma_varint_len_k(n, 10);
}

// ---------------------------------------------------------------------------
// Lists of 32-bit values

/// The varint bytes of each element of `v`, concatenated.
pub open spec fn spec_u32s(v: Seq<u32>) -> Seq<u8>
    decreases v.len(),
{
    if v.len() == 0 {
        Seq::empty()
    } else {
        spec_varint(v[0] as u64) + spec_u32s(v.skip(1))
    }
}

/// A counted list: the element count, then the elements.
pub open spec fn spec_list(v: Seq<u32>) -> Seq<u8> {
    spec_varint(v.len() as u64) + spec_u32s(v)
}

/// Reads `n` varint-encoded 32-bit values from the front of `s`.
pub open spec fn spec_parse_u32s(s: Seq<u8>, n: nat) -> Option<(Seq<u32>, Seq<u8>)>
    decreases n,
{
    if n == 0 {
        Some((Seq::empty(), s))
    } else {
        match spec_parse_varint(s) {
            None => None,
            Some((v, r)) => if v <= u32::MAX {
                match spec_parse_u32s(r, (n - 1) as nat) {
                    None => None,
                    Some((vs, r2)) => Some((seq![v as u32] + vs, r2)),
                }
            } else {
                None
            },
        }
    }
}

/// Reads a counted list from the front of `s`.
pub open spec fn spec_parse_list(s: Seq<u8>) -> Option<(Seq<u32>, Seq<u8>)> {
    match spec_parse_varint(s) {
        None => None,
        Some((n, r)) => spec_parse_u32s(r, n as nat),
    }
}

proof fn lemma_u32s_round_trip(v: Seq<u32>, rest: Seq<u8>)
    ensures
        spec_parse_u32s(spec_u32s(v) + rest, v.len()) == Some((v, rest)),
    decreases v.len(),
{
    if v.len() == 0 {
        assert(spec_u32s(v) + rest =~= rest);
        assert(Seq::<u32>::empty() =~= v);
    } else {
        lemma_u32s_round_trip(v.skip(1), rest);
        assert(spec_u32s(v) + rest =~= spec_varint(v[0] as u64) + (spec_u32s(v.skip(1)) + rest));
        lemma_varint_round_trip(v[0] as u64, spec_u32s(v.skip(1)) + rest);
        assert(seq![v[0]] + v.skip(1) =~= v);
    }
}

/// Parsing a counted list undoes encoding it, whatever bytes follow.
pub proof fn lemma_list_round_trip(v: Seq<u32>, rest: Seq<u8>)
    requires
        v.len() <= u32::MAX,
    ensures
        spec_parse_list(spec_list(v) + rest) == Some((v, rest)),
{
    assert(spec_list(v) + rest =~= spec_varint(v.len() as u64) + (spec_u32s(v) + rest));
    lemma_varint_round_trip(v.len() as u64, spec_u32s(v) + rest);
    lemma_u32s_round_trip(v, rest);
}

proof fn lemma_u32s_len(v: Seq<u32>)
    ensures
        spec_u32s(v).len() <= 10 * v.len(),
    decreases v.len(),
{
    if v.len() > 0 {
        lemma_varint_len10(v[0] as u64);
        lemma_u32s_len(v.skip(1));
    }
}

/// A counted list of at most `u32::MAX` elements stays well under `u64::MAX`
/// bytes.
pub proof fn lemma_list_len(v: Seq<u32>)
    requires
        v.len() <= u32::MAX,
    ensures
        spec_list(v).len() <= 10 + 10 * (u32::MAX as int),
{
    lemma_varint_len10(v.len() as u64);
    lemma_u32s_len(v);
}

// ---------------------------------------------------------------------------
// The two variant fields

/// Tag byte 0 introduces the single shape, tag byte 1 the list shape.
pub open spec fn spec_to_bytes(t: ToV) -> Seq<u8> {
    match t {
        ToV::Node(x) => seq![0u8] + spec_varint(x as u64),
        ToV::List(v) => seq![1u8] + spec_list(v),
    }
}

pub open spec fn spec_weight_bytes(w: WeightV) -> Seq<u8> {
    match w {
        WeightV::Value(x) => seq![0u8] + spec_varint(x as u64),
        WeightV::List(v) => seq![1u8] + spec_list(v),
    }
}

pub open spec fn spec_parse_to(s: Seq<u8>) -> Option<(ToV, Seq<u8>)> {
    if s.len() == 0 {
        None
    } else if s[0] == 0 {
        match spec_parse_varint(s.skip(1)) {
            None => None,
            Some((v, r)) => if v <= u32::MAX {
                Some((ToV::Node(v as u32), r))
            } else {
                None
            },
        }
    } else if s[0] == 1 {
        match spec_parse_list(s.skip(1)) {
            None => None,
            Some((vs, r)) => Some((ToV::List(vs), r)),
        }
    } else {
        None
    }
}

pub open spec fn spec_parse_weight(s: Seq<u8>) -> Option<(WeightV, Seq<u8>)> {
    if s.len() == 0 {
        None
    } else if s[0] == 0 {
        match spec_parse_varint(s.skip(1)) {
            None => None,
            Some((v, r)) => if v <= u32::MAX {
                Some((WeightV::Value(v as u32), r))
            } else {
                None
            },
        }
    } else if s[0] == 1 {
        match spec_parse_list(s.skip(1)) {
            None => None,
            Some((vs, r)) => Some((WeightV::List(vs), r)),
        }
    } else {
        None
    }
}

pub proof fn lemma_to_round_trip(t: ToV, rest: Seq<u8>)
    requires
        t matches ToV::List(v) ==> v.len() <= u32::MAX,
    ensures
        spec_parse_to(spec_to_bytes(t) + rest) == Some((t, rest)),
{
    match t {
        ToV::Node(x) => {
            let s = spec_to_bytes(t) + rest;
            assert(s[0] == 0);
            assert(s.skip(1) =~= spec_varint(x as u64) + rest);
            lemma_varint_round_trip(x as u64, rest);
        },
        ToV::List(v) => {
            let s = spec_to_bytes(t) + rest;
            assert(s[0] == 1);
            assert(s.skip(1) =~= spec_list(v) + rest);
            lemma_list_round_trip(v, rest);
        },
    }
}

pub proof fn lemma_weight_round_trip(w: WeightV, rest: Seq<u8>)
    requires
        w matches WeightV::List(v) ==> v.len() <= u32::MAX,
    ensures
        spec_parse_weight(spec_weight_bytes(w) + rest) == Some((w, rest)),
{
    match w {
        WeightV::Value(x) => {
            let s = spec_weight_bytes(w) + rest;
            assert(s[0] == 0);
            assert(s.skip(1) =~= spec_varint(x as u64) + rest);
            lemma_varint_round_trip(x as u64, rest);
        },
        WeightV::List(v) => {
            let s = spec_weight_bytes(w) + rest;
            assert(s[0] == 1);
            assert(s.skip(1) =~= spec_list(v) + rest);
            lemma_list_round_trip(v, rest);
        },
    }
}

// ---------------------------------------------------------------------------
// Record and header payloads

/// The payload of an edge record: the source node, then the two fields.
pub open spec fn spec_record_bytes(r: RecordV) -> Seq<u8> {
    spec_varint(r.from as u64) + spec_to_bytes(r.to) + spec_weight_bytes(r.weight)
}

/// Reads a whole edge-record payload; trailing bytes make it malformed.
pub open spec fn spec_parse_record(p: Seq<u8>) -> Option<RecordV> {
    match spec_parse_varint(p) {
        None => None,
        Some((f, r1)) => if f <= u32::MAX {
            match spec_parse_to(r1) {
                None => None,
                Some((t, r2)) => match spec_parse_weight(r2) {
                    None => None,
                    Some((w, r3)) => if r3.len() == 0 {
                        Some(RecordV { from: f as u32, to: t, weight: w })
                    } else {
                        None
                    },
                },
            }
        } else {
            None
        },
    }
}

/// The payload of the header record: tag length, tag bytes, node count,
/// edge count.
pub open spec fn spec_header_bytes(h: HeaderV) -> Seq<u8> {
    spec_varint(h.tag.len() as u64) + h.tag + spec_varint(h.num_nodes as u64)
        + spec_varint(h.num_edges)
}

/// Reads a whole header payload; trailing bytes make it malformed.
pub open spec fn spec_parse_header(p: Seq<u8>) -> Option<HeaderV> {
    match spec_parse_varint(p) {
        None => None,
        Some((tl, r1)) => if tl <= r1.len() {
            let tag = r1.take(tl as int);
            match spec_parse_varint(r1.skip(tl as int)) {
                None => None,
                Some((nn, r2)) => if nn <= u32::MAX {
                    match spec_parse_varint(r2) {
                        None => None,
                        Some((ne, r3)) => if r3.len() == 0 {
                            Some(HeaderV { tag: tag, num_nodes: nn as u32, num_edges: ne })
                        } else {
                            None
                        },
                    }
                } else {
                    None
                },
            }
        } else {
            None
        },
    }
}

pub proof fn lemma_record_round_trip(r: RecordV)
    requires
        crate::model::wf_record(r),
    ensures
        spec_parse_record(spec_record_bytes(r)) == Some(r),
{
    let tb = spec_to_bytes(r.to);
    let wb = spec_weight_bytes(r.weight);
    assert(spec_record_bytes(r) =~= spec_varint(r.from as u64) + (tb + wb));
    lemma_varint_round_trip(r.from as u64, tb + wb);
    assert(tb + wb =~= tb + (wb + Seq::<u8>::empty()));
    lemma_to_round_trip(r.to, wb + Seq::<u8>::empty());
    assert(wb + Seq::<u8>::empty() =~= wb + Seq::<u8>::empty() + Seq::<u8>::empty());
    lemma_weight_round_trip(r.weight, Seq::<u8>::empty());
    assert(wb =~= wb + Seq::<u8>::empty());
}

pub proof fn lemma_header_round_trip(h: HeaderV)
    requires
        crate::model::wf_header(h),
    ensures
        spec_parse_header(spec_header_bytes(h)) == Some(h),
{
    let x = spec_varint(h.num_nodes as u64) + spec_varint(h.num_edges);
    assert(spec_header_bytes(h) =~= spec_varint(h.tag.len() as u64) + (h.tag + x));
    lemma_varint_round_trip(h.tag.len() as u64, h.tag + x);
    assert((h.tag + x).take(h.tag.len() as int) =~= h.tag);
    assert((h.tag + x).skip(h.tag.len() as int) =~= x);
    assert(x =~= spec_varint(h.num_nodes as u64) + spec_varint(h.num_edges));
    lemma_varint_round_trip(h.num_nodes as u64, spec_varint(h.num_edges));
    lemma_varint_round_trip(h.num_edges, Seq::<u8>::empty());
    assert(spec_varint(h.num_edges) =~= spec_varint(h.num_edges) + Seq::<u8>::empty());
}

/// A well-formed record's payload fits the framing arithmetic.
pub proof fn lemma_record_bytes_len(r: RecordV)
    requires
        crate::model::wf_record(r),
    ensures
        spec_record_bytes(r).len() <= u64::MAX,
{
    lemma_varint_len10(r.from as u64);
    match r.to {
        ToV::Node(x) => lemma_varint_len10(x as u64),
        ToV::List(v) => lemma_list_len(v),
    }
    match r.weight {
        WeightV::Value(x) => lemma_varint_len10(x as u64),
        WeightV::List(v) => lemma_list_len(v),
    }
}

/// A well-formed header's payload fits the framing arithmetic.
pub proof fn lemma_header_bytes_len(h: HeaderV)
    requires
        crate::model::wf_header(h),
    ensures
        spec_header_bytes(h).len() <= u64::MAX,
{
    lemma_varint_len10(h.tag.len() as u64);
    lemma_varint_len10(h.num_nodes as u64);
    lemma_varint_len10(h.num_edges);
}

// ---------------------------------------------------------------------------
// Framing

/// One frame: the payload length, then the payload.
pub open spec fn spec_frame(p: Seq<u8>) -> Seq<u8> {
    spec_varint(p.len() as u64) + p
}

/// Reads one frame from the front of `s`; `None` when even the frame is
/// incomplete.
pub open spec fn spec_parse_frame(s: Seq<u8>) -> Option<(Seq<u8>, Seq<u8>)> {
    match spec_parse_varint(s) {
        None => None,
        Some((n, r)) => if n <= r.len() {
            Some((r.take(n as int), r.skip(n as int)))
        } else {
            None
        },
    }
}

/// Reads frames until the remaining bytes no longer hold a complete one;
/// a truncated tail simply ends the stream.
pub open spec fn spec_parse_frames(s: Seq<u8>) -> Seq<Seq<u8>>
    decreases s.len(),
{
    if s.len() == 0 {
        Seq::empty()
    } else {
        match spec_parse_frame(s) {
            None => Seq::empty(),
            Some((p, r)) => if r.len() < s.len() {
                seq![p] + spec_parse_frames(r)
            } else {
                seq![p]
            },
        }
    }
}

/// The concatenated frames of a payload sequence.
pub open spec fn spec_frames_bytes(ps: Seq<Seq<u8>>) -> Seq<u8>
    decreases ps.len(),
{
    if ps.len() == 0 {
        Seq::empty()
    } else {
        spec_frame(ps[0]) + spec_frames_bytes(ps.skip(1))
    }
}

pub proof fn lemma_frame_round_trip(p: Seq<u8>, rest: Seq<u8>)
    requires
        p.len() <= u64::MAX,
    ensures
        spec_parse_frame(spec_frame(p) + rest) == Some((p, rest)),
{
    assert(spec_frame(p) + rest =~= spec_varint(p.len() as u64) + (p + rest));
    lemma_varint_round_trip(p.len() as u64, p + rest);
    assert((p + rest).take(p.len() as int) =~= p);
    assert((p + rest).skip(p.len() as int) =~= rest);
}

/// Parsing the concatenated frames of well-sized payloads yields exactly
/// those payloads.
pub proof fn lemma_frames_round_trip(ps: Seq<Seq<u8>>)
    requires
        forall|i: int| 0 <= i < ps.len() ==> #[trigger] ps[i].len() <= u64::MAX,
    ensures
        spec_parse_frames(spec_frames_bytes(ps)) == ps,
    decreases ps.len(),
{
    if ps.len() == 0 {
        assert(spec_parse_frames(spec_frames_bytes(ps)) =~= ps);
    } else {
        let tail = spec_frames_bytes(ps.skip(1));
        lemma_frame_round_trip(ps[0], tail);
        lemma_varint_nonempty(ps[0].len() as u64);
        assert(spec_frames_bytes(ps).len() >= 1 + tail.len());
        assert(forall|i: int| 0 <= i < ps.skip(1).len()
            ==> #[trigger] ps.skip(1)[i].len() <= u64::MAX) by {
            assert(forall|i: int| 0 <= i < ps.skip(1).len() ==> ps.skip(1)[i] == ps[i + 1]);
        }
        lemma_frames_round_trip(ps.skip(1));
        assert(spec_parse_frames(spec_frames_bytes(ps)) =~= ps) by {
            assert(seq![ps[0]] + ps.skip(1) =~= ps);
        }
    }
}

/// Concatenated framing distributes over appending one payload.
pub proof fn lemma_frames_bytes_push(ps: Seq<Seq<u8>>, p: Seq<u8>)
    ensures
        spec_frames_bytes(ps.push(p)) == spec_frames_bytes(ps) + spec_frame(p),
    decreases ps.len(),
{
    if ps.len() == 0 {
        assert(ps.push(p)[0] == p);
        assert(ps.push(p).skip(1) =~= Seq::<Seq<u8>>::empty());
        assert(spec_frames_bytes(Seq::<Seq<u8>>::empty()) == Seq::<u8>::empty());
        assert(spec_frames_bytes(ps) + spec_frame(p) =~= spec_frame(p) + Seq::<u8>::empty());
    } else {
        lemma_frames_bytes_push(ps.skip(1), p);
        assert(ps.push(p)[0] == ps[0]);
        assert(ps.push(p).skip(1) =~= ps.skip(1).push(p));
        assert(spec_frames_bytes(ps) + spec_frame(p)
            =~= spec_frame(ps[0]) + (spec_frames_bytes(ps.skip(1)) + spec_frame(p)));
    }
}

} // verus!
