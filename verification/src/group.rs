//! The grouping state machine of the encoder: consecutive edges sharing one
//! source node accumulate into a pending batch, and a differing source (or
//! the end of the stream) flushes the batch as one list-shaped record.
//!
//! Grouping never reorders or buffers beyond the current run: a source that
//! reappears non-contiguously simply starts a fresh batch, so the flattened
//! records always reproduce the input edges exactly, and one record per
//! distinct source arises exactly when the input is source-contiguous.

use vstd::prelude::*;
use crate::model::{flatten_records, rec_edges, wf_record, Edge, EdgeRecord, RecordV, ToField,
    ToV, WeightField, WeightV};

verus! {

/// The encoder is either waiting for the first edge of a batch or
/// accumulating the edges of one source node.
pub enum GroupState {
    AwaitingFirstEdge,
    AccumulatingBatch { from: u32, to: Vec<u32>, weight: Vec<u32> },
}

/// Mathematical value of a `GroupState`.
pub enum GroupV {
    Awaiting,
    Accum { from: u32, to: Seq<u32>, weight: Seq<u32> },
}

impl View for GroupState {
    type V = GroupV;

    open spec fn view(&self) -> GroupV {
        match self {
            GroupState::AwaitingFirstEdge => GroupV::Awaiting,
            GroupState::AccumulatingBatch { from, to, weight } => GroupV::Accum {
                from: *from,
                to: to@,
                weight: weight@,
            },
        }
    }
}

/// A healthy state: the two pending lists run in step, a pending batch is
/// never empty, and it stays within the 32-bit batch count.
pub open spec fn wf_group(st: GroupV) -> bool {
    match st {
        GroupV::Awaiting => true,
        GroupV::Accum { from, to, weight } => to.len() == weight.len() && 1 <= to.len() <= u32::MAX,
    }
}

/// The edges held by the pending batch, in arrival order.
pub open spec fn spec_pending(st: GroupV) -> Seq<Edge> {
    match st {
        GroupV::Awaiting => Seq::empty(),
        GroupV::Accum { from, to, weight } => Seq::new(
            to.len(),
            |i: int| Edge { from: from, to: to[i], weight: weight[i] },
        ),
    }
}

/// The single transition rule: same source appends to the batch, a new
/// source flushes the batch and restarts with the incoming edge.
pub open spec fn spec_step(st: GroupV, e: Edge) -> (GroupV, Option<RecordV>) {
    match st {
        GroupV::Awaiting => (
            GroupV::Accum { from: e.from, to: seq![e.to], weight: seq![e.weight] },
            None,
        ),
        GroupV::Accum { from, to, weight } => if e.from == from {
            (GroupV::Accum { from: from, to: to.push(e.to), weight: weight.push(e.weight) }, None)
        } else {
            (
                GroupV::Accum { from: e.from, to: seq![e.to], weight: seq![e.weight] },
                Some(RecordV { from: from, to: ToV::List(to), weight: WeightV::List(weight) }),
            )
        },
    }
}

/// End of stream: the pending batch, if any, leaves as one record.
pub open spec fn spec_flush(st: GroupV) -> Option<RecordV> {
    match st {
        GroupV::Awaiting => None,
        GroupV::Accum { from, to, weight } => Some(
            RecordV { from: from, to: ToV::List(to), weight: WeightV::List(weight) },
        ),
    }
}

/// One step conserves the edges: the flushed record (if any) carries exactly
/// the old pending edges, and the new pending batch absorbs the new edge.
pub proof fn lemma_step(st: GroupV, e: Edge)
    requires
        wf_group(st),
        st matches GroupV::Accum { to, .. } ==> to.len() < u32::MAX,
    ensures
        ({
            let (st2, em) = spec_step(st, e);
            &&& wf_group(st2)
            &&& st2 matches GroupV::Accum { to, .. } && to.len() <= spec_pending(st).len() + 1
            &&& match em {
                None => spec_pending(st2) == spec_pending(st) + seq![e],
                Some(r) => wf_record(r) && rec_edges(r) == Some(spec_pending(st))
                    && spec_pending(st2) == seq![e],
            }
        }),
{
    let (st2, em) = spec_step(st, e);
    match st {
        GroupV::Awaiting => {
            assert(spec_pending(st2) =~= spec_pending(st) + seq![e]);
        },
        GroupV::Accum { from, to, weight } => {
            if e.from == from {
                assert(spec_pending(st2) =~= spec_pending(st) + seq![e]);
            } else {
                let r = em->Some_0;
                assert(rec_edges(r) == Some(spec_pending(st)));
                assert(spec_pending(st2) =~= seq![e]);
            }
        },
    }
}

/// Flushing conserves the edges likewise.
pub proof fn lemma_flush(st: GroupV)
    requires
        wf_group(st),
    ensures
        match spec_flush(st) {
            None => spec_pending(st).len() == 0,
            Some(r) => wf_record(r) && rec_edges(r) == Some(spec_pending(st)),
        },
{
}

/// The records a step or a flush emitted, as a sequence of zero or one.
pub open spec fn opt_rec(r: Option<RecordV>) -> Seq<RecordV> {
    match r {
        None => Seq::empty(),
        Some(x) => seq![x],
    }
}

/// The state and the emitted records after the machine has consumed a whole
/// edge sequence.
pub open spec fn spec_run(edges: Seq<Edge>) -> (GroupV, Seq<RecordV>)
    decreases edges.len(),
{
    if edges.len() == 0 {
        (GroupV::Awaiting, Seq::empty())
    } else {
        let (st, recs) = spec_run(edges.drop_last());
        let (st2, em) = spec_step(st, edges.last());
        (st2, recs + opt_rec(em))
    }
}

/// All the records of a grouped encoding: the run's emissions plus the
/// final flush.
pub open spec fn spec_grouped_records(edges: Seq<Edge>) -> Seq<RecordV> {
    let (st, recs) = spec_run(edges);
    recs + opt_rec(spec_flush(st))
}

/// Flattening distributes over appending one record.
pub proof fn lemma_flatten_push(rs: Seq<RecordV>, r: RecordV, fl: Seq<Edge>, es: Seq<Edge>)
    requires
        flatten_records(rs) == Some(fl),
        rec_edges(r) == Some(es),
    ensures
        flatten_records(rs + seq![r]) == Some(fl + es),
    decreases rs.len(),
{
    if rs.len() == 0 {
        assert((rs + seq![r])[0] == r);
        assert((rs + seq![r]).skip(1) =~= Seq::<RecordV>::empty());
        assert(flatten_records(Seq::<RecordV>::empty()) == Some(Seq::<Edge>::empty()));
        assert(flatten_records(rs + seq![r]) == Some(es + Seq::<Edge>::empty()));
        assert(fl + es =~= es + Seq::<Edge>::empty());
    } else {
        let fl0 = rec_edges(rs[0])->Some_0;
        let flrest = flatten_records(rs.skip(1))->Some_0;
        lemma_flatten_push(rs.skip(1), r, flrest, es);
        assert((rs + seq![r])[0] == rs[0]);
        assert((rs + seq![r]).skip(1) =~= rs.skip(1) + seq![r]);
        assert(fl + es =~= fl0 + (flrest + es));
    }
}

/// The run invariant: the machine's emitted records flatten to a prefix of
/// the input, and the pending batch holds exactly the rest.
pub proof fn lemma_run(edges: Seq<Edge>)
    requires
        edges.len() <= u32::MAX,
    ensures
        ({
            let (st, recs) = spec_run(edges);
            &&& wf_group(st)
            &&& (st is Awaiting <==> edges.len() == 0)
            &&& spec_pending(st).len() <= edges.len()
            &&& forall|i: int| 0 <= i < recs.len() ==> wf_record(#[trigger] recs[i])
            &&& flatten_records(recs) matches Some(fl) && fl + spec_pending(st) == edges
        }),
    decreases edges.len(),
{
    if edges.len() == 0 {
        let (st, recs) = spec_run(edges);
        assert(flatten_records(recs) == Some(Seq::<Edge>::empty()));
        assert(Seq::<Edge>::empty() + spec_pending(st) =~= edges);
    } else {
        lemma_run(edges.drop_last());
        let (st, recs) = spec_run(edges.drop_last());
        let fl = flatten_records(recs)->Some_0;
        let e = edges.last();
        match st {
            GroupV::Awaiting => {},
            GroupV::Accum { to, .. } => {
                assert(to.len() == spec_pending(st).len());
            },
        }
        lemma_step(st, e);
        let (st2, em) = spec_step(st, e);
        match em {
            None => {
                assert(recs + opt_rec(em) =~= recs);
                assert(fl + spec_pending(st2) =~= edges) by {
                    assert(edges.drop_last() + seq![e] =~= edges);
                    assert(fl + (spec_pending(st) + seq![e])
                        =~= (fl + spec_pending(st)) + seq![e]);
                }
            },
            Some(r) => {
                lemma_flatten_push(recs, r, fl, spec_pending(st));
                assert(flatten_records(recs + opt_rec(em)) == Some(fl + spec_pending(st)));
                assert((fl + spec_pending(st)) + spec_pending(st2) =~= edges) by {
                    assert(edges.drop_last() + seq![e] =~= edges);
                }
                assert(forall|i: int| 0 <= i < (recs + opt_rec(em)).len()
                    ==> wf_record(#[trigger] (recs + opt_rec(em))[i])) by {
                    assert(forall|i: int| 0 <= i < recs.len()
                        ==> (recs + opt_rec(em))[i] == recs[i]);
                    assert((recs + opt_rec(em))[recs.len() as int] == r);
                }
            },
        }
    }
}

/// The records of a grouped encoding flatten back to exactly the input
/// edges, in order, whatever the input's arrangement of sources.
pub proof fn lemma_grouped_records(edges: Seq<Edge>)
    requires
        edges.len() <= u32::MAX,
    ensures
        forall|i: int| 0 <= i < spec_grouped_records(edges).len()
            ==> wf_record(#[trigger] spec_grouped_records(edges)[i]),
        flatten_records(spec_grouped_records(edges)) == Some(edges),
{
    lemma_run(edges);
    let (st, recs) = spec_run(edges);
    let fl = flatten_records(recs)->Some_0;
    lemma_flush(st);
    let all = spec_grouped_records(edges);
    match spec_flush(st) {
        None => {
            assert(all =~= recs);
            assert(fl =~= edges);
        },
        Some(r) => {
            lemma_flatten_push(recs, r, fl, spec_pending(st));
            assert(all == recs + seq![r]);
            assert(fl + spec_pending(st) == edges);
            assert(forall|i: int| 0 <= i < all.len() ==> wf_record(#[trigger] all[i])) by {
                assert(forall|i: int| 0 <= i < recs.len() ==> all[i] == recs[i]);
                assert(all[recs.len() as int] == r);
            }
        },
    }
}

impl GroupState {
    /// A machine with nothing pending.
    pub fn new() -> (s: Self)
        ensures
            s@ == GroupV::Awaiting,
    {
        GroupState::AwaitingFirstEdge
    }

    /// Feeds one edge through the transition rule, handing out the flushed
    /// record when the source changes.
    pub fn step(&mut self, e: Edge) -> (emitted: Option<EdgeRecord>)
        requires
            wf_group(old(self)@),
            old(self)@ matches GroupV::Accum { to, .. } ==> to.len() < u32::MAX,
        ensures
            ({
                let (st2, em) = spec_step(old(self)@, e);
                &&& final(self)@ == st2
                &&& match (emitted, em) {
                    (None, None) => true,
                    (Some(r), Some(rv)) => r@ == rv,
                    _ => false,
                }
            }),
    {
        match self {
            GroupState::AwaitingFirstEdge => {
                *self = GroupState::AccumulatingBatch {
                    from: e.from,
                    to: vec![e.to],
                    weight: vec![e.weight],
                };
                proof {
                    assert(final(self)@->Accum_to =~= seq![e.to]);
                    assert(final(self)@->Accum_weight =~= seq![e.weight]);
                }
                None
            },
            GroupState::AccumulatingBatch { from, to, weight } => {
                if *from == e.from {
                    to.push(e.to);
                    weight.push(e.weight);
                    None
                } else {
                    let old_from = *from;
                    let mut batch_to: Vec<u32> = vec![e.to];
                    let mut batch_weight: Vec<u32> = vec![e.weight];
                    core::mem::swap(to, &mut batch_to);
                    core::mem::swap(weight, &mut batch_weight);
                    *from = e.from;
                    proof {
                        assert(final(self)@->Accum_to =~= seq![e.to]);
                        assert(final(self)@->Accum_weight =~= seq![e.weight]);
                    }
                    Some(EdgeRecord {
                        from: old_from,
                        to: ToField::List(batch_to),
                        weight: WeightField::List(batch_weight),
                    })
                }
            },
        }
    }

    /// Takes the machine down, handing out the pending batch if one exists.
    pub fn flush(self) -> (r: Option<EdgeRecord>)
        ensures
            match (r, spec_flush(self@)) {
                (None, None) => true,
                (Some(rec), Some(rv)) => rec@ == rv,
                _ => false,
            },
    {
        match self {
            GroupState::AwaitingFirstEdge => None,
            GroupState::AccumulatingBatch { from, to, weight } => Some(EdgeRecord {
                from: from,
                to: ToField::List(to),
                weight: WeightField::List(weight),
            }),
        }
    }
}

} // verus!
