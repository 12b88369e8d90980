//! The edge source: parsing the textual edge list.  Line one declares
//! `<node_count> <edge_count>`; every further line holds `<from> <to>
//! <weight>`.  A line that does not split into exactly three fields ends the
//! sequence; a field that fails numeric parsing is fatal, so that no partial
//! or garbled edge is ever produced.

use vstd::prelude::*;
use crate::model::{CodecError, Edge, GraphHeader, HeaderV};
use crate::codec::{encode_grouped, encode_ungrouped, spec_encode_grouped,
    spec_encode_ungrouped, spec_decode};

verus! {

// ---------------------------------------------------------------------------
// Whitespace splitting

/// ASCII whitespace, as a field separator.
pub open spec fn is_ws(b: u8) -> bool {
    b == 32 || b == 9 || b == 10 || b == 13 || b == 11 || b == 12
}

/// The position of the first whitespace byte at or after `i`, or the end.
pub open spec fn token_end(s: Seq<u8>, i: int) -> int
    decreases s.len() - i,
{
    if i < 0 || i >= s.len() || is_ws(s[i]) {
        i
    } else {
        token_end(s, i + 1)
    }
}

proof fn lemma_token_end(s: Seq<u8>, i: int)
    requires
        0 <= i <= s.len(),
    ensures
        i <= token_end(s, i) <= s.len(),
    decreases s.len() - i,
{
    if i < s.len() && !is_ws(s[i]) {
        lemma_token_end(s, i + 1);
    }
}

/// The whitespace-separated fields of `s`, from position `i` on.
pub open spec fn spec_tokens_from(s: Seq<u8>, i: int) -> Seq<Seq<u8>>
    decreases s.len() - i,
{
    if i < 0 || i >= s.len() {
        Seq::empty()
    } else if is_ws(s[i]) {
        spec_tokens_from(s, i + 1)
    } else {
        let j = token_end(s, i + 1);
        if i < j <= s.len() {
            seq![s.subrange(i, j)] + spec_tokens_from(s, j)
        } else {
            Seq::empty()
        }
    }
}

/// The whitespace-separated fields of a whole line.
pub open spec fn spec_tokens(s: Seq<u8>) -> Seq<Seq<u8>> {
    spec_tokens_from(s, 0)
}

fn ws_byte(b: u8) -> (r: bool)
    ensures
        r == is_ws(b),
{
    b == 32 || b == 9 || b == 10 || b == 13 || b == 11 || b == 12
}

/// Splits a line into its whitespace-separated fields.
pub fn split_ws(line: &Vec<u8>) -> (ts: Vec<Vec<u8>>)
    ensures
        ts@.map_values(|t: Vec<u8>| t@) == spec_tokens(line@),
{
    let mut ts: Vec<Vec<u8>> = Vec::new();
    let mut i: usize = 0;
    proof {
        assert(ts@.map_values(|t: Vec<u8>| t@) + spec_tokens_from(line@, 0)
            =~= spec_tokens_from(line@, 0));
    }
    while i < line.len()
        invariant
            i <= line.len(),
            spec_tokens(line@) == ts@.map_values(|t: Vec<u8>| t@)
                + spec_tokens_from(line@, i as int),
        decreases line.len() - i,
    {
        if ws_byte(line[i]) {
            i = i + 1;
        } else {
            let start = i;
            let mut j = i;
            let mut tok: Vec<u8> = Vec::new();
            proof {
                assert(line@.subrange(start as int, start as int) =~= tok@);
            }
            while j < line.len() && !ws_byte(line[j])
                invariant
                    start <= j <= line.len(),
                    start < line.len(),
                    !is_ws(line@[start as int]),
                    token_end(line@, start as int) == token_end(line@, j as int),
                    j > start ==> !is_ws(line@[j as int - 1]),
                    tok@ == line@.subrange(start as int, j as int),
                decreases line.len() - j,
            {
                tok.push(line[j]);
                proof {
                    assert(tok@ =~= line@.subrange(start as int, j as int + 1));
                }
                j = j + 1;
            }
            proof {
                assert(token_end(line@, j as int) == j);
                assert(token_end(line@, start as int) == j);
                assert(token_end(line@, start as int + 1) == j);
                assert(j > start);
                lemma_token_end(line@, start as int);
                assert(spec_tokens_from(line@, start as int)
                    == seq![line@.subrange(start as int, j as int)]
                        + spec_tokens_from(line@, j as int));
                assert(ts@.push(tok).map_values(|t: Vec<u8>| t@)
                    =~= ts@.map_values(|t: Vec<u8>| t@).push(tok@));
                assert(ts@.map_values(|t: Vec<u8>| t@) + (seq![tok@]
                    + spec_tokens_from(line@, j as int))
                    =~= ts@.map_values(|t: Vec<u8>| t@).push(tok@)
                        + spec_tokens_from(line@, j as int));
            }
            ts.push(tok);
            i = j;
        }
    }
    proof {
        assert(ts@.map_values(|t: Vec<u8>| t@) + spec_tokens_from(line@, i as int)
            =~= ts@.map_values(|t: Vec<u8>| t@));
    }
    ts
}

// ---------------------------------------------------------------------------
// Decimal fields

/// An ASCII decimal digit.
pub open spec fn is_digit(b: u8) -> bool {
    48 <= b <= 57
}

pub open spec fn all_digits(s: Seq<u8>) -> bool {
    forall|i: int| 0 <= i < s.len() ==> is_digit(#[trigger] s[i])
}

/// The value of a digit string.
pub open spec fn dec_val(s: Seq<u8>) -> nat
    decreases s.len(),
{
    if s.len() == 0 {
        0
    } else {
        dec_val(s.drop_last()) * 10 + (if is_digit(s.last()) {
            (s.last() - 48) as nat
        } else {
            0
        })
    }
}

/// A field parses as an unsigned integer exactly when it is a non-empty
/// digit string whose value fits.
pub open spec fn spec_parse_u64_tok(s: Seq<u8>) -> Option<u64> {
    if s.len() > 0 && all_digits(s) && dec_val(s) <= u64::MAX {
        Some(dec_val(s) as u64)
    } else {
        None
    }
}

pub open spec fn spec_parse_u32_tok(s: Seq<u8>) -> Option<u32> {
    if s.len() > 0 && all_digits(s) && dec_val(s) <= u32::MAX {
        Some(dec_val(s) as u32)
    } else {
        None
    }
}

proof fn lemma_dec_val_prefix(s: Seq<u8>, i: int)
    requires
        0 <= i <= s.len(),
    ensures
        dec_val(s.take(i)) <= dec_val(s),
    decreases s.len() - i,
{
    if i == s.len() {
        assert(s.take(i) =~= s);
    } else {
        lemma_dec_val_prefix(s, i + 1);
        assert(s.take(i + 1).drop_last() =~= s.take(i));
        assert(dec_val(s.take(i + 1)) >= dec_val(s.take(i))) by (nonlinear_arith)
            requires
                dec_val(s.take(i + 1)) == dec_val(s.take(i)) * 10 + (if is_digit(s.take(i + 1).last()) {
                    (s.take(i + 1).last() - 48) as nat
                } else {
                    0
                }),
        ;
    }
}

/// Parses a non-negative 64-bit decimal field.
pub fn parse_u64_tok(t: &Vec<u8>) -> (r: Option<u64>)
    ensures
        r == spec_parse_u64_tok(t@),
{
    if t.len() == 0 {
        return None;
    }
    let mut acc: u64 = 0;
    let mut i: usize = 0;
    proof {
        assert(t@.take(0) =~= Seq::<u8>::empty());
    }
    while i < t.len()
        invariant
            i <= t.len(),
            all_digits(t@.take(i as int)),
            acc == dec_val(t@.take(i as int)),
        decreases t.len() - i,
    {
        let b = t[i];
        proof {
            assert(t@.take(i as int + 1).drop_last() =~= t@.take(i as int));
            assert(t@.take(i as int + 1).last() == b);
        }
        if b < 48 || b > 57 {
            proof {
                assert(!is_digit(t@[i as int]));
            }
            return None;
        }
        let d = (b - 48) as u64;
        if acc > (u64::MAX - d) / 10 {
            proof {
                assert(acc * 10 + d > u64::MAX) by (nonlinear_arith)
                    requires acc > (u64::MAX - d) / 10 && d < 10;
                lemma_dec_val_prefix(t@, i as int + 1);
            }
            return None;
        }
        proof {
            assert(acc * 10 + d <= u64::MAX) by (nonlinear_arith)
                requires acc <= (u64::MAX - d) / 10 && d < 10;
        }
        acc = acc * 10 + d;
        i = i + 1;
    }
    proof {
        assert(t@.take(t.len() as int) =~= t@);
    }
    Some(acc)
}

/// Parses a non-negative 32-bit decimal field.
pub fn parse_u32_tok(t: &Vec<u8>) -> (r: Option<u32>)
    ensures
        r == spec_parse_u32_tok(t@),
{
    match parse_u64_tok(t) {
        None => None,
        Some(v) => {
            if v > u32::MAX as u64 {
                None
            } else {
                Some(v as u32)
            }
        },
    }
}

// ---------------------------------------------------------------------------
// The weight field

/// The third field of a three-field row, handed out raw.  The weight is a
/// 32-bit float, which this crate cannot parse itself: the caller converts
/// the field to the float's bit pattern and hands the bits back to the row
/// parser, `None` when the field is no float literal.
pub fn weight_token(line: &Vec<u8>) -> (r: Option<Vec<u8>>)
    ensures
        match r {
            Some(t) => spec_tokens(line@).len() == 3 && t@ == spec_tokens(line@)[2],
            None => spec_tokens(line@).len() != 3,
        },
{
    let mut ts = split_ws(line);
    if ts.len() != 3 {
        None
    } else {
        proof {
            assert(spec_tokens(line@)[2] == ts@[2]@);
        }
        let t = ts.pop().unwrap();
        Some(t)
    }
}

// ---------------------------------------------------------------------------
// Rows and the header line

/// What one data row means: an edge, the end of the sequence (wrong field
/// count), or a fatal numeric failure.  `wb` is the caller's conversion of
/// the row's weight field to float bits.
pub enum RowV {
    Edge(Edge),
    End,
    Bad,
}

pub open spec fn spec_row(line: Seq<u8>, wb: Option<u32>) -> RowV {
    let ts = spec_tokens(line);
    if ts.len() != 3 {
        RowV::End
    } else {
        match (spec_parse_u32_tok(ts[0]), spec_parse_u32_tok(ts[1]), wb) {
            (Some(f), Some(t), Some(w)) => RowV::Edge(Edge { from: f, to: t, weight: w }),
            _ => RowV::Bad,
        }
    }
}

/// What the header line means: the declared node and edge counts, or
/// nothing when it is malformed.
pub open spec fn spec_header_line(line: Seq<u8>) -> Option<(u32, u64)> {
    let ts = spec_tokens(line);
    if ts.len() != 2 {
        None
    } else {
        match (spec_parse_u32_tok(ts[0]), spec_parse_u64_tok(ts[1])) {
            (Some(n), Some(m)) => Some((n, m)),
            _ => None,
        }
    }
}

/// Parses one data row, `wb` being the caller's float-bit conversion of the
/// row's weight field.  `Ok(Some)` yields the edge, `Ok(None)` reports the
/// sequence's normal exhaustion (wrong field count), and `Err` the fatal
/// numeric failure that aborts the whole conversion.
pub fn parse_row(line: &Vec<u8>, wb: Option<u32>) -> (r: Result<Option<Edge>, CodecError>)
    ensures
        match r {
            Ok(Some(e)) => spec_row(line@, wb) == RowV::Edge(e),
            Ok(None) => spec_row(line@, wb) == RowV::End,
            Err(e) => e == CodecError::MalformedRow && spec_row(line@, wb) == RowV::Bad,
        },
{
    let ts = split_ws(line);
    if ts.len() != 3 {
        return Ok(None);
    }
    proof {
        assert(spec_tokens(line@)[0] == ts@[0]@);
        assert(spec_tokens(line@)[1] == ts@[1]@);
    }
    let f = parse_u32_tok(&ts[0]);
    let t = parse_u32_tok(&ts[1]);
    match (f, t, wb) {
        (Some(f), Some(t), Some(w)) => Ok(Some(Edge { from: f, to: t, weight: w })),
        _ => Err(CodecError::MalformedRow),
    }
}

// ---------------------------------------------------------------------------
// The edge source

/// A finite, non-restartable source of edges over the lines of a text edge
/// list, the header line already consumed.  `weights[i]` is the caller's
/// float-bit conversion of line `i`'s weight field (see `weight_token`).
pub struct EdgeIter {
    pub lines: Vec<Vec<u8>>,
    pub weights: Vec<Option<u32>>,
    pub pos: usize,
}

impl EdgeIter {
    /// A source that has consumed the header and none of the rows.
    pub open spec fn wf(self) -> bool {
        1 <= self.pos <= self.lines@.len() && self.weights@.len() == self.lines@.len()
    }

    /// Parses the header line `<node_count> <edge_count>`: exactly two
    /// fields, both plain decimal numbers.
    pub fn read_header(line: &Vec<u8>) -> (r: Result<(u32, u64), CodecError>)
        ensures
            match r {
                Ok(h) => spec_header_line(line@) == Some(h),
                Err(e) => e == CodecError::MalformedHeader && spec_header_line(line@) is None,
            },
    {
        let ts = split_ws(line);
        if ts.len() != 2 {
            return Err(CodecError::MalformedHeader);
        }
        proof {
            assert(spec_tokens(line@)[0] == ts@[0]@);
            assert(spec_tokens(line@)[1] == ts@[1]@);
        }
        let n = parse_u32_tok(&ts[0]);
        let m = parse_u64_tok(&ts[1]);
        match (n, m) {
            (Some(n), Some(m)) => Ok(((n, m))),
            _ => Err(CodecError::MalformedHeader),
        }
    }

    /// Consumes the header line of `lines` and returns the source for the
    /// remaining rows together with the declared counts.
    pub fn init(lines: Vec<Vec<u8>>, weights: Vec<Option<u32>>)
        -> (r: Result<(EdgeIter, (u32, u64)), CodecError>)
        requires
            weights@.len() == lines@.len(),
        ensures
            match r {
                Ok((it, h)) => lines@.len() >= 1 && spec_header_line(lines@[0]@) == Some(h)
                    && it.lines@ == lines@ && it.weights@ == weights@ && it.pos == 1,
                Err(e) => e == CodecError::MalformedHeader
                    && (lines@.len() == 0 || spec_header_line(lines@[0]@) is None),
            },
    {
        if lines.len() == 0 {
            return Err(CodecError::MalformedHeader);
        }
        match Self::read_header(&lines[0]) {
            Err(e) => Err(e),
            Ok(h) => Ok((EdgeIter { lines, weights, pos: 1 }, h)),
        }
    }

    /// Advances the source by one row: `Ok(Some)` an edge, `Ok(None)` the
    /// sequence's exhaustion (it stays exhausted), `Err` a fatal numeric
    /// failure (the source does not advance past it).
    pub fn next(&mut self) -> (r: Result<Option<Edge>, CodecError>)
        requires
            old(self).wf(),
        ensures
            final(self).wf(),
            final(self).lines == old(self).lines,
            final(self).weights == old(self).weights,
            match r {
                Ok(Some(e)) => old(self).pos < old(self).lines@.len()
                    && spec_row(old(self).lines@[old(self).pos as int]@,
                        old(self).weights@[old(self).pos as int]) == RowV::Edge(e)
                    && final(self).pos == old(self).pos + 1,
                Ok(None) => final(self).pos == old(self).pos
                    && (old(self).pos == old(self).lines@.len()
                        || spec_row(old(self).lines@[old(self).pos as int]@,
                            old(self).weights@[old(self).pos as int]) == RowV::End),
                Err(e) => e == CodecError::MalformedRow && final(self).pos == old(self).pos
                    && old(self).pos < old(self).lines@.len()
                    && spec_row(old(self).lines@[old(self).pos as int]@,
                        old(self).weights@[old(self).pos as int]) == RowV::Bad,
            },
    {
        if self.pos == self.lines.len() {
            return Ok(None);
        }
        match parse_row(&self.lines[self.pos], self.weights[self.pos]) {
            Ok(Some(e)) => {
                self.pos = self.pos + 1;
                Ok(Some(e))
            },
            Ok(None) => Ok(None),
            Err(e) => Err(e),
        }
    }
}

// ---------------------------------------------------------------------------
// The whole conversion

/// The edges of the rows from position `i` on: the first row that is not a
/// three-field line ends the sequence, and a fatal row poisons it.
pub open spec fn spec_collect(lines: Seq<Seq<u8>>, weights: Seq<Option<u32>>, i: int)
    -> Result<Seq<Edge>, CodecError>
    decreases lines.len() - i,
{
    if i < 0 || i >= lines.len() {
        Ok(Seq::empty())
    } else {
        match spec_row(lines[i], weights[i]) {
            RowV::End => Ok(Seq::empty()),
            RowV::Bad => Err(CodecError::MalformedRow),
            RowV::Edge(e) => match spec_collect(lines, weights, i + 1) {
                Err(er) => Err(er),
                Ok(rest) => Ok(seq![e] + rest),
            },
        }
    }
}

/// What converting a text edge list means: parse the header line, drain the
/// edge source fully, enforce the declared edge count, and only then encode
/// under the given tag, grouped or ungrouped.
pub open spec fn spec_convert(lines: Seq<Seq<u8>>, weights: Seq<Option<u32>>, tag: Seq<u8>,
    grouped: bool) -> Result<Seq<u8>, CodecError> {
    if lines.len() == 0 {
        Err(CodecError::MalformedHeader)
    } else {
        match spec_header_line(lines[0]) {
            None => Err(CodecError::MalformedHeader),
            Some((n, m)) => match spec_collect(lines, weights, 1) {
                Err(e) => Err(e),
                Ok(edges) => if edges.len() != m {
                    Err(CodecError::CountMismatch)
                } else {
                    let h = HeaderV { tag: tag, num_nodes: n, num_edges: m };
                    if grouped {
                        Ok(spec_encode_grouped(h, edges))
                    } else {
                        Ok(spec_encode_ungrouped(h, edges))
                    }
                },
            },
        }
    }
}

/// Converts a text edge list to the binary encoding: the first line is the
/// header, every further line one edge, and the declared edge count is
/// enforced only after the edge source is fully drained.  On success the
/// output decodes back to exactly the edges read.
#[verifier::loop_isolation(false)]
pub fn convert_lines(lines: Vec<Vec<u8>>, weights: Vec<Option<u32>>, tag: Vec<u8>, grouped: bool)
    -> (r: Result<Vec<u8>, CodecError>)
    requires
        weights@.len() == lines@.len(),
        tag@.len() <= u32::MAX,
        grouped ==> lines@.len() <= u32::MAX,
    ensures
        ({
            let lv = lines@.map_values(|l: Vec<u8>| l@);
            match r {
                Ok(b) => spec_convert(lv, weights@, tag@, grouped)
                    == Ok::<Seq<u8>, CodecError>(b@)
                    && spec_decode(b@) == Ok::<(HeaderV, Seq<Edge>), CodecError>((
                    HeaderV {
                        tag: tag@,
                        num_nodes: spec_header_line(lv[0])->Some_0.0,
                        num_edges: spec_header_line(lv[0])->Some_0.1,
                    },
                    spec_collect(lv, weights@, 1)->Ok_0,
                )),
                Err(e) => spec_convert(lv, weights@, tag@, grouped)
                    == Err::<Seq<u8>, CodecError>(e),
            }
        }),
{
    let ghost lv = lines@.map_values(|l: Vec<u8>| l@);
    let ghost wv = weights@;
    let ghost nlines = lines@.len();
    let (mut it, hdr) = match EdgeIter::init(lines, weights) {
        Err(e) => {
            return Err(e);
        },
        Ok(x) => x,
    };
    let (n, m) = hdr;
    proof {
        assert(lv[0] == it.lines@[0]@);
    }
    let mut edges: Vec<Edge> = Vec::new();
    let mut ended = false;
    while !ended
        invariant
            it.wf(),
            it.lines@.map_values(|l: Vec<u8>| l@) == lv,
            it.weights@ == wv,
            it.lines@.len() == nlines,
            edges@.len() <= it.pos - 1,
            spec_collect(lv, wv, 1) == match spec_collect(lv, wv, it.pos as int) {
                Err(er) => Err::<Seq<Edge>, CodecError>(er),
                Ok(rest) => Ok::<Seq<Edge>, CodecError>(edges@ + rest),
            },
            ended ==> spec_collect(lv, wv, it.pos as int) == Ok::<Seq<Edge>, CodecError>(
                Seq::<Edge>::empty()),
        decreases nlines - it.pos + (if ended { 0int } else { 1int }),
    {
        let ghost opos = it.pos as int;
        match it.next() {
            Ok(Some(e)) => {
                proof {
                    assert(lv[opos] == it.lines@[opos]@);
                    let tail = spec_collect(lv, wv, opos + 1);
                    assert(spec_collect(lv, wv, opos) == match tail {
                        Err(er) => Err::<Seq<Edge>, CodecError>(er),
                        Ok(rest) => Ok::<Seq<Edge>, CodecError>(seq![e] + rest),
                    });
                    if tail is Ok {
                        assert(edges@ + (seq![e] + tail->Ok_0)
                            =~= edges@.push(e) + tail->Ok_0);
                    }
                }
                edges.push(e);
            },
            Ok(None) => {
                proof {
                    if it.pos < it.lines@.len() {
                        assert(lv[it.pos as int] == it.lines@[it.pos as int]@);
                    }
                    assert(spec_collect(lv, wv, it.pos as int)
                        == Ok::<Seq<Edge>, CodecError>(Seq::<Edge>::empty()));
                }
                ended = true;
            },
            Err(e) => {
                proof {
                    assert(lv[it.pos as int] == it.lines@[it.pos as int]@);
                    assert(spec_collect(lv, wv, it.pos as int)
                        == Err::<Seq<Edge>, CodecError>(CodecError::MalformedRow));
                    assert(spec_collect(lv, wv, 1)
                        == Err::<Seq<Edge>, CodecError>(CodecError::MalformedRow));
                    assert(lv.len() >= 1);
                    assert(spec_header_line(lv[0]) == Some((n, m)));
                    assert(spec_convert(lv, wv, tag@, grouped)
                        == Err::<Seq<u8>, CodecError>(CodecError::MalformedRow));
                }
                return Err(e);
            },
        }
    }
    proof {
        assert(edges@ + Seq::<Edge>::empty() =~= edges@);
        assert(spec_collect(lv, wv, 1) == Ok::<Seq<Edge>, CodecError>(edges@));
    }
    if edges.len() as u64 != m {
        return Err(CodecError::CountMismatch);
    }
    let header = GraphHeader { tag: tag, num_nodes: n, num_edges: m };
    if grouped {
        encode_grouped(header, &edges)
    } else {
        encode_ungrouped(header, &edges)
    }
}

// ---------------------------------------------------------------------------
// The default tag

/// The bytes after the last `/` of a path: the file's base name, extension
/// included, used as the header tag when none is supplied.
pub open spec fn spec_base_name(p: Seq<u8>) -> Seq<u8>
    decreases p.len(),
{
    if p.len() == 0 {
        p
    } else if p.last() == 47 {
        Seq::empty()
    } else {
        spec_base_name(p.drop_last()).push(p.last())
    }
}

/// The file's base name, extension included: everything after the last `/`.
pub fn base_name(p: &Vec<u8>) -> (r: Vec<u8>)
    ensures
        r@ == spec_base_name(p@),
{
    let mut r: Vec<u8> = Vec::new();
    let mut i: usize = 0;
    proof {
        assert(p@.take(0) =~= Seq::<u8>::empty());
    }
    while i < p.len()
        invariant
            i <= p.len(),
            r@ == spec_base_name(p@.take(i as int)),
        decreases p.len() - i,
    {
        proof {
            assert(p@.take(i as int + 1).drop_last() =~= p@.take(i as int));
            assert(p@.take(i as int + 1).last() == p@[i as int]);
        }
        if p[i] == 47 {
            r = Vec::new();
        } else {
            r.push(p[i]);
        }
        i = i + 1;
    }
    proof {
        assert(p@.take(p.len() as int) =~= p@);
    }
    r
}

} // verus!
