use graph_codec::{
    base_name, convert_lines, decode_all, encode_grouped, encode_ungrouped, parse_row,
    CodecError, Edge, EdgeIter, Encoder, EdgeRecord, GraphHeader, GroupState, ToField,
    WeightField,
};
use graph_codec::model::unpack_record;
use graph_codec::text::weight_token;

fn bytes(s: &str) -> Vec<u8> {
    s.as_bytes().to_vec()
}

fn lines_of(s: &str) -> Vec<Vec<u8>> {
    s.lines().map(|l| l.as_bytes().to_vec()).collect()
}

/// What the surrounding application does for each line: hand the weight
/// field to the float parser and keep the bits.
fn weights_of(lines: &Vec<Vec<u8>>) -> Vec<Option<u32>> {
    lines
        .iter()
        .map(|l| {
            weight_token(l).and_then(|t| {
                String::from_utf8(t)
                    .ok()
                    .and_then(|s| s.parse::<f32>().ok())
                    .map(|w| w.to_bits())
            })
        })
        .collect()
}

fn edge(from: u32, to: u32, w: f32) -> Edge {
    Edge { from, to, weight: w.to_bits() }
}

fn header(tag: &str, num_nodes: u32, num_edges: u64) -> GraphHeader {
    GraphHeader { tag: bytes(tag), num_nodes, num_edges }
}

#[test]
fn round_trip_ungrouped() {
    let edges = vec![edge(1, 2, 0.5), edge(1, 3, 0.25), edge(2, 4, 1.0), edge(0, 0, -2.5)];
    let b = encode_ungrouped(header("g", 5, 4), &edges).unwrap();
    let (h, out) = decode_all(&b).unwrap();
    assert_eq!(h, header("g", 5, 4));
    assert_eq!(out, edges);
}

#[test]
fn round_trip_grouped() {
    let edges = vec![edge(1, 2, 0.5), edge(1, 3, 0.25), edge(2, 4, 1.0)];
    let b = encode_grouped(header("g", 5, 3), &edges).unwrap();
    let (h, out) = decode_all(&b).unwrap();
    assert_eq!(h, header("g", 5, 3));
    assert_eq!(out, edges);
}

#[test]
fn round_trip_grouped_noncontiguous_sources() {
    // A source that reappears non-contiguously costs extra records but
    // still decodes back exactly.
    let edges = vec![edge(1, 2, 0.5), edge(2, 4, 1.0), edge(1, 3, 0.25)];
    let b = encode_grouped(header("g", 5, 3), &edges).unwrap();
    let (_, out) = decode_all(&b).unwrap();
    assert_eq!(out, edges);
}

#[test]
fn mode_equivalence() {
    let edges = vec![edge(1, 2, 0.5), edge(1, 3, 0.5), edge(2, 4, 1.0), edge(2, 5, 0.125)];
    let bu = encode_ungrouped(header("t", 6, 4), &edges).unwrap();
    let bg = encode_grouped(header("t", 6, 4), &edges).unwrap();
    assert_eq!(decode_all(&bu).unwrap(), decode_all(&bg).unwrap());
    // The grouped file is the smaller one here: fewer records.
    assert!(bg.len() < bu.len());
}

#[test]
fn count_mismatch_ungrouped() {
    let edges = vec![edge(1, 2, 0.5)];
    assert_eq!(encode_ungrouped(header("g", 5, 2), &edges), Err(CodecError::CountMismatch));
    assert_eq!(encode_grouped(header("g", 5, 0), &edges), Err(CodecError::CountMismatch));
}

#[test]
fn grouping_boundary() {
    // [(1,2,0.5),(1,3,0.5),(2,4,1.0)] groups into a batch for node 1 and a
    // one-edge batch for node 2.
    let mut st = GroupState::new();
    assert!(st.step(edge(1, 2, 0.5)).is_none());
    assert!(st.step(edge(1, 3, 0.5)).is_none());
    let first = st.step(edge(2, 4, 1.0)).expect("the source change flushes the batch");
    assert_eq!(
        first,
        EdgeRecord {
            from: 1,
            to: ToField::List(vec![2, 3]),
            weight: WeightField::List(vec![0.5f32.to_bits(), 0.5f32.to_bits()]),
        }
    );
    let last = st.flush().expect("the end of the stream flushes the batch");
    assert_eq!(
        last,
        EdgeRecord {
            from: 2,
            to: ToField::List(vec![4]),
            weight: WeightField::List(vec![1.0f32.to_bits()]),
        }
    );
    // Decoding the grouped encoding yields back exactly the three triples.
    let edges = vec![edge(1, 2, 0.5), edge(1, 3, 0.5), edge(2, 4, 1.0)];
    let b = encode_grouped(header("g", 5, 3), &edges).unwrap();
    let (_, out) = decode_all(&b).unwrap();
    assert_eq!(out, edges);
}

#[test]
fn malformed_row_terminates_and_count_fails() {
    // "2 2\n1 2 0.5\nbadline\n": the edge source yields exactly one edge
    // (the one-field row ends the sequence), and declared 2 vs actual 1 is
    // a count mismatch.
    let lines = lines_of("2 2\n1 2 0.5\nbadline\n");
    let weights = weights_of(&lines);
    let (mut it, (n, m)) = EdgeIter::init(lines.clone(), weights.clone()).unwrap();
    assert_eq!((n, m), (2, 2));
    assert_eq!(it.next(), Ok(Some(edge(1, 2, 0.5))));
    assert_eq!(it.next(), Ok(None));
    assert_eq!(it.next(), Ok(None));
    assert_eq!(
        convert_lines(lines, weights, bytes("g"), false),
        Err(CodecError::CountMismatch)
    );
}

#[test]
fn unparsable_numeric_field_is_fatal() {
    // A three-field row whose numeric field fails to parse aborts the
    // conversion instead of being skipped.
    let lines = lines_of("2 2\n1 2 0.5\n1 x 1.0\n");
    let weights = weights_of(&lines);
    assert_eq!(
        convert_lines(lines, weights, bytes("g"), false),
        Err(CodecError::MalformedRow)
    );
    let lines = lines_of("2 2\n1 2 0.5\n1 2 notafloat\n");
    let weights = weights_of(&lines);
    assert_eq!(
        convert_lines(lines, weights, bytes("g"), false),
        Err(CodecError::MalformedRow)
    );
}

#[test]
fn convert_round_trip() {
    let lines = lines_of("3 3\n1 2 0.5\n1 3 0.5\n2 4 1.0\n");
    let weights = weights_of(&lines);
    let b = convert_lines(lines, weights, bytes("test.txt"), true).unwrap();
    let (h, out) = decode_all(&b).unwrap();
    assert_eq!(h, header("test.txt", 3, 3));
    assert_eq!(out, vec![edge(1, 2, 0.5), edge(1, 3, 0.5), edge(2, 4, 1.0)]);
}

#[test]
fn parse_row_outcomes() {
    assert_eq!(
        parse_row(&bytes("1 2 0.5"), Some(0.5f32.to_bits())),
        Ok(Some(edge(1, 2, 0.5)))
    );
    assert_eq!(parse_row(&bytes("1 2"), None), Ok(None));
    assert_eq!(parse_row(&bytes(""), None), Ok(None));
    assert_eq!(parse_row(&bytes("1 2 3 4"), None), Ok(None));
    assert_eq!(parse_row(&bytes("a 2 0.5"), Some(0.5f32.to_bits())),
        Err(CodecError::MalformedRow));
    assert_eq!(parse_row(&bytes("1 2 x"), None), Err(CodecError::MalformedRow));
}

#[test]
fn read_header_outcomes() {
    assert_eq!(EdgeIter::read_header(&bytes("5242 28980")), Ok((5242, 28980)));
    assert_eq!(EdgeIter::read_header(&bytes("  7\t 9 ")), Ok((7, 9)));
    assert_eq!(
        EdgeIter::read_header(&bytes("5242")),
        Err(CodecError::MalformedHeader)
    );
    assert_eq!(
        EdgeIter::read_header(&bytes("1 2 3")),
        Err(CodecError::MalformedHeader)
    );
    assert_eq!(
        EdgeIter::read_header(&bytes("x 2")),
        Err(CodecError::MalformedHeader)
    );
    assert_eq!(
        EdgeIter::read_header(&bytes("2 99999999999999999999999999")),
        Err(CodecError::MalformedHeader)
    );
}

#[test]
fn empty_input_is_malformed_header() {
    assert_eq!(
        convert_lines(Vec::new(), Vec::new(), bytes("g"), false),
        Err(CodecError::MalformedHeader)
    );
    assert_eq!(decode_all(&Vec::new()), Err(CodecError::MalformedHeader));
}

#[test]
fn variant_mismatch_rejected() {
    // A record with a list `to` and a scalar `weight` is malformed, never
    // zipped against anything.
    let rec = EdgeRecord {
        from: 1,
        to: ToField::List(vec![2, 3]),
        weight: WeightField::Value(0.5f32.to_bits()),
    };
    assert_eq!(unpack_record(&rec), Err(CodecError::MalformedRecord));
    let rec = EdgeRecord {
        from: 1,
        to: ToField::Node(2),
        weight: WeightField::List(vec![0.5f32.to_bits()]),
    };
    assert_eq!(unpack_record(&rec), Err(CodecError::MalformedRecord));

    // The same shape hand-built as bytes: header frame, then a record whose
    // `to` is the list [2, 3] while `weight` is the scalar 5.
    let stream = vec![
        4u8, 1, 103, 2, 2, // frame: tag "g", 2 nodes, 2 edges
        7, 1, 1, 2, 2, 3, 0, 5, // frame: from 1, to list [2,3], weight value 5
    ];
    assert_eq!(decode_all(&stream), Err(CodecError::MalformedRecord));
}

#[test]
fn batch_length_mismatch_rejected() {
    let rec = EdgeRecord {
        from: 1,
        to: ToField::List(vec![2, 3]),
        weight: WeightField::List(vec![0.5f32.to_bits()]),
    };
    assert_eq!(unpack_record(&rec), Err(CodecError::MalformedRecord));
}

#[test]
fn truncated_tail_ends_stream_early() {
    let edges = vec![edge(1, 2, 0.5), edge(3, 4, 0.25)];
    let mut b = encode_ungrouped(header("g", 5, 2), &edges).unwrap();
    b.pop();
    let (h, out) = decode_all(&b).unwrap();
    assert_eq!(h.num_edges, 2);
    assert_eq!(out, vec![edge(1, 2, 0.5)]);
}

#[test]
fn streaming_encoder_session() {
    let mut enc = Encoder::new();
    enc.write_header(header("s", 3, 2));
    enc.write_edge_ungrouped(edge(1, 2, 0.5));
    enc.write_edge_ungrouped(edge(2, 0, 0.25));
    let b = enc.finish().unwrap();
    let (h, out) = decode_all(&b).unwrap();
    assert_eq!(h, header("s", 3, 2));
    assert_eq!(out, vec![edge(1, 2, 0.5), edge(2, 0, 0.25)]);

    let mut enc = Encoder::new();
    enc.write_header(header("s", 3, 5));
    enc.write_edge_grouped(edge(1, 2, 0.5));
    assert_eq!(enc.finish(), Err(CodecError::CountMismatch));
}

#[test]
fn streaming_drain_concatenates_to_whole_encoding() {
    // Draining the encoder after every write hands out the same bytes,
    // chunk by chunk, that a buffered session would produce.
    let edges = vec![edge(1, 2, 0.5), edge(1, 3, 0.5), edge(2, 4, 1.0)];
    let mut whole = Encoder::new();
    whole.write_header(header("s", 5, 3));
    let mut drained = Encoder::new();
    drained.write_header(header("s", 5, 3));
    let mut sink = drained.take_bytes();
    for e in &edges {
        whole.write_edge_grouped(*e);
        drained.write_edge_grouped(*e);
        sink.extend(drained.take_bytes());
    }
    sink.extend(drained.finish().unwrap());
    assert_eq!(sink, whole.finish().unwrap());
    let (_, out) = decode_all(&sink).unwrap();
    assert_eq!(out, edges);
}

#[test]
fn header_tag_defaults_to_base_name() {
    assert_eq!(base_name(&bytes("data/graphs/ca-GrQc.txt")), bytes("ca-GrQc.txt"));
    assert_eq!(base_name(&bytes("plain.txt")), bytes("plain.txt"));
    assert_eq!(base_name(&bytes("a/b/")), bytes(""));
    // Omitting the tag, the conversion stamps the source's base name,
    // extension included, verbatim into the header.
    let lines = lines_of("2 1\n1 2 0.5\n");
    let weights = weights_of(&lines);
    let tag = base_name(&bytes("some/dir/graph.txt"));
    let b = convert_lines(lines, weights, tag, false).unwrap();
    let (h, _) = decode_all(&b).unwrap();
    assert_eq!(h.tag, bytes("graph.txt"));
}

#[test]
fn extreme_values_round_trip() {
    let edges = vec![
        Edge { from: u32::MAX, to: 0, weight: f32::INFINITY.to_bits() },
        Edge { from: 0, to: u32::MAX, weight: f32::NAN.to_bits() },
        Edge { from: 7, to: 7, weight: 0 },
    ];
    let h = GraphHeader { tag: Vec::new(), num_nodes: u32::MAX, num_edges: 3 };
    let b = encode_grouped(h.clone(), &edges).unwrap();
    let (h2, out) = decode_all(&b).unwrap();
    assert_eq!(h2, h);
    assert_eq!(out, edges);
}
