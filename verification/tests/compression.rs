use gaussrdl::compression::{GraphCompressor, GraphFormatError, GraphHeader};

fn bits(v: &[f32]) -> Vec<u32> {
    v.iter().map(|x| x.to_bits()).collect()
}

fn floats(b: &[u32]) -> Vec<f32> {
    b.iter().map(|x| f32::from_bits(*x)).collect()
}

#[test]
fn test_tensor_compression() {
    let data = vec![1.0f32, 1.0, 1.0, 2.0, 2.0, 3.0];
    let compressed = GraphCompressor::compress_tensor_data(&bits(&data));
    let decompressed = GraphCompressor::decompress_tensor_data(&compressed);
    assert_eq!(data, floats(&decompressed));
}

#[test]
fn runs_are_written_as_count_then_value() {
    let data = vec![1.0f32, 1.0, 1.0, 2.0];
    let compressed = GraphCompressor::compress_tensor_data(&bits(&data));
    let mut expected = Vec::new();
    expected.extend_from_slice(&3i32.to_le_bytes());
    expected.extend_from_slice(&1.0f32.to_le_bytes());
    expected.extend_from_slice(&1i32.to_le_bytes());
    expected.extend_from_slice(&2.0f32.to_le_bytes());
    assert_eq!(compressed, expected);
}

#[test]
fn empty_data_compresses_to_nothing() {
    assert!(GraphCompressor::compress_tensor_data(&Vec::new()).is_empty());
    assert!(GraphCompressor::decompress_tensor_data(&Vec::new()).is_empty());
}

#[test]
fn nan_never_joins_a_run() {
    let data = vec![f32::NAN, f32::NAN];
    let compressed = GraphCompressor::compress_tensor_data(&bits(&data));
    assert_eq!(compressed.len(), 16);
    let back = GraphCompressor::decompress_tensor_data(&compressed);
    assert_eq!(back, bits(&data));
}

#[test]
fn zeros_of_both_signs_share_a_run() {
    let data = vec![0.0f32, -0.0, 5.0];
    let compressed = GraphCompressor::compress_tensor_data(&bits(&data));
    assert_eq!(compressed.len(), 16);
    let back = GraphCompressor::decompress_tensor_data(&compressed);
    assert_eq!(back, bits(&[0.0, 0.0, 5.0]));
}

#[test]
fn trailing_bytes_are_ignored() {
    let mut compressed = GraphCompressor::compress_tensor_data(&bits(&[7.5f32, 7.5]));
    compressed.extend_from_slice(&[1, 2, 3]);
    let back = GraphCompressor::decompress_tensor_data(&compressed);
    assert_eq!(floats(&back), vec![7.5, 7.5]);
}

#[test]
fn header_round_trip() {
    let header = GraphHeader { num_nodes: 12, num_edges: 0, num_relations: 3 };
    let text = GraphCompressor::encode_header(&header);
    assert_eq!(text, "GRAPH_V1\n12\n0\n3\n");
    let lines: Vec<String> = text.lines().map(|l| l.to_string()).collect();
    assert_eq!(GraphCompressor::decode_header(&lines), Ok(header));
}

#[test]
fn header_errors() {
    let to_lines = |v: &[&str]| v.iter().map(|s| s.to_string()).collect::<Vec<String>>();
    assert_eq!(GraphCompressor::decode_header(&Vec::new()), Err(GraphFormatError::InvalidFormat));
    assert_eq!(GraphCompressor::decode_header(&to_lines(&["GRAPH_V2", "1"])), Err(GraphFormatError::InvalidFormat));
    assert_eq!(
        GraphCompressor::decode_header(&to_lines(&["GRAPH_V1", "x", "1", "1"])),
        Err(GraphFormatError::InvalidNodeCount)
    );
    assert_eq!(
        GraphCompressor::decode_header(&to_lines(&["GRAPH_V1", "1", "-1", "1"])),
        Err(GraphFormatError::InvalidEdgeCount)
    );
    assert_eq!(
        GraphCompressor::decode_header(&to_lines(&["GRAPH_V1", "1", "+2", ""])),
        Err(GraphFormatError::InvalidRelationCount)
    );
    assert_eq!(
        GraphCompressor::decode_header(&to_lines(&["GRAPH_V1", "+1", "2", "3", "NODE:x:0"])),
        Ok(GraphHeader { num_nodes: 1, num_edges: 2, num_relations: 3 })
    );
    assert_eq!(GraphFormatError::InvalidNodeCount.message(), "Invalid node count");
    assert_eq!(GraphFormatError::InvalidFormat.message(), "Invalid graph format");
}

#[test]
fn run_lengths_fit_the_count() {
    assert!(GraphCompressor::runs_fit_count(&Vec::new()));
    assert!(GraphCompressor::runs_fit_count(&bits(&[1.0, 1.0, 2.0, f32::NAN, f32::NAN])));
}
