use mesh_analysis::codec::{decode_stl, encode_stl, RawTriangle, StlError};

fn bits(t: [[f32; 3]; 3]) -> RawTriangle {
    t.map(|v| v.map(f32::to_bits))
}

#[test]
fn write_then_read_gives_the_same_vertices() {
    let ts = vec![
        bits([[0.0, 0.0, 0.0], [1.5, -2.25, 3.0], [1e-30, f32::MAX, -0.0]]),
        bits([[0.1, 0.2, 0.3], [f32::MIN_POSITIVE, 7.0, -8.5], [123456.78, 1.0, 2.0]]),
    ];
    let normals = vec![[1u32, 2, 3], [0xdead_beef, 0, 0xffff_ffff]];
    let bytes = encode_stl(&ts, &normals);
    assert_eq!(decode_stl(&bytes), Ok(ts));
}

#[test]
fn layout_is_header_count_records() {
    let t = bits([[1.0, 2.0, 3.0], [4.0, 5.0, 6.0], [7.0, 8.0, 9.0]]);
    let n = [0.0f32.to_bits(), 0.0f32.to_bits(), 1.0f32.to_bits()];
    let bytes = encode_stl(&vec![t], &vec![n]);
    assert_eq!(bytes.len(), 84 + 50);
    assert!(bytes[..80].iter().all(|&b| b == 0));
    assert_eq!(&bytes[80..84], &[1, 0, 0, 0]);
    assert_eq!(&bytes[92..96], &1.0f32.to_le_bytes());
    for j in 0..3 {
        for k in 0..3 {
            let at = 96 + 12 * j + 4 * k;
            assert_eq!(&bytes[at..at + 4], &((1 + 3 * j + k) as f32).to_le_bytes());
        }
    }
    assert_eq!(&bytes[132..134], &[0, 0]);
}

#[test]
fn empty_list_writes_header_and_zero_count() {
    let bytes = encode_stl(&vec![], &vec![]);
    assert_eq!(bytes, vec![0u8; 84]);
    assert_eq!(decode_stl(&bytes), Ok(vec![]));
}

#[test]
fn short_header_is_rejected() {
    assert_eq!(decode_stl(&[0u8; 83]), Err(StlError::MissingHeader));
    assert_eq!(decode_stl(&[]), Err(StlError::MissingHeader));
}

#[test]
fn missing_records_are_rejected() {
    let t = bits([[1.0, 2.0, 3.0], [4.0, 5.0, 6.0], [7.0, 8.0, 9.0]]);
    let mut bytes = encode_stl(&vec![t, t], &vec![[0; 3], [0; 3]]);
    bytes.pop();
    assert_eq!(decode_stl(&bytes), Err(StlError::Truncated));
    let mut header = vec![0u8; 84];
    header[80] = 1;
    assert_eq!(decode_stl(&header), Err(StlError::Truncated));
}

#[test]
fn normals_and_attributes_are_ignored_on_read() {
    let t = bits([[1.0, 2.0, 3.0], [4.0, 5.0, 6.0], [7.0, 8.0, 9.0]]);
    let mut bytes = encode_stl(&vec![t], &vec![[0; 3]]);
    for b in &mut bytes[84..96] {
        *b = 0xab;
    }
    bytes[132] = 7;
    bytes[133] = 9;
    bytes[0] = b's';
    bytes.extend_from_slice(&[1, 2, 3]);
    assert_eq!(decode_stl(&bytes), Ok(vec![t]));
}
