use neuraltype::container::{
    format_matches, frame, header_range, is_field_font, is_vector_font, mlp_plan, pad_header,
    layer_sizes, read_le32, tensor_layout, tensor_ranges, LayerPlan, LoadError,
};

#[test]
fn frame_lays_out_magic_length_header_payload() {
    let f = frame(b"{}", &[1, 2, 3, 4]);
    assert_eq!(f, vec![b'N', b'T', b'F', b'0', 2, 0, 0, 0, b'{', b'}', 1, 2, 3, 4]);
    assert_eq!(header_range(&f), Some((8, 10)));
    assert_eq!(&f[10..], &[1, 2, 3, 4]);
}

#[test]
fn header_length_is_little_endian() {
    assert_eq!(read_le32(&[0x78, 0x56, 0x34, 0x12], 0), 0x1234_5678);
    let h = vec![b' '; 300];
    let f = frame(&h, &[]);
    assert_eq!(&f[4..8], &[44, 1, 0, 0]);
    assert_eq!(header_range(&f), Some((8, 308)));
}

#[test]
fn not_a_container() {
    assert_eq!(header_range(b"NTF"), None);
    assert_eq!(header_range(b"NTF1\0\0\0\0"), None);
    assert_eq!(header_range(b""), None);
    assert!(!is_field_font(b"GIF89a.."));
}

#[test]
fn pad_header_aligns_the_payload() {
    let mut h = b"{}".to_vec();
    pad_header(&mut h);
    assert_eq!(h, b"{}  ".to_vec());
    let mut h = b"{ab}".to_vec();
    pad_header(&mut h);
    assert_eq!(h, b"{ab}".to_vec());
    let mut h = b"{a}".to_vec();
    pad_header(&mut h);
    assert_eq!(h, b"{a} ".to_vec());
    assert_eq!((8 + h.len()) % 4, 0);
}

#[test]
fn format_sniffing() {
    let field = frame(br#"{"format":"neuraltype-field-v1","vocab":[]}"#, &[0; 8]);
    let vector = frame(br#"{"format":"neuraltype-vector-v1"}"#, &[]);
    let other = frame(br#"{"format":"neuraltype-mlp-v0"}"#, &[]);
    let broken = frame(b"not json", &[]);
    let numeric = frame(br#"{"format":7}"#, &[]);
    assert!(is_field_font(&field));
    assert!(!is_vector_font(&field));
    assert!(is_vector_font(&vector));
    assert!(!is_field_font(&vector));
    assert!(!is_field_font(&other) && !is_vector_font(&other));
    assert!(!is_field_font(&broken));
    assert!(!is_field_font(&numeric));
}

#[test]
fn format_prefix() {
    let f: Vec<char> = "neuraltype-field-v1".chars().collect();
    let p: Vec<char> = "neuraltype-field".chars().collect();
    assert!(format_matches(&Some(f.clone()), &p));
    assert!(!format_matches(&Some(p.clone()), &f));
    assert!(!format_matches(&None, &p));
    assert!(format_matches(&Some(f), &[]));
}

#[test]
fn tensors_follow_each_other() {
    let shapes = vec![vec![2, 3], vec![4], vec![]];
    assert_eq!(tensor_ranges(10, &shapes, 100), Some(vec![(10, 34), (34, 50), (50, 54)]));
    assert_eq!(tensor_ranges(10, &shapes, 54), Some(vec![(10, 34), (34, 50), (50, 54)]));
    assert_eq!(tensor_ranges(10, &shapes, 53), None);
    assert_eq!(tensor_ranges(10, &vec![vec![usize::MAX, 0]], 10), Some(vec![(10, 10)]));
    assert_eq!(tensor_ranges(10, &vec![vec![usize::MAX, 2]], 1000), None);
}

#[test]
fn tensor_layout_checks_format_then_size() {
    let shapes = vec![vec![2, 2]];
    assert_eq!(
        tensor_layout("neuraltype-vector-v1", "neuraltype-vector-v1", 8, &shapes, 24),
        Ok(vec![(8, 24)])
    );
    assert_eq!(
        tensor_layout("neuraltype-vector-v1", "neuraltype-vector-v1", 8, &shapes, 23),
        Err(LoadError::Truncated)
    );
    assert_eq!(
        tensor_layout("neuraltype-field-v1", "neuraltype-vector-v1", 8, &shapes, 24),
        Err(LoadError::UnsupportedFormat)
    );
}

#[test]
fn mlp_layers_from_sizes() {
    let plan = mlp_plan(&[3, 4, 2], 8, 112).unwrap();
    assert_eq!(
        plan,
        vec![
            LayerPlan { n_in: 3, n_out: 4, relu: true, w_start: 8, w_end: 56, b_start: 56, b_end: 72 },
            LayerPlan { n_in: 4, n_out: 2, relu: false, w_start: 72, w_end: 104, b_start: 104, b_end: 112 },
        ]
    );
    assert_eq!(mlp_plan(&[3, 4, 2], 8, 111), None);
    assert_eq!(mlp_plan(&[5], 8, 8), Some(vec![]));
}

#[test]
fn layer_sizes_read_back() {
    let sizes = layer_sizes(&[(35, 128), (128, 128), (128, 225)]);
    assert_eq!(sizes, vec![35, 128, 128, 225]);
    let plan = mlp_plan(&sizes, 0, 4 * (35 * 128 + 128 + 128 * 128 + 128 + 128 * 225 + 225)).unwrap();
    let dims: Vec<(usize, usize)> = plan.iter().map(|p| (p.n_in, p.n_out)).collect();
    assert_eq!(dims, vec![(35, 128), (128, 128), (128, 225)]);
    assert_eq!(layer_sizes(&[(3, 4)]), vec![3, 4]);
}
