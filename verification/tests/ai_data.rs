use hp_core::ai_data::{
    decompress_ai_streams, dedup_bboxes, find_first, find_layer, has_gradient, parse_layer_tree, required_layers,
    AiDataError, AiPrivateData, LayerBlock, LayerTreeError,
};
use hp_core::text::{bstr, split_lines};

fn layer(name: &str, children: Vec<LayerBlock>) -> LayerBlock {
    LayerBlock { name: name.to_string(), begin: 0, end: 0, depth: 0, children }
}

#[test]
fn split_lines_handles_all_line_endings() {
    let data = b"ab\r\ncd\ref\n\ngh";
    let r = split_lines(data);
    let lines: Vec<&[u8]> = r.iter().map(|&(s, e)| &data[s..e]).collect();
    assert_eq!(lines, vec![&b"ab"[..], &b"cd"[..], &b"ef"[..], &b""[..], &b"gh"[..]]);
}

#[test]
fn bstr_is_empty_for_invalid_utf8() {
    assert_eq!(bstr(b"hello"), "hello");
    assert_eq!(bstr(&[0xff, 0x41]), "");
}

#[test]
fn gradient_detection_needs_bg_line_with_paren() {
    assert!(has_gradient(b"0 0 m\n  (Brown, Yellow) 0 0 1 0 1 Bg  \nf\n"));
    assert!(!has_gradient(b"(a) Bg extra\n"));
    assert!(!has_gradient(b"Bg\n"));
    assert!(!has_gradient(b"no gradient here\n"));
}

#[test]
fn find_first_locates_needle() {
    assert_eq!(find_first(b"xxabcab", b"ab"), Some(2));
    assert_eq!(find_first(b"xxabcab", b"zz"), None);
}

#[test]
fn layer_tree_nests_blocks() {
    let data = b"%AI5_BeginLayer\nLb\n(background)\n%AI5_EndLayer\n%AI5_BeginLayer\nLb\n(bricks)\n%AI5_BeginLayer\nLb\n(Layer 1)\n%AI5_EndLayer\n%AI5_EndLayer\n";
    let roots = parse_layer_tree(data);
    assert_eq!(roots.len(), 2);
    assert_eq!(roots[0].name, "background");
    assert_eq!(roots[1].name, "bricks");
    assert_eq!(roots[1].children.len(), 1);
    assert_eq!(roots[1].children[0].name, "Layer 1");
    assert_eq!(roots[1].children[0].depth, 1);
    let c = &roots[1].children[0];
    assert!(data[c.begin..c.end].starts_with(b"%AI5_BeginLayer"));
    assert!(data[c.begin..c.end].ends_with(b"%AI5_EndLayer"));
    assert_eq!(required_layers(&roots), Ok((0, 1)));
    assert_eq!(find_layer(&roots, "bricks"), Some(1));
}

fn check_nested(b: &LayerBlock, depth: usize) {
    assert_eq!(b.depth, depth);
    assert!(b.begin < b.end);
    for c in &b.children {
        assert!(b.begin <= c.begin && c.end <= b.end);
        check_nested(c, depth + 1);
    }
}

#[test]
fn layer_tree_children_lie_within_parents() {
    let data = b"%AI5_BeginLayer\nLb\n(a)\n%AI5_BeginLayer\nLb\n(b)\n%AI5_BeginLayer\nLb\n(c)\n%AI5_EndLayer\n%AI5_EndLayer\n%AI5_BeginLayer\nLb\n(d)\n%AI5_EndLayer\n%AI5_EndLayer\n%AI5_EndLayer\n%AI5_BeginLayer\nLb\n(open)\n";
    let roots = parse_layer_tree(data);
    assert_eq!(roots.len(), 1);
    assert_eq!(roots[0].children.len(), 2);
    assert_eq!(roots[0].children[0].children[0].name, "c");
    assert_eq!(roots[0].children[0].children[0].depth, 2);
    for r in &roots {
        check_nested(r, 0);
    }
}

#[test]
fn required_layers_reports_each_problem() {
    assert_eq!(required_layers(&vec![layer("bricks", vec![layer("x", vec![])])]), Err(LayerTreeError::MissingBackground));
    assert_eq!(required_layers(&vec![layer("background", vec![])]), Err(LayerTreeError::MissingBricks));
    assert_eq!(
        required_layers(&vec![layer("background", vec![]), layer("bricks", vec![])]),
        Err(LayerTreeError::EmptyBricks)
    );
}

#[test]
fn decompress_finds_zstd_frame_after_prefix() {
    let payload = b"%AI5_BeginLayer hello".to_vec();
    let frame = zstd::encode_all(&payload[..], 3).unwrap();
    let mut first = b"junk".to_vec();
    first.extend_from_slice(&frame[..5]);
    let second = frame[5..].to_vec();
    let r = decompress_ai_streams(&vec![Some(first), None, Some(second)]).unwrap();
    assert_eq!(r.raw, payload);
    assert_eq!(r.text_slice(0, 15), "%AI5_BeginLayer");
}

#[test]
fn decompress_reports_each_error() {
    assert_eq!(decompress_ai_streams(&vec![]).err(), Some(AiDataError::NoPrivateData));
    assert_eq!(decompress_ai_streams(&vec![None, Some(vec![])]).err(), Some(AiDataError::EmptyStreams));
    assert_eq!(decompress_ai_streams(&vec![Some(b"plain".to_vec())]).err(), Some(AiDataError::MagicNotFound));
    assert_eq!(
        decompress_ai_streams(&vec![Some(vec![0x28, 0xb5, 0x2f, 0xfd, 1, 2, 3])]).err(),
        Some(AiDataError::DecompressFailed)
    );
}

#[test]
fn text_slice_is_lossy() {
    let d = AiPrivateData { raw: vec![b'a', 0xff, b'b'] };
    assert_eq!(d.text_slice(0, 3), "a\u{fffd}b");
    assert_eq!(d.text_slice(1, 1), "");
}

#[test]
fn dedup_bboxes_keeps_first_of_each() {
    let keys = vec![(1, 2, 3, 4), (5, 6, 7, 8), (1, 2, 3, 4), (0, 0, 1, 1)];
    assert_eq!(dedup_bboxes(&keys), vec![0, 1, 3]);
}

#[test]
fn layer_names_follow_the_name_pattern() {
    let data = b"%AI5_BeginLayer\nLb\r\n\r\n(a(b)\n%AI5_EndLayer\n";
    assert_eq!(parse_layer_tree(data)[0].name, "a(b");
    // A name that is not valid UTF-8 does not match; the next `Lb` does.
    let data = b"%AI5_BeginLayer\nLb\n(\xff)\nLb\n(ok)\n%AI5_EndLayer\n";
    assert_eq!(parse_layer_tree(data)[0].name, "ok");
    // `Lb` must be followed by a line break before the parenthesis.
    let data = b"%AI5_BeginLayer\nLb (no)\n%AI5_EndLayer\n";
    assert_eq!(parse_layer_tree(data)[0].name, "");
}
