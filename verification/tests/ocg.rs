use hp_core::ocg::{
    block_content, block_ocg_assignment, block_prop, brick_ocg, decode_pdf_string, marker_prop, names_bricks_layer, ocg_of_block, op_kind,
    plan_rewrite, register_layers, scope_of_bdc, walk_page_bricks, BlockSpan, BrickBlockMap, BrickContent, Emit, InjectedOcgs, Marker,
    ModifiedPdfStats, OcgProperty, OcgRef, OpKind, Operand, PdfOp, XObjectRef,
};

fn name(s: &str) -> Operand {
    Operand::Name(s.as_bytes().to_vec())
}

fn op(operator: &str, operands: Vec<Operand>) -> PdfOp {
    PdfOp { operator: operator.as_bytes().to_vec(), operands }
}

fn prop(key: &str, ocg: &str) -> OcgProperty {
    OcgProperty { key: key.to_string(), ocg_name: ocg.to_string() }
}

fn xobj(n: &str, image: bool) -> XObjectRef {
    XObjectRef { name: n.to_string(), object_id: (7, 0), is_image: image }
}

#[test]
fn op_kind_recognises_operators() {
    assert_eq!(op_kind(&b"q".to_vec()), OpKind::Save);
    assert_eq!(op_kind(&b"Q".to_vec()), OpKind::Restore);
    assert_eq!(op_kind(&b"BDC".to_vec()), OpKind::BeginMarked);
    assert_eq!(op_kind(&b"EMC".to_vec()), OpKind::EndMarked);
    assert_eq!(op_kind(&b"Do".to_vec()), OpKind::PaintXObject);
    assert_eq!(op_kind(&b"cm".to_vec()), OpKind::Other);
    assert_eq!(op_kind(&b"BD".to_vec()), OpKind::Other);
}

#[test]
fn bricks_layer_name_ignores_ascii_case() {
    assert!(names_bricks_layer(&"bricks".to_string()));
    assert!(names_bricks_layer(&"BRICKS".to_string()));
    assert!(names_bricks_layer(&"BrIcKs".to_string()));
    assert!(!names_bricks_layer(&"brick".to_string()));
    assert!(!names_bricks_layer(&"bricks ".to_string()));
    assert!(!names_bricks_layer(&"Layer 1".to_string()));
}

#[test]
fn bdc_scope_resolves_property_names() {
    let props = vec![prop("MC0", "bricks"), prop("MC1", "Layer 3"), prop("MC1", "lights")];
    assert_eq!(scope_of_bdc(&props, &vec![name("OC"), name("MC0")]), (true, None));
    // The later entry for the same key wins.
    assert_eq!(scope_of_bdc(&props, &vec![name("OC"), name("MC1")]), (false, Some(2)));
    assert_eq!(scope_of_bdc(&props, &vec![name("OC"), name("MC9")]), (false, None));
    assert_eq!(scope_of_bdc(&props, &vec![name("Span"), name("MC0")]), (false, None));
    assert_eq!(scope_of_bdc(&props, &vec![name("OC"), Operand::Other]), (false, None));
}

#[test]
fn decode_pdf_string_is_lossy_utf8() {
    assert_eq!(decode_pdf_string(b"Layer 12"), "Layer 12");
    assert_eq!(decode_pdf_string(&[0x61, 0xff, 0x62]), "a\u{fffd}b");
}

fn sample_stream() -> (Vec<PdfOp>, Vec<OcgProperty>, Vec<XObjectRef>) {
    let ops = vec![
        op("BDC", vec![name("OC"), name("P1")]),
        op("q", vec![]),
        op("Do", vec![name("Im1")]),
        op("Q", vec![]),
        op("re", vec![Operand::Other, Operand::Other, Operand::Other, Operand::Other]),
        op("EMC", vec![]),
    ];
    (ops, vec![prop("P1", "Bricks")], vec![xobj("Im1", true)])
}

#[test]
fn walk_finds_block_inside_bricks_layer() {
    let (ops, props, xobjs) = sample_stream();
    let blocks = walk_page_bricks(&ops, &props, &xobjs);
    assert_eq!(blocks.len(), 1);
    let b = blocks[0];
    assert_eq!((b.q_idx, b.end_q_idx), (1, 3));
    assert_eq!(b.xobject, Some(0));
    assert_eq!(b.content_idx, Some(2));
    assert_eq!(b.straddle_split, None);
    assert_eq!(b.layer_prop, None);
}

#[test]
fn walk_ignores_blocks_outside_bricks_layer() {
    let ops = vec![op("q", vec![]), op("Q", vec![]), op("BDC", vec![name("OC"), name("L")]), op("q", vec![]), op("Q", vec![]), op("EMC", vec![])];
    let props = vec![prop("L", "lights")];
    assert!(walk_page_bricks(&ops, &props, &vec![]).is_empty());
}

#[test]
fn walk_closes_block_at_matching_restore_only() {
    let ops = vec![
        op("BDC", vec![name("OC"), name("B")]),
        op("q", vec![]),
        op("q", vec![]),
        op("Q", vec![]),
        op("Q", vec![]),
        op("EMC", vec![]),
    ];
    let blocks = walk_page_bricks(&ops, &vec![prop("B", "bricks")], &vec![]);
    assert_eq!(blocks.len(), 1);
    assert_eq!((blocks[0].q_idx, blocks[0].end_q_idx), (1, 4));
    assert_eq!(blocks[0].xobject, None);
}

#[test]
fn walk_records_innermost_layer_and_straddle() {
    let ops = vec![
        op("BDC", vec![name("OC"), name("L3")]),
        op("BDC", vec![name("OC"), name("B")]),
        op("q", vec![]),
        op("EMC", vec![]),
        op("BDC", vec![name("OC"), name("LT")]),
        op("Q", vec![]),
        op("EMC", vec![]),
        op("EMC", vec![]),
    ];
    let props = vec![prop("B", "bricks"), prop("L3", "Layer 3"), prop("LT", "lights")];
    let blocks = walk_page_bricks(&ops, &props, &vec![]);
    assert_eq!(blocks.len(), 1);
    assert_eq!(blocks[0].layer_prop, Some(1));
    assert_eq!(blocks[0].straddle_split, Some((3, 4)));
    assert_eq!((blocks[0].q_idx, blocks[0].end_q_idx), (2, 5));
}

#[test]
fn walk_takes_form_xobjects_and_unknown_names() {
    let ops = vec![
        op("BDC", vec![name("OC"), name("B")]),
        op("q", vec![]),
        op("Do", vec![name("Fm0")]),
        op("Do", vec![name("Missing")]),
        op("Q", vec![]),
        op("EMC", vec![]),
    ];
    let blocks = walk_page_bricks(&ops, &vec![prop("B", "bricks")], &vec![xobj("Fm0", false)]);
    assert_eq!(blocks[0].xobject, Some(0));
    assert_eq!(blocks[0].content_idx, Some(2));
}

#[test]
fn plan_wraps_blocks_and_inline_content() {
    let (ops, props, xobjs) = sample_stream();
    let blocks = walk_page_bricks(&ops, &props, &xobjs);
    let map = BrickBlockMap { brick_to_blocks: vec![vec![0]], decoration_blocks: vec![] };
    let plan = plan_rewrite(&ops, &props, &blocks, &xobjs, &map);
    assert_eq!(
        plan,
        vec![
            Emit::Op(0),
            Emit::Begin(Marker::Block(0)),
            Emit::Begin(Marker::Image),
            Emit::Op(1),
            Emit::Op(2),
            Emit::Op(3),
            Emit::End,
            Emit::End,
            Emit::Begin(Marker::Inline),
            Emit::Op(4),
            Emit::End,
            Emit::Op(5),
        ]
    );
}

#[test]
fn plan_leaves_unassigned_blocks_unwrapped() {
    let (ops, props, xobjs) = sample_stream();
    let blocks = walk_page_bricks(&ops, &props, &xobjs);
    let map = BrickBlockMap { brick_to_blocks: vec![vec![]], decoration_blocks: vec![] };
    let plan = plan_rewrite(&ops, &props, &blocks, &xobjs, &map);
    let ops_only: Vec<Emit> = plan.iter().copied().filter(|e| matches!(e, Emit::Op(_))).collect();
    assert_eq!(ops_only, (0..6).map(Emit::Op).collect::<Vec<_>>());
    assert!(!plan.contains(&Emit::Begin(Marker::Block(0))));
}

#[test]
fn plan_splits_straddling_block() {
    let ops = vec![
        op("BDC", vec![name("OC"), name("B")]),
        op("q", vec![]),
        op("EMC", vec![]),
        op("BDC", vec![name("OC"), name("LT")]),
        op("Q", vec![]),
        op("EMC", vec![]),
    ];
    let props = vec![prop("B", "bricks"), prop("LT", "lights")];
    let blocks = walk_page_bricks(&ops, &props, &vec![]);
    assert_eq!(blocks[0].straddle_split, Some((2, 3)));
    let map = BrickBlockMap { brick_to_blocks: vec![], decoration_blocks: vec![0] };
    let plan = plan_rewrite(&ops, &props, &blocks, &vec![], &map);
    assert_eq!(
        plan,
        vec![
            Emit::Op(0),
            Emit::Begin(Marker::Block(0)),
            Emit::Op(1),
            Emit::End,
            Emit::Op(2),
            Emit::Op(3),
            Emit::Begin(Marker::Block(0)),
            Emit::Op(4),
            Emit::End,
            Emit::Op(5),
        ]
    );
}

#[test]
fn plan_closes_inline_scope_at_end_of_stream() {
    let ops = vec![op("BDC", vec![name("OC"), name("B")]), op("f", vec![])];
    let props = vec![prop("B", "bricks")];
    let map = BrickBlockMap { brick_to_blocks: vec![], decoration_blocks: vec![] };
    let plan = plan_rewrite(&ops, &props, &vec![], &vec![], &map);
    assert_eq!(plan, vec![Emit::Op(0), Emit::Begin(Marker::Inline), Emit::Op(1), Emit::End]);
}

fn inserted_scopes_balanced(plan: &[Emit]) -> bool {
    let mut depth: i64 = 0;
    for e in plan {
        match e {
            Emit::Begin(_) => depth += 1,
            Emit::End => depth -= 1,
            Emit::Op(_) => {}
        }
        if depth < 0 {
            return false;
        }
    }
    depth == 0
}

#[test]
fn plan_inserts_balanced_scopes() {
    let ops = vec![
        op("BDC", vec![name("OC"), name("B")]),
        op("re", vec![]),
        op("q", vec![]),
        op("Do", vec![name("Im1")]),
        op("Q", vec![]),
        op("f", vec![]),
        op("q", vec![]),
        op("EMC", vec![]),
        op("BDC", vec![name("OC"), name("LT")]),
        op("Q", vec![]),
        op("EMC", vec![]),
        op("BDC", vec![name("OC"), name("B")]),
        op("f", vec![]),
    ];
    let props = vec![prop("B", "bricks"), prop("LT", "lights")];
    let xobjs = vec![xobj("Im1", true)];
    let blocks = walk_page_bricks(&ops, &props, &xobjs);
    assert_eq!(blocks.len(), 2);
    for map in [
        BrickBlockMap { brick_to_blocks: vec![vec![0], vec![1]], decoration_blocks: vec![] },
        BrickBlockMap { brick_to_blocks: vec![vec![0]], decoration_blocks: vec![] },
        BrickBlockMap { brick_to_blocks: vec![], decoration_blocks: vec![1] },
    ] {
        let plan = plan_rewrite(&ops, &props, &blocks, &xobjs, &map);
        assert!(inserted_scopes_balanced(&plan));
    }
}

#[test]
fn marker_properties_are_distinct() {
    assert_eq!(marker_prop(Marker::Block(12)), "hp_p_0012");
    assert_eq!(marker_prop(Marker::Inline), "hp_p_inline");
    assert_eq!(marker_prop(Marker::Image), "hp_p_image");
    let mut names: Vec<String> = (0..1200).map(|b| marker_prop(Marker::Block(b))).collect();
    names.push(marker_prop(Marker::Inline));
    names.push(marker_prop(Marker::Image));
    let mut sorted = names.clone();
    sorted.sort();
    sorted.dedup();
    assert_eq!(sorted.len(), names.len());
    let bricks: Vec<String> = (0..1200).map(brick_ocg).collect();
    let mut sb = bricks.clone();
    sb.sort();
    sb.dedup();
    assert_eq!(sb.len(), bricks.len());
    assert!(!bricks.iter().any(|b| b == "hp_decoration" || b == "hp_bricks_inline" || b == "hp_image"));
}

#[test]
fn ocg_names_are_zero_padded() {
    assert_eq!(brick_ocg(0), "hp_brick_0000");
    assert_eq!(brick_ocg(42), "hp_brick_0042");
    assert_eq!(brick_ocg(12345), "hp_brick_12345");
    assert_eq!(block_prop(7), "hp_p_0007");
    assert_eq!(block_prop(1000), "hp_p_1000");
}

#[test]
fn injected_ocg_names_for_bricks() {
    let n = InjectedOcgs::for_bricks(3);
    assert_eq!(n.brick_ocgs, vec!["hp_brick_0000", "hp_brick_0001", "hp_brick_0002"]);
    assert_eq!(n.decoration_ocg, "hp_decoration");
    assert_eq!(n.inline_ocg, "hp_bricks_inline");
    assert_eq!(n.image_ocg, "hp_image");
}

#[test]
fn block_assignment_prefers_decoration_then_last_brick() {
    let map = BrickBlockMap { brick_to_blocks: vec![vec![0, 1], vec![1, 2]], decoration_blocks: vec![2, 5] };
    assert_eq!(ocg_of_block(&map, 0), Some(OcgRef::Brick(0)));
    assert_eq!(ocg_of_block(&map, 1), Some(OcgRef::Brick(1)));
    assert_eq!(ocg_of_block(&map, 2), Some(OcgRef::Decoration));
    assert_eq!(ocg_of_block(&map, 3), None);
    let a = block_ocg_assignment(&map);
    assert_eq!(a, vec![(0, OcgRef::Brick(0)), (1, OcgRef::Brick(1)), (2, OcgRef::Decoration), (5, OcgRef::Decoration)]);
}

#[test]
fn modified_pdf_stats_count_blocks_and_bricks() {
    let map = BrickBlockMap { brick_to_blocks: vec![vec![0], vec![], vec![1, 2]], decoration_blocks: vec![3] };
    let s = ModifiedPdfStats::from_match(4, &map, 3);
    assert_eq!(s.pdf_blocks_total, 4);
    assert_eq!(s.pdf_blocks_matched, 3);
    assert_eq!(s.pdf_blocks_decoration, 1);
    assert_eq!(s.bricks_with_at_least_one_block, 2);
    assert_eq!(s.bricks_orphaned, 1);
}

#[test]
fn block_span_is_plain_data() {
    let b = BlockSpan { q_idx: 1, end_q_idx: 2, xobject: None, content_idx: None, straddle_split: None, layer_prop: None };
    let c = b;
    assert_eq!(c.q_idx, 1);
}

#[test]
fn block_content_names_the_painted_xobject() {
    let ops = vec![
        op("BDC", vec![name("OC"), name("B")]),
        op("q", vec![]),
        op("Do", vec![name("Im1")]),
        op("Q", vec![]),
        op("q", vec![]),
        op("Do", vec![name("Fm0")]),
        op("Q", vec![]),
        op("q", vec![]),
        op("f", vec![]),
        op("Q", vec![]),
        op("EMC", vec![]),
    ];
    let xobjs = vec![xobj("Im1", true), xobj("Fm0", false)];
    let blocks = walk_page_bricks(&ops, &vec![prop("B", "bricks")], &xobjs);
    let kinds: Vec<&str> = blocks.iter().map(|b| block_content(b, &xobjs).kind_str()).collect();
    assert_eq!(kinds, vec!["Image", "Form", "Inlined"]);
    match block_content(&blocks[0], &xobjs) {
        BrickContent::Image { name, object_id } => assert_eq!((name.as_str(), object_id), ("Im1", (7, 0))),
        _ => panic!("expected an image"),
    }
}

#[test]
fn register_layers_appends_after_the_existing_groups() {
    let (ocgs, order) = register_layers(vec![7, 3], vec![3], vec![10, 11, 12]);
    assert_eq!(ocgs, vec![7, 3, 10, 11, 12]);
    assert_eq!(order, vec![3, 10, 11, 12]);
    let (ocgs, order) = register_layers(vec![], vec![], vec![5]);
    assert_eq!(ocgs, vec![5]);
    assert_eq!(order, vec![5]);
    let (ocgs, order) = register_layers(vec![1, 2], vec![2, 1], vec![]);
    assert_eq!(ocgs, vec![1, 2]);
    assert_eq!(order, vec![2, 1]);
}
