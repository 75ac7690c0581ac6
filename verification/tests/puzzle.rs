use hp_core::puzzle::{assemble_pieces, compute_piece_bbox, PieceGraph};
use hp_core::types::{
    default_canvas_height, default_export_height, default_layer_type, default_pdf_offset, Brick, MergeResult,
};

fn brick(id: &str, x: i32, y: i32, w: i32, h: i32) -> Brick {
    Brick { id: id.to_string(), x, y, width: w, height: h, brick_type: "brick".to_string() }
}

#[test]
fn brick_edges_and_area() {
    let b = brick("a", 10, 20, 30, 40);
    assert_eq!(b.right(), 40);
    assert_eq!(b.bottom(), 60);
    assert_eq!(b.area(), 1200);
    let big = brick("b", 0, 0, 100_000, 100_000);
    assert_eq!(big.area(), 10_000_000_000);
}

#[test]
fn defaults_match_record_defaults() {
    assert_eq!(default_layer_type(), "brick");
    assert_eq!(default_pdf_offset(), (0, 0));
    assert_eq!(default_canvas_height(), 900);
    assert_eq!(default_export_height(), 900);
}

#[test]
fn piece_bbox_is_union_of_bricks() {
    let bricks = vec![brick("a", 0, 0, 10, 10), brick("b", 5, -5, 20, 8), brick("c", 100, 100, 1, 1)];
    assert_eq!(compute_piece_bbox(&vec![0, 1], &bricks), (0, -5, 25, 15));
    // Unknown indices are skipped.
    assert_eq!(compute_piece_bbox(&vec![2, 9], &bricks), (100, 100, 1, 1));
}

fn line_graph() -> PieceGraph {
    // Bricks 0-1-2-3 in a row, brick 3 not mergeable.
    let adj = vec![vec![1], vec![0, 2], vec![1, 3], vec![2]];
    PieceGraph::new(vec![true, true, true, false], &adj)
}

#[test]
fn piece_graph_starts_with_single_brick_pieces() {
    let g = line_graph();
    assert_eq!(g.live_pieces(), vec![0, 1, 2]);
    assert_eq!(g.neighbors(1), vec![0, 2]);
    assert_eq!(g.neighbors(2), vec![1]);
    assert_eq!(g.piece_members(1), vec![1]);
}

#[test]
fn absorb_moves_bricks_and_neighbours() {
    let mut g = line_graph();
    g.absorb(1, 2);
    assert_eq!(g.live_pieces(), vec![0, 1]);
    assert_eq!(g.piece_members(1), vec![1, 2]);
    assert_eq!(g.piece_members(2), Vec::<usize>::new());
    assert_eq!(g.piece_of[2], 1);
    assert_eq!(g.neighbors(1), vec![0]);
    assert_eq!(g.neighbors(0), vec![1]);
    g.absorb(0, 1);
    assert_eq!(g.live_pieces(), vec![0]);
    assert_eq!(g.piece_members(0), vec![0, 1, 2]);
    assert!(g.neighbors(0).is_empty());
}

#[test]
fn absorb_removes_exactly_one_live_piece() {
    let adj = vec![vec![1, 2], vec![0, 2], vec![0, 1]];
    let mut g = PieceGraph::new(vec![true, true, true], &adj);
    let before = g.live_pieces().len();
    g.absorb(2, 0);
    assert_eq!(g.live_pieces().len(), before - 1);
    assert_eq!(g.neighbors(2), vec![1]);
}

fn touches(adj: &Vec<Vec<usize>>, b: usize, c: usize) -> bool {
    b != c && (adj[b].contains(&c) || adj[c].contains(&b))
}

fn is_connected(adj: &Vec<Vec<usize>>, m: &Vec<usize>) -> bool {
    let mut seen = vec![m[0]];
    let mut grew = true;
    while grew {
        grew = false;
        for &b in m {
            if !seen.contains(&b) && seen.iter().any(|&s| touches(adj, s, b)) {
                seen.push(b);
                grew = true;
            }
        }
    }
    seen.len() == m.len()
}

#[test]
fn merging_neighbours_keeps_pieces_connected() {
    // A 2x3 grid of bricks: 0 1 2 / 3 4 5, adjacency listed one way only.
    let adj = vec![vec![1, 3], vec![2, 4], vec![5], vec![4], vec![5], vec![]];
    let mut g = PieceGraph::new(vec![true; 6], &adj);
    for (keep, a) in [(0usize, 3usize), (2, 5), (0, 4), (2, 1)] {
        assert!(g.neighbors(keep).contains(&a));
        g.absorb(keep, a);
        for p in g.live_pieces() {
            assert!(is_connected(&adj, &g.piece_members(p)));
            // Piece adjacency follows brick adjacency.
            for q in g.live_pieces() {
                if p != q {
                    let linked = g.piece_members(p).iter()
                        .any(|&b| g.piece_members(q).iter().any(|&c| touches(&adj, b, c)));
                    assert_eq!(g.neighbors(p).contains(&q), linked);
                }
            }
        }
    }
    assert_eq!(g.live_pieces(), vec![0, 2]);
    assert_eq!(g.piece_members(0), vec![0, 3, 4]);
    assert_eq!(g.piece_members(2), vec![2, 5, 1]);
}

#[test]
fn assemble_pieces_numbers_fixed_then_groups() {
    let bricks = vec![brick("a", 0, 0, 10, 10), brick("b", 10, 0, 10, 10), brick("c", 50, 50, 5, 5)];
    let pieces = assemble_pieces(&bricks, &vec![2], &vec![vec![0, 1]]);
    assert_eq!(pieces.len(), 2);
    assert_eq!(pieces[0].id, "p0");
    assert_eq!(pieces[0].brick_ids, vec!["c"]);
    assert_eq!((pieces[0].x, pieces[0].y, pieces[0].width, pieces[0].height), (50, 50, 5, 5));
    assert_eq!(pieces[1].id, "p1");
    assert_eq!(pieces[1].brick_ids, vec!["a", "b"]);
    assert_eq!((pieces[1].x, pieces[1].y, pieces[1].width, pieces[1].height), (0, 0, 20, 10));
    let r = MergeResult { pieces };
    assert_eq!(r.pieces.len(), 2);
}

#[test]
fn assemble_pieces_ids_count_past_nine() {
    let bricks: Vec<Brick> = (0..12).map(|i| brick(&format!("b{i}"), i, 0, 1, 1)).collect();
    let fixed: Vec<usize> = (0..12).collect();
    let pieces = assemble_pieces(&bricks, &fixed, &vec![]);
    assert_eq!(pieces[11].id, "p11");
    assert_eq!(pieces[10].brick_ids, vec!["b10"]);
}
