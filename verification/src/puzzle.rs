//! Puzzle engine bookkeeping: piece bounding boxes and the piece graph
//! that area-balanced merging walks. Bricks and pieces are addressed by
//! index; a piece is named after the brick it started from.
use vstd::prelude::*;
use crate::types::{Brick, PuzzlePiece};
use crate::ocg::{append_decimal, decimal};

verus! {

// ── bounding boxes ──────────────────────────────────────────────────

pub open spec fn min_i(a: int, b: int) -> int {
    if a <= b { a } else { b }
}

pub open spec fn max_i(a: int, b: int) -> int {
    if a >= b { a } else { b }
}

/// Union bounding box `(x0, y0, x1, y1)` of the bricks named by `ids`,
/// starting from the empty box `(i32::MAX, i32::MAX, i32::MIN, i32::MIN)`.
pub open spec fn union_box(bricks: Seq<Brick>, ids: Seq<usize>) -> (int, int, int, int)
    decreases ids.len(),
{
    if ids.len() == 0 {
        (i32::MAX as int, i32::MAX as int, i32::MIN as int, i32::MIN as int)
    } else {
        let (x0, y0, x1, y1) = union_box(bricks, ids.drop_last());
        let k = ids.last() as int;
        if k < bricks.len() {
            let b = bricks[k];
            (
                min_i(x0, b.x as int),
                min_i(y0, b.y as int),
                max_i(x1, b.spec_right()),
                max_i(y1, b.spec_bottom()),
            )
        } else {
            (x0, y0, x1, y1)
        }
    }
}

/// Every named brick's right and bottom edges fit in `i32`.
pub open spec fn edges_fit(bricks: Seq<Brick>, ids: Seq<usize>) -> bool {
    forall|k: int|
        0 <= k < ids.len() && (ids[k] as int) < bricks.len() ==> #[trigger] bricks[ids[k] as int].right_fits()
            && bricks[ids[k] as int].bottom_fits()
}

/// Bounding box `(x, y, width, height)` of the bricks of a piece; ids that
/// name no brick are skipped.
pub fn compute_piece_bbox(ids: &Vec<usize>, bricks: &Vec<Brick>) -> (r: (i32, i32, i32, i32))
    requires
        edges_fit(bricks@, ids@),
        i32::MIN <= union_box(bricks@, ids@).2 - union_box(bricks@, ids@).0 <= i32::MAX,
        i32::MIN <= union_box(bricks@, ids@).3 - union_box(bricks@, ids@).1 <= i32::MAX,
    ensures
        r.0 == union_box(bricks@, ids@).0,
        r.1 == union_box(bricks@, ids@).1,
        r.2 == union_box(bricks@, ids@).2 - union_box(bricks@, ids@).0,
        r.3 == union_box(bricks@, ids@).3 - union_box(bricks@, ids@).1,
{
    let mut x0: i32 = i32::MAX;
    let mut y0: i32 = i32::MAX;
    let mut x1: i32 = i32::MIN;
    let mut y1: i32 = i32::MIN;
    let mut i: usize = 0;
    while i < ids.len()
        invariant
            i <= ids@.len(),
            edges_fit(bricks@, ids@),
            (x0 as int, y0 as int, x1 as int, y1 as int) == union_box(bricks@, ids@.take(i as int)),
        decreases ids@.len() - i,
    {
        proof {
            assert(ids@.take(i + 1).drop_last() =~= ids@.take(i as int));
        }
        let k = ids[i];
        if k < bricks.len() {
            let b = &bricks[k];
            assert(bricks@[ids@[i as int] as int].right_fits() && bricks@[ids@[i as int] as int].bottom_fits());
            if b.x < x0 {
                x0 = b.x;
            }
            if b.y < y0 {
                y0 = b.y;
            }
            let r = b.right();
            let bt = b.bottom();
            if r > x1 {
                x1 = r;
            }
            if bt > y1 {
                y1 = bt;
            }
        }
        i = i + 1;
    }
    proof {
        assert(ids@.take(i as int) =~= ids@);
        lemma_union_box_range(bricks@, ids@);
    }
    (x0, y0, x1 - x0, y1 - y0)
}

proof fn lemma_union_box_range(bricks: Seq<Brick>, ids: Seq<usize>)
    requires
        edges_fit(bricks, ids),
    ensures
        i32::MIN <= union_box(bricks, ids).0 <= i32::MAX,
        i32::MIN <= union_box(bricks, ids).1 <= i32::MAX,
        i32::MIN <= union_box(bricks, ids).2 <= i32::MAX,
        i32::MIN <= union_box(bricks, ids).3 <= i32::MAX,
    decreases ids.len(),
{
    if ids.len() > 0 {
        let prev = ids.drop_last();
        assert(edges_fit(bricks, prev)) by {
            assert forall|j: int| 0 <= j < prev.len() && (prev[j] as int) < bricks.len() implies #[trigger] bricks[prev[j] as int].right_fits()
                && bricks[prev[j] as int].bottom_fits() by {
                assert(prev[j] == ids[j]);
            }
        }
        lemma_union_box_range(bricks, prev);
        let k = ids.last() as int;
        if k < bricks.len() {
            assert(bricks[ids[ids.len() - 1] as int].right_fits());
            assert(bricks[ids[ids.len() - 1] as int].bottom_fits());
        }
    }
}

proof fn lemma_named_edges_fit(bricks: Seq<Brick>, ids: Seq<usize>, k: int)
    requires
        edges_fit(bricks, ids),
        0 <= k < ids.len(),
        (ids[k] as int) < bricks.len(),
    ensures
        bricks[ids[k] as int].right_fits(),
        bricks[ids[k] as int].bottom_fits(),
{
    assert(bricks[ids[k] as int].right_fits());
}

/// The ids of `ids` that name a brick.
pub open spec fn names_brick(bricks: Seq<Brick>, ids: Seq<usize>, k: int) -> bool {
    0 <= k < ids.len() && (ids[k] as int) < bricks.len()
}

/// A piece's box contains each of its bricks and is the smallest box that
/// does: each edge is some brick's edge. With no brick named it is the
/// empty box `(i32::MAX, i32::MAX, i32::MIN, i32::MIN)`.
pub proof fn law_piece_box_is_tight_union(bricks: Seq<Brick>, ids: Seq<usize>)
    requires
        edges_fit(bricks, ids),
    ensures
        forall|k: int| #[trigger] names_brick(bricks, ids, k) ==> {
            let b = bricks[ids[k] as int];
            &&& union_box(bricks, ids).0 <= b.x
            &&& union_box(bricks, ids).1 <= b.y
            &&& union_box(bricks, ids).2 >= b.x + b.width
            &&& union_box(bricks, ids).3 >= b.y + b.height
        },
        (exists|k: int| #[trigger] names_brick(bricks, ids, k)) ==> {
            &&& exists|k: int| #[trigger] names_brick(bricks, ids, k) && union_box(bricks, ids).0 == bricks[ids[k] as int].x
            &&& exists|k: int| #[trigger] names_brick(bricks, ids, k) && union_box(bricks, ids).1 == bricks[ids[k] as int].y
            &&& exists|k: int| #[trigger] names_brick(bricks, ids, k) && union_box(bricks, ids).2
                == bricks[ids[k] as int].x + bricks[ids[k] as int].width
            &&& exists|k: int| #[trigger] names_brick(bricks, ids, k) && union_box(bricks, ids).3
                == bricks[ids[k] as int].y + bricks[ids[k] as int].height
        },
        (forall|k: int| !#[trigger] names_brick(bricks, ids, k)) ==> union_box(bricks, ids) == (
            i32::MAX as int,
            i32::MAX as int,
            i32::MIN as int,
            i32::MIN as int,
        ),
    decreases ids.len(),
{
    if ids.len() > 0 {
        let prev = ids.drop_last();
        assert(edges_fit(bricks, prev)) by {
            assert forall|j: int| 0 <= j < prev.len() && (prev[j] as int) < bricks.len() implies #[trigger] bricks[prev[j] as int].right_fits()
                && bricks[prev[j] as int].bottom_fits() by {
                assert(prev[j] == ids[j]);
            }
        }
        law_piece_box_is_tight_union(bricks, prev);
        let last = ids.len() - 1;
        assert forall|k: int| 0 <= k < last implies #[trigger] names_brick(bricks, ids, k) == names_brick(bricks, prev, k) by {
            assert(prev[k] == ids[k]);
        }
        let u = union_box(bricks, ids);
        let v = union_box(bricks, prev);
        if names_brick(bricks, ids, last) {
            let b = bricks[ids[last] as int];
            lemma_named_edges_fit(bricks, ids, last);
            if exists|k: int| #[trigger] names_brick(bricks, prev, k) {
                let k0 = choose|k: int| #[trigger] names_brick(bricks, prev, k) && v.0 == bricks[prev[k] as int].x;
                let k1 = choose|k: int| #[trigger] names_brick(bricks, prev, k) && v.1 == bricks[prev[k] as int].y;
                let k2 = choose|k: int| #[trigger] names_brick(bricks, prev, k) && v.2
                    == bricks[prev[k] as int].x + bricks[prev[k] as int].width;
                let k3 = choose|k: int| #[trigger] names_brick(bricks, prev, k) && v.3
                    == bricks[prev[k] as int].y + bricks[prev[k] as int].height;
                assert(names_brick(bricks, ids, k0) && names_brick(bricks, ids, k1));
                assert(names_brick(bricks, ids, k2) && names_brick(bricks, ids, k3));
                if u.0 != b.x {
                    assert(u.0 == bricks[ids[k0] as int].x);
                }
                if u.1 != b.y {
                    assert(u.1 == bricks[ids[k1] as int].y);
                }
                if u.2 != b.x + b.width {
                    assert(u.2 == bricks[ids[k2] as int].x + bricks[ids[k2] as int].width);
                }
                if u.3 != b.y + b.height {
                    assert(u.3 == bricks[ids[k3] as int].y + bricks[ids[k3] as int].height);
                }
            } else {
                assert(v == (i32::MAX as int, i32::MAX as int, i32::MIN as int, i32::MIN as int));
                assert(u.0 == b.x && u.1 == b.y && u.2 == b.x + b.width && u.3 == b.y + b.height);
            }
            assert forall|k: int| #[trigger] names_brick(bricks, ids, k) implies {
                let bk = bricks[ids[k] as int];
                &&& u.0 <= bk.x
                &&& u.1 <= bk.y
                &&& u.2 >= bk.x + bk.width
                &&& u.3 >= bk.y + bk.height
            } by {
                if k < last {
                    assert(names_brick(bricks, prev, k));
                }
            }
        } else {
            assert(u == v);
            assert forall|k: int| #[trigger] names_brick(bricks, ids, k) implies names_brick(bricks, prev, k) && ids[k] == prev[k] by {}
            if exists|k: int| #[trigger] names_brick(bricks, ids, k) {
                let k = choose|k: int| #[trigger] names_brick(bricks, ids, k);
                assert(names_brick(bricks, prev, k));
                let k0 = choose|k: int| #[trigger] names_brick(bricks, prev, k) && v.0 == bricks[prev[k] as int].x;
                let k1 = choose|k: int| #[trigger] names_brick(bricks, prev, k) && v.1 == bricks[prev[k] as int].y;
                let k2 = choose|k: int| #[trigger] names_brick(bricks, prev, k) && v.2
                    == bricks[prev[k] as int].x + bricks[prev[k] as int].width;
                let k3 = choose|k: int| #[trigger] names_brick(bricks, prev, k) && v.3
                    == bricks[prev[k] as int].y + bricks[prev[k] as int].height;
                assert(names_brick(bricks, ids, k0) && names_brick(bricks, ids, k1));
                assert(names_brick(bricks, ids, k2) && names_brick(bricks, ids, k3));
            } else {
                assert forall|k: int| !#[trigger] names_brick(bricks, prev, k) by {
                    if names_brick(bricks, prev, k) {
                        assert(names_brick(bricks, ids, k));
                    }
                }
            }
        }
    }
}

/// A piece's box depends only on which bricks it names, not on their
/// order or repetition.
pub proof fn law_piece_box_ignores_id_order(bricks: Seq<Brick>, ids: Seq<usize>, other: Seq<usize>)
    requires
        edges_fit(bricks, ids),
        edges_fit(bricks, other),
        forall|k: int| #[trigger] names_brick(bricks, ids, k) ==> other.contains(ids[k]),
        forall|k: int| #[trigger] names_brick(bricks, other, k) ==> ids.contains(other[k]),
    ensures
        union_box(bricks, ids) == union_box(bricks, other),
{
    law_piece_box_is_tight_union(bricks, ids);
    law_piece_box_is_tight_union(bricks, other);
    let u = union_box(bricks, ids);
    let v = union_box(bricks, other);
    if exists|k: int| #[trigger] names_brick(bricks, ids, k) {
        let k = choose|k: int| #[trigger] names_brick(bricks, ids, k);
        let j = choose|j: int| 0 <= j < other.len() && other[j] == ids[k];
        assert(names_brick(bricks, other, j));
        let k0 = choose|k: int| #[trigger] names_brick(bricks, ids, k) && u.0 == bricks[ids[k] as int].x;
        let k1 = choose|k: int| #[trigger] names_brick(bricks, ids, k) && u.1 == bricks[ids[k] as int].y;
        let k2 = choose|k: int| #[trigger] names_brick(bricks, ids, k) && u.2
            == bricks[ids[k] as int].x + bricks[ids[k] as int].width;
        let k3 = choose|k: int| #[trigger] names_brick(bricks, ids, k) && u.3
            == bricks[ids[k] as int].y + bricks[ids[k] as int].height;
        let j0 = choose|j: int| #[trigger] names_brick(bricks, other, j) && v.0 == bricks[other[j] as int].x;
        let j1 = choose|j: int| #[trigger] names_brick(bricks, other, j) && v.1 == bricks[other[j] as int].y;
        let j2 = choose|j: int| #[trigger] names_brick(bricks, other, j) && v.2
            == bricks[other[j] as int].x + bricks[other[j] as int].width;
        let j3 = choose|j: int| #[trigger] names_brick(bricks, other, j) && v.3
            == bricks[other[j] as int].y + bricks[other[j] as int].height;
        let m0 = choose|m: int| 0 <= m < other.len() && other[m] == ids[k0];
        let m1 = choose|m: int| 0 <= m < other.len() && other[m] == ids[k1];
        let m2 = choose|m: int| 0 <= m < other.len() && other[m] == ids[k2];
        let m3 = choose|m: int| 0 <= m < other.len() && other[m] == ids[k3];
        assert(names_brick(bricks, other, m0) && names_brick(bricks, other, m1));
        assert(names_brick(bricks, other, m2) && names_brick(bricks, other, m3));
        let n0 = choose|m: int| 0 <= m < ids.len() && ids[m] == other[j0];
        let n1 = choose|m: int| 0 <= m < ids.len() && ids[m] == other[j1];
        let n2 = choose|m: int| 0 <= m < ids.len() && ids[m] == other[j2];
        let n3 = choose|m: int| 0 <= m < ids.len() && ids[m] == other[j3];
        assert(names_brick(bricks, ids, n0) && names_brick(bricks, ids, n1));
        assert(names_brick(bricks, ids, n2) && names_brick(bricks, ids, n3));
    } else {
        assert forall|j: int| !#[trigger] names_brick(bricks, other, j) by {
            if names_brick(bricks, other, j) {
                let m = choose|m: int| 0 <= m < ids.len() && ids[m] == other[j];
                assert(names_brick(bricks, ids, m));
            }
        }
    }
}

// ── result assembly ─────────────────────────────────────────────────

/// The id of the `k`-th piece of a result: `p` and `k` in decimal.
pub open spec fn piece_id(k: nat) -> Seq<char> {
    "p"@ + decimal(k)
}

fn piece_id_string(k: usize) -> (r: String)
    ensures
        r@ == piece_id(k as nat),
{
    let mut s = String::from_str("p");
    append_decimal(&mut s, k);
    s
}

/// The pieces of a merge result can be formed: every index names a brick,
/// and every merged group's box is computable.
pub open spec fn pieces_formable(bricks: Seq<Brick>, fixed: Seq<usize>, groups: Seq<Vec<usize>>) -> bool {
    &&& forall|k: int| 0 <= k < fixed.len() ==> (#[trigger] fixed[k] as int) < bricks.len()
    &&& forall|g: int, j: int| 0 <= g < groups.len() && 0 <= j < groups[g]@.len() ==> (#[trigger] groups[g]@[j] as int) < bricks.len()
    &&& forall|g: int| 0 <= g < groups.len() ==> {
        &&& edges_fit(bricks, #[trigger] groups[g]@)
        &&& i32::MIN <= union_box(bricks, groups[g]@).2 - union_box(bricks, groups[g]@).0 <= i32::MAX
        &&& i32::MIN <= union_box(bricks, groups[g]@).3 - union_box(bricks, groups[g]@).1 <= i32::MAX
    }
}

/// Piece `k` of a result is a fixed brick on its own.
pub open spec fn is_fixed_piece(p: PuzzlePiece, b: Brick, k: int) -> bool {
    &&& p.id@ == piece_id(k as nat)
    &&& p.brick_ids@.len() == 1 && p.brick_ids@[0]@ == b.id@
    &&& p.x == b.x && p.y == b.y && p.width == b.width && p.height == b.height
}

/// Piece `k` of a result is a merged group with its bounding box.
pub open spec fn is_group_piece(p: PuzzlePiece, bricks: Seq<Brick>, g: Seq<usize>, k: int) -> bool {
    let bx = union_box(bricks, g);
    &&& p.id@ == piece_id(k as nat)
    &&& p.brick_ids@.len() == g.len()
    &&& forall|j: int| 0 <= j < g.len() ==> (#[trigger] p.brick_ids@[j])@ == bricks[g[j] as int].id@
    &&& p.x == bx.0 && p.y == bx.1 && p.width == bx.2 - bx.0 && p.height == bx.3 - bx.1
}

/// Builds the result of a merge: the fixed bricks as single-brick pieces
/// first, then each merged group, numbered `p0`, `p1`, … in that order.
pub fn assemble_pieces(bricks: &Vec<Brick>, fixed: &Vec<usize>, groups: &Vec<Vec<usize>>) -> (r: Vec<PuzzlePiece>)
    requires
        pieces_formable(bricks@, fixed@, groups@),
        fixed@.len() + groups@.len() <= usize::MAX,
    ensures
        r@.len() == fixed@.len() + groups@.len(),
        forall|k: int| 0 <= k < fixed@.len() ==> is_fixed_piece(#[trigger] r@[k], bricks@[fixed@[k] as int], k),
        forall|g: int| 0 <= g < groups@.len() ==> is_group_piece(#[trigger] r@[fixed@.len() + g], bricks@, groups@[g]@, fixed@.len() + g),
{
    let mut out: Vec<PuzzlePiece> = Vec::new();
    let mut k: usize = 0;
    while k < fixed.len()
        invariant
            pieces_formable(bricks@, fixed@, groups@),
            k <= fixed@.len(),
            out@.len() == k,
            forall|t: int| 0 <= t < k ==> is_fixed_piece(#[trigger] out@[t], bricks@[fixed@[t] as int], t),
        decreases fixed@.len() - k,
    {
        let b = &bricks[fixed[k]];
        let mut ids: Vec<String> = Vec::new();
        ids.push(b.id.clone());
        out.push(PuzzlePiece { id: piece_id_string(k), brick_ids: ids, x: b.x, y: b.y, width: b.width, height: b.height });
        k = k + 1;
    }
    let nf = fixed.len();
    let mut g: usize = 0;
    while g < groups.len()
        invariant
            pieces_formable(bricks@, fixed@, groups@),
            nf == fixed@.len(),
            nf + groups@.len() <= usize::MAX,
            g <= groups@.len(),
            out@.len() == nf + g,
            forall|t: int| 0 <= t < nf ==> is_fixed_piece(#[trigger] out@[t], bricks@[fixed@[t] as int], t),
            forall|t: int| 0 <= t < g ==> is_group_piece(#[trigger] out@[nf + t], bricks@, groups@[t]@, nf + t),
        decreases groups@.len() - g,
    {
        let grp = &groups[g];
        assert(edges_fit(bricks@, groups@[g as int]@));
        let bx = compute_piece_bbox(grp, bricks);
        let mut ids: Vec<String> = Vec::new();
        let mut j: usize = 0;
        while j < grp.len()
            invariant
                pieces_formable(bricks@, fixed@, groups@),
                g < groups@.len(),
                grp@ == groups@[g as int]@,
                j <= grp@.len(),
                ids@.len() == j,
                forall|t: int| 0 <= t < j ==> (#[trigger] ids@[t])@ == bricks@[grp@[t] as int].id@,
            decreases grp@.len() - j,
        {
            assert((groups@[g as int]@[j as int] as int) < bricks@.len());
            ids.push(bricks[grp[j]].id.clone());
            j = j + 1;
        }
        let ghost before = out@;
        out.push(PuzzlePiece { id: piece_id_string(nf + g), brick_ids: ids, x: bx.0, y: bx.1, width: bx.2, height: bx.3 });
        proof {
            assert forall|t: int| 0 <= t < nf implies is_fixed_piece(#[trigger] out@[t], bricks@[fixed@[t] as int], t) by {
                assert(out@[t] == before[t]);
            }
            assert forall|t: int| 0 <= t < g + 1 implies is_group_piece(#[trigger] out@[nf + t], bricks@, groups@[t]@, nf + t) by {
                if t < g {
                    assert(out@[nf + t] == before[nf + t]);
                }
            }
        }
        g = g + 1;
    }
    out
}

// ── piece graph ─────────────────────────────────────────────────────

/// Pieces being merged. Piece `p` is named after brick `p`; it is live
/// while it has not been absorbed. Row `p` of `adj` says which pieces piece
/// `p` is adjacent to.
pub struct PieceGraph {
    pub mergeable: Vec<bool>,
    pub live: Vec<bool>,
    pub piece_of: Vec<usize>,
    pub members: Vec<Vec<usize>>,
    pub adj: Vec<Vec<bool>>,
}

/// Every row of `m` has `n` entries.
pub open spec fn rows_of_len(m: Seq<Vec<bool>>, n: int) -> bool {
    forall|p: int| 0 <= p < m.len() ==> (#[trigger] m[p])@.len() == n
}

/// Sets entry `(p, q)` of a matrix held as rows.
fn set_cell(m: &mut Vec<Vec<bool>>, p: usize, q: usize, v: bool)
    requires
        p < old(m)@.len(),
        q < old(m)@[p as int]@.len(),
    ensures
        final(m)@.len() == old(m)@.len(),
        forall|i: int| 0 <= i < old(m)@.len() ==> (#[trigger] final(m)@[i])@.len() == old(m)@[i]@.len(),
        forall|i: int, j: int|
            0 <= i < old(m)@.len() && 0 <= j < old(m)@[i]@.len() ==> #[trigger] final(m)@[i]@[j] == if i == p
                && j == q {
                v
            } else {
                old(m)@[i]@[j]
            },
{
    m[p].set(q, v);
}

impl PieceGraph {
    pub open spec fn n(&self) -> int {
        self.mergeable@.len() as int
    }

    pub open spec fn adjacent(&self, p: int, q: int) -> bool {
        self.adj@[p]@[q]
    }

    /// Well-formedness: the live pieces partition the mergeable bricks and
    /// the adjacency is a symmetric, loop-free relation over live pieces.
    pub open spec fn wf(&self) -> bool {
        let n = self.n();
        &&& self.live@.len() == n
        &&& self.piece_of@.len() == n
        &&& self.members@.len() == n
        &&& self.adj@.len() == n
        &&& rows_of_len(self.adj@, n)
        &&& forall|p: int| 0 <= p < n && #[trigger] self.live@[p] ==> self.mergeable@[p]
        &&& forall|p: int, q: int|
            0 <= p < n && 0 <= q < n && #[trigger] self.adjacent(p, q) ==> self.live@[p] && self.live@[q]
                && p != q
        &&& forall|p: int, q: int| 0 <= p < n && 0 <= q < n ==> #[trigger] self.adjacent(p, q) == self.adjacent(q, p)
        &&& forall|b: int|
            0 <= b < n && #[trigger] self.mergeable@[b] ==> self.piece_of@[b] < n && self.live@[self.piece_of@[b] as int]
                && self.members@[self.piece_of@[b] as int]@.contains(b as usize)
        &&& forall|p: int, k: int|
            0 <= p < n && 0 <= k < self.members@[p]@.len() ==> (#[trigger] self.members@[p]@[k]) < n
                && self.mergeable@[self.members@[p]@[k] as int] && self.piece_of@[self.members@[p]@[k] as int] == p
        &&& forall|p: int| 0 <= p < n && #[trigger] self.live@[p] ==> self.members@[p]@.len() > 0
        &&& forall|p: int, i: int, j: int|
            0 <= p < n && 0 <= i < j < self.members@[p]@.len() ==> #[trigger] self.members@[p]@[i]
                != #[trigger] self.members@[p]@[j]
    }

    /// Adjacency after piece `a` is absorbed into `keep`: `keep` inherits
    /// `a`'s neighbours, `a` disappears, nothing else changes.
    pub open spec fn merged_adj(&self, keep: int, a: int, p: int, q: int) -> bool {
        p != q && p != a && q != a && (self.adjacent(p, q) || (p == keep && self.adjacent(a, q)) || (
        q == keep && self.adjacent(p, a)))
    }

    /// Initial pieces: each mergeable brick alone; two pieces are adjacent
    /// when either brick lists the other, both are mergeable and distinct.
    pub fn new(mergeable: Vec<bool>, brick_adj: &Vec<Vec<usize>>) -> (g: PieceGraph)
        requires
            brick_adj@.len() == mergeable@.len(),
        ensures
            g.wf(),
            g.mergeable@ == mergeable@,
            g.live@ == mergeable@,
            forall|b: int| 0 <= b < g.n() && #[trigger] mergeable@[b] ==> g.members@[b]@ == seq![b as usize],
            forall|p: int, q: int|
                0 <= p < g.n() && 0 <= q < g.n() ==> #[trigger] g.adjacent(p, q) == (mergeable@[p]
                    && mergeable@[q] && p != q && (brick_adj@[p]@.contains(q as usize)
                    || brick_adj@[q]@.contains(p as usize))),
            g.reflects(brick_adj@),
            forall|p: int| 0 <= p < g.n() && g.live@[p] ==> connected(g.mergeable@, brick_adj@, #[trigger] g.members@[p]@),
    {
        let n = mergeable.len();
        let mut live: Vec<bool> = Vec::new();
        let mut piece_of: Vec<usize> = Vec::new();
        let mut members: Vec<Vec<usize>> = Vec::new();
        let mut i: usize = 0;
        while i < n
            invariant
                n == mergeable@.len(),
                i <= n,
                live@ == mergeable@.take(i as int),
                piece_of@.len() == i,
                members@.len() == i,
                forall|b: int| 0 <= b < i ==> #[trigger] piece_of@[b] == b,
                forall|b: int| 0 <= b < i ==> (#[trigger] members@[b])@ == if mergeable@[b] { seq![b as usize] } else { seq![] },
            decreases n - i,
        {
            live.push(mergeable[i]);
            piece_of.push(i);
            let mut m: Vec<usize> = Vec::new();
            if mergeable[i] {
                m.push(i);
            }
            members.push(m);
            i = i + 1;
            assert(live@ =~= mergeable@.take(i as int));
        }
        assert(mergeable@.take(n as int) =~= mergeable@);
        let mut adj: Vec<Vec<bool>> = Vec::new();
        let mut z: usize = 0;
        while z < n
            invariant
                z <= n,
                adj@.len() == z,
                rows_of_len(adj@, n as int),
                forall|p: int, q: int| 0 <= p < z && 0 <= q < n ==> !#[trigger] adj@[p]@[q],
            decreases n - z,
        {
            let mut row: Vec<bool> = Vec::new();
            let mut c: usize = 0;
            while c < n
                invariant
                    c <= n,
                    row@.len() == c,
                    forall|q: int| 0 <= q < c ==> !#[trigger] row@[q],
                decreases n - c,
            {
                row.push(false);
                c = c + 1;
            }
            adj.push(row);
            z = z + 1;
        }
        let mut b: usize = 0;
        while b < n
            invariant
                n == mergeable@.len(),
                brick_adj@.len() == n,
                adj@.len() == n,
                rows_of_len(adj@, n as int),
                b <= n,
                forall|p: int, q: int|
                    0 <= p < n && 0 <= q < n ==> #[trigger] adj@[p]@[q] == ((p < b
                        && mergeable@[p] && mergeable@[q] && p != q && brick_adj@[p]@.contains(q as usize))
                        || (q < b && mergeable@[p] && mergeable@[q] && p != q && brick_adj@[q]@.contains(
                        p as usize))),
            decreases n - b,
        {
            let row = &brick_adj[b];
            let mut j: usize = 0;
            while j < row.len()
                invariant
                    n == mergeable@.len(),
                    adj@.len() == n,
                    rows_of_len(adj@, n as int),
                    b < n,
                    row@ == brick_adj@[b as int]@,
                    j <= row@.len(),
                    forall|p: int, q: int|
                        0 <= p < n && 0 <= q < n ==> #[trigger] adj@[p]@[q] == ((p < b
                            && mergeable@[p] && mergeable@[q] && p != q && brick_adj@[p]@.contains(
                            q as usize)) || (q < b && mergeable@[p] && mergeable@[q] && p != q
                            && brick_adj@[q]@.contains(p as usize)) || (p == b && mergeable@[p]
                            && mergeable@[q] && p != q && row@.take(j as int).contains(q as usize)) || (q
                            == b && mergeable@[p] && mergeable@[q] && p != q && row@.take(j as int).contains(
                            p as usize))),
                decreases row@.len() - j,
            {
                let nb = row[j];
                let ghost old_adj = adj@;
                let ghost prev = row@.take(j as int);
                let ghost set_it = nb < n && nb != b && mergeable@[b as int] && mergeable@[nb as int];
                if nb < n && nb != b && mergeable[b] && mergeable[nb] {
                    set_cell(&mut adj, b, nb, true);
                    set_cell(&mut adj, nb, b, true);
                }
                j = j + 1;
                proof {
                    let t = row@.take(j as int);
                    assert(t.drop_last() =~= prev);
                    assert(t.last() == nb);
                    assert forall|x: usize| t.contains(x) <==> (prev.contains(x) || x == nb) by {
                        if t.contains(x) {
                            let w = choose|w: int| 0 <= w < t.len() && #[trigger] t[w] == x;
                            if w < j - 1 {
                                assert(prev[w] == x);
                            }
                        }
                        if prev.contains(x) {
                            let w = choose|w: int| 0 <= w < prev.len() && #[trigger] prev[w] == x;
                            assert(t[w] == x);
                        }
                        if x == nb {
                            assert(t[j - 1] == x);
                        }
                    }
                    assert forall|p: int, q: int| 0 <= p < n && 0 <= q < n implies #[trigger] adj@[p]@[q]
                        == ((p < b && mergeable@[p] && mergeable@[q] && p != q && brick_adj@[p]@.contains(
                        q as usize)) || (q < b && mergeable@[p] && mergeable@[q] && p != q
                        && brick_adj@[q]@.contains(p as usize)) || (p == b && mergeable@[p]
                        && mergeable@[q] && p != q && t.contains(q as usize)) || (q == b && mergeable@[p]
                        && mergeable@[q] && p != q && t.contains(p as usize))) by {
                        assert(old_adj[p]@[q] == old_adj[p]@[q]);
                    }
                }
            }
            assert(row@.take(j as int) =~= row@);
            b = b + 1;
        }
        let g = PieceGraph { mergeable, live, piece_of, members, adj };
        proof {
            assert(g.n() == n);
    assert(forall|p: int, k: int| 0 <= p < n && 0 <= k < g.members@[p]@.len() ==> #[trigger] g.members@[p]@[k] < n && g.live@[p]);
    assert forall|p: int| 0 <= p < n && #[trigger] g.live@[p] implies g.members@[p]@.len() > 0 by {}
            assert forall|b: int|
                0 <= b < n && #[trigger] g.mergeable@[b] implies g.piece_of@[b] < n && g.live@[g.piece_of@[b] as int]
                    && g.members@[g.piece_of@[b] as int]@.contains(b as usize) by {
                assert(g.members@[b]@[0] == b as usize);
            }
            assert forall|p: int, q: int|
                0 <= p < n && 0 <= q < n && g.live@[p] && g.live@[q] && p != q implies (#[trigger] g.adjacent(p, q)
                <==> pieces_link(g, brick_adj@, p, q)) by {
                assert(g.members@[p]@ == seq![p as usize]);
                assert(g.members@[q]@ == seq![q as usize]);
                if pieces_link(g, brick_adj@, p, q) {
                    let (i, j) = choose|i: int, j: int|
                        0 <= i < g.members@[p]@.len() && 0 <= j < g.members@[q]@.len() && #[trigger] brick_link(
                            g.mergeable@,
                            brick_adj@,
                            g.members@[p]@[i] as int,
                            g.members@[q]@[j] as int,
                        );
                    assert(i == 0 && j == 0);
                }
                if g.adjacent(p, q) {
                    assert(brick_link(g.mergeable@, brick_adj@, g.members@[p]@[0] as int, g.members@[q]@[0] as int));
                }
            }
            assert forall|p: int| 0 <= p < n && g.live@[p] implies connected(g.mergeable@, brick_adj@, #[trigger] g.members@[p]@) by {
                assert(g.members@[p]@ == seq![p as usize]);
                lemma_single_connected(g.mergeable@, brick_adj@, p as usize);
            }
        }
        g
    }

    /// Absorbs live piece `a` into live piece `keep`: `keep` takes over
    /// `a`'s bricks (appended after its own) and neighbours, and `a` is no
    /// longer live.
    #[verifier::rlimit(80)]
    pub fn absorb(&mut self, keep: usize, a: usize)
        requires
            old(self).wf(),
            keep < old(self).n(),
            a < old(self).n(),
            keep != a,
            old(self).live@[keep as int],
            old(self).live@[a as int],
        ensures
            final(self).wf(),
            final(self).mergeable@ == old(self).mergeable@,
            final(self).live@ == old(self).live@.update(a as int, false),
            final(self).members@[keep as int]@ == old(self).members@[keep as int]@ + old(
                self,
            ).members@[a as int]@,
            final(self).members@[a as int]@ == Seq::<usize>::empty(),
            forall|p: int|
                0 <= p < old(self).n() && p != keep && p != a ==> #[trigger] final(self).members@[p]@
                    == old(self).members@[p]@,
            forall|b: int|
                0 <= b < old(self).n() && #[trigger] old(self).mergeable@[b] ==> final(self).piece_of@[b]
                    == if old(self).piece_of@[b] == a { keep } else { old(self).piece_of@[b] },
            forall|p: int, q: int|
                0 <= p < old(self).n() && 0 <= q < old(self).n() ==> #[trigger] final(self).adjacent(p, q)
                    == old(self).merged_adj(keep as int, a as int, p, q),
    {
        let ghost g0 = *self;
        let n = self.mergeable.len();
        let moved = self.members[a].clone();
        assert(moved@ == g0.members@[a as int]@);
        let mut kl = self.members[keep].clone();
        let mut i: usize = 0;
        while i < moved.len()
            invariant
                i <= moved@.len(),
                kl@ == g0.members@[keep as int]@ + moved@.take(i as int),
            decreases moved@.len() - i,
        {
            kl.push(moved[i]);
            i = i + 1;
            assert(kl@ =~= g0.members@[keep as int]@ + moved@.take(i as int));
        }
        assert(moved@.take(i as int) =~= moved@);
        self.members.set(keep, kl);
        self.members.set(a, Vec::new());
        let mut k: usize = 0;
        while k < moved.len()
            invariant
                n == g0.n(),
                g0.wf(),
                a < n,
                keep < n,
                moved@ == g0.members@[a as int]@,
                self.piece_of@.len() == n,
                self.live@ == g0.live@,
                self.adj@ == g0.adj@,
                self.mergeable@ == g0.mergeable@,
                self.members@.len() == n,
                self.members@[keep as int]@ == g0.members@[keep as int]@ + g0.members@[a as int]@,
                self.members@[a as int]@ == Seq::<usize>::empty(),
                forall|p: int| 0 <= p < n && p != keep && p != a ==> #[trigger] self.members@[p]@ == g0.members@[p]@,
                k <= moved@.len(),
                forall|b: int|
                    0 <= b < n ==> #[trigger] self.piece_of@[b] == if moved@.take(k as int).contains(
                        b as usize,
                    ) {
                        keep
                    } else {
                        g0.piece_of@[b]
                    },
            decreases moved@.len() - k,
        {
            let b = moved[k];
            assert(g0.members@[a as int]@[k as int] < n);
            self.piece_of.set(b, keep);
            k = k + 1;
            proof {
                let t = moved@.take(k as int);
                assert(t.drop_last() =~= moved@.take(k - 1));
                assert forall|x: int| 0 <= x < n implies #[trigger] self.piece_of@[x] == if t.contains(x as usize) {
                    keep
                } else {
                    g0.piece_of@[x]
                } by {
                    if t.contains(x as usize) && x != b as int {
                        let w = choose|w: int| 0 <= w < t.len() && #[trigger] t[w] == x as usize;
                        assert(moved@.take(k - 1)[w] == x as usize);
                    }
                    if moved@.take(k - 1).contains(x as usize) {
                        let w = choose|w: int| 0 <= w < k - 1 && #[trigger] moved@.take(k - 1)[w] == x as usize;
                        assert(t[w] == x as usize);
                    }
                    if x == b as int {
                        assert(t[k - 1] == x as usize);
                    }
                }
            }
        }
        assert(moved@.take(k as int) =~= moved@);
        self.live.set(a, false);
        let mut q: usize = 0;
        while q < n
            invariant
                n == g0.n(),
                g0.wf(),
                a < n,
                keep < n,
                keep != a,
                self.adj@.len() == n,
                rows_of_len(self.adj@, n as int),
                self.mergeable@ == g0.mergeable@,
                self.live@ == g0.live@.update(a as int, false),
                self.piece_of@.len() == n,
                forall|b: int|
                    0 <= b < n ==> #[trigger] self.piece_of@[b] == if g0.members@[a as int]@.contains(b as usize) {
                        keep
                    } else {
                        g0.piece_of@[b]
                    },
                self.members@.len() == n,
                self.members@[keep as int]@ == g0.members@[keep as int]@ + g0.members@[a as int]@,
                self.members@[a as int]@ == Seq::<usize>::empty(),
                forall|p: int| 0 <= p < n && p != keep && p != a ==> #[trigger] self.members@[p]@ == g0.members@[p]@,
                q <= n,
                forall|p: int, r: int|
                    0 <= p < n && 0 <= r < n ==> #[trigger] self.adj@[p]@[r] == if touched(
                        keep as int,
                        a as int,
                        q as int,
                        p,
                        r,
                    ) {
                        g0.merged_adj(keep as int, a as int, p, r)
                    } else {
                        g0.adjacent(p, r)
                    },
            decreases n - q,
        {
            let v = if q == keep || q == a {
                false
            } else {
                proof {
                    assert(!touched(keep as int, a as int, q as int, keep as int, q as int));
                    assert(!touched(keep as int, a as int, q as int, a as int, q as int));
                    assert(self.adj@[keep as int]@[q as int] == g0.adjacent(keep as int, q as int));
                    assert(self.adj@[a as int]@[q as int] == g0.adjacent(a as int, q as int));
                }
                self.adj[keep][q] || self.adj[a][q]
            };
            assert(v == g0.merged_adj(keep as int, a as int, keep as int, q as int));
            assert(v == g0.merged_adj(keep as int, a as int, q as int, keep as int));
            let ghost m0 = self.adj@;
            set_cell(&mut self.adj, keep, q, v);
            set_cell(&mut self.adj, q, keep, v);
            set_cell(&mut self.adj, a, q, false);
            set_cell(&mut self.adj, q, a, false);
            q = q + 1;
            proof {
                assert forall|p: int, r: int| 0 <= p < n && 0 <= r < n implies #[trigger] self.adj@[p]@[r]
                    == if touched(keep as int, a as int, q as int, p, r) {
                    g0.merged_adj(keep as int, a as int, p, r)
                } else {
                    g0.adjacent(p, r)
                } by {
                    assert(m0[p]@[r] == if touched(keep as int, a as int, q - 1, p, r) {
                        g0.merged_adj(keep as int, a as int, p, r)
                    } else {
                        g0.adjacent(p, r)
                    });
                }
            }
        }
        proof {
            assert forall|p: int, r: int| 0 <= p < n && 0 <= r < n implies #[trigger] self.adjacent(p, r)
                == g0.merged_adj(keep as int, a as int, p, r) by {
                assert(self.adj@[p]@[r] == if touched(keep as int, a as int, q as int, p, r) {
                    g0.merged_adj(keep as int, a as int, p, r)
                } else {
                    g0.adjacent(p, r)
                });
                if !((p == keep || p == a) || (r == keep || r == a)) {
                    assert(g0.merged_adj(keep as int, a as int, p, r) == g0.adjacent(p, r));
                }
            }
            reveal(absorb_step);
            assert(absorb_step(g0, *self, keep as int, a as int));
            lemma_absorb_wf(g0, *self, keep as int, a as int);
        }
    }
}

impl PieceGraph {
    /// The live pieces, in ascending order.
    pub fn live_pieces(&self) -> (r: Vec<usize>)
        requires
            self.wf(),
        ensures
            forall|i: int, j: int| 0 <= i < j < r@.len() ==> r@[i] < r@[j],
            forall|i: int| 0 <= i < r@.len() ==> (#[trigger] r@[i]) < self.n() && self.live@[r@[i] as int],
            forall|p: int| 0 <= p < self.n() && #[trigger] self.live@[p] ==> r@.contains(p as usize),
            r@.len() == count_live(self.live@),
    {
        let n = self.live.len();
        let mut r: Vec<usize> = Vec::new();
        let mut p: usize = 0;
        while p < n
            invariant
                n == self.live@.len(),
                p <= n,
                forall|i: int, j: int| 0 <= i < j < r@.len() ==> r@[i] < r@[j],
                forall|i: int| 0 <= i < r@.len() ==> (#[trigger] r@[i]) < p && self.live@[r@[i] as int],
                forall|q: int| 0 <= q < p && #[trigger] self.live@[q] ==> r@.contains(q as usize),
                r@.len() == count_live(self.live@.take(p as int)),
            decreases n - p,
        {
            proof {
                assert(self.live@.take(p + 1).drop_last() =~= self.live@.take(p as int));
            }
            if self.live[p] {
                let ghost r0 = r@;
                r.push(p);
                proof {
                    assert forall|q: int| 0 <= q < p + 1 && #[trigger] self.live@[q] implies r@.contains(q as usize) by {
                        if q == p {
                            assert(r@[r@.len() - 1] == p);
                        } else {
                            let w = choose|w: int| 0 <= w < r0.len() && #[trigger] r0[w] == q as usize;
                            assert(r@[w] == q as usize);
                        }
                    }
                }
            }
            p = p + 1;
        }
        proof {
            assert(self.live@.take(n as int) =~= self.live@);
        }
        r
    }

    /// The neighbours of piece `p`, in ascending order.
    pub fn neighbors(&self, p: usize) -> (r: Vec<usize>)
        requires
            self.wf(),
            p < self.n(),
        ensures
            forall|i: int, j: int| 0 <= i < j < r@.len() ==> r@[i] < r@[j],
            forall|i: int| 0 <= i < r@.len() ==> (#[trigger] r@[i]) < self.n() && self.adjacent(p as int, r@[i] as int),
            forall|q: int| 0 <= q < self.n() && #[trigger] self.adjacent(p as int, q) ==> r@.contains(q as usize),
    {
        let n = self.live.len();
        let mut r: Vec<usize> = Vec::new();
        let mut q: usize = 0;
        while q < n
            invariant
                self.wf(),
                n == self.n(),
                p < n,
                q <= n,
                forall|i: int, j: int| 0 <= i < j < r@.len() ==> r@[i] < r@[j],
                forall|i: int| 0 <= i < r@.len() ==> (#[trigger] r@[i]) < q && self.adjacent(p as int, r@[i] as int),
                forall|x: int| 0 <= x < q && #[trigger] self.adjacent(p as int, x) ==> r@.contains(x as usize),
            decreases n - q,
        {
            if self.adj[p][q] {
                let ghost r0 = r@;
                r.push(q);
                proof {
                    assert forall|x: int| 0 <= x < q + 1 && #[trigger] self.adjacent(p as int, x) implies r@.contains(x as usize) by {
                        if x == q {
                            assert(r@[r@.len() - 1] == q);
                        } else {
                            let w = choose|w: int| 0 <= w < r0.len() && #[trigger] r0[w] == x as usize;
                            assert(r@[w] == x as usize);
                        }
                    }
                }
            }
            q = q + 1;
        }
        r
    }

    /// The bricks of piece `p`, in the order they joined it.
    pub fn piece_members(&self, p: usize) -> (r: Vec<usize>)
        requires
            p < self.members@.len(),
        ensures
            r@ == self.members@[p as int]@,
    {
        self.members[p].clone()
    }
}

/// Number of `true` entries.
pub open spec fn count_live(s: Seq<bool>) -> nat
    decreases s.len(),
{
    if s.len() == 0 {
        0
    } else {
        count_live(s.drop_last()) + if s.last() { 1nat } else { 0nat }
    }
}

proof fn lemma_count_update_false(s: Seq<bool>, a: int)
    requires
        0 <= a < s.len(),
        s[a],
    ensures
        count_live(s.update(a, false)) + 1 == count_live(s),
    decreases s.len(),
{
    let t = s.update(a, false);
    if a == s.len() - 1 {
        assert(t.drop_last() =~= s.drop_last());
    } else {
        assert(t.drop_last() =~= s.drop_last().update(a, false));
        lemma_count_update_false(s.drop_last(), a);
    }
}

/// Each absorb step leaves exactly one live piece fewer, so a merge loop
/// that absorbs while more than its target count of pieces is live stops.
pub proof fn law_absorb_removes_one_piece(g0: PieceGraph, g: PieceGraph, keep: int, a: int)
    requires
        absorb_step(g0, g, keep, a),
    ensures
        count_live(g.live@) + 1 == count_live(g0.live@),
{
    reveal(absorb_step);
    lemma_count_update_false(g0.live@, a);
}

/// Cells of rows and columns `keep` and `a` visited before column `q`.
pub open spec fn touched(keep: int, a: int, q: int, p: int, r: int) -> bool {
    ((p == keep || p == a) && r < q) || ((r == keep || r == a) && p < q)
}

/// `g` is `g0` after piece `a` was absorbed into piece `keep`.
#[verifier::opaque]
pub open spec fn absorb_step(g0: PieceGraph, g: PieceGraph, keep: int, a: int) -> bool {
    &&& g0.wf()
    &&& g0.n() <= usize::MAX
    &&& 0 <= keep < g0.n()
    &&& 0 <= a < g0.n()
    &&& keep != a
    &&& g0.live@[keep]
    &&& g0.live@[a]
    &&& g.mergeable@ == g0.mergeable@
    &&& g.live@ == g0.live@.update(a, false)
    &&& g.members@.len() == g0.n()
    &&& g.members@[keep]@ == g0.members@[keep]@ + g0.members@[a]@
    &&& g.members@[a]@ == Seq::<usize>::empty()
    &&& forall|p: int| 0 <= p < g0.n() && p != keep && p != a ==> #[trigger] g.members@[p]@ == g0.members@[p]@
    &&& g.piece_of@.len() == g0.n()
    &&& forall|b: int|
        0 <= b < g0.n() ==> #[trigger] g.piece_of@[b] == if g0.members@[a]@.contains(b as usize) {
            keep as usize
        } else {
            g0.piece_of@[b]
        }
    &&& g.adj@.len() == g0.n()
    &&& rows_of_len(g.adj@, g0.n())
    &&& forall|p: int, q: int|
        0 <= p < g0.n() && 0 <= q < g0.n() ==> #[trigger] g.adjacent(p, q) == g0.merged_adj(keep, a, p, q)
}

/// A brick belongs to the absorbed piece exactly when its piece is `a`.
proof fn lemma_absorbed_bricks(g0: PieceGraph, a: int)
    requires
        g0.wf(),
        g0.n() <= usize::MAX,
        0 <= a < g0.n(),
    ensures
        forall|b: int|
            0 <= b < g0.n() && #[trigger] g0.mergeable@[b] ==> (g0.members@[a]@.contains(b as usize)
                <==> g0.piece_of@[b] == a),
        forall|b: int|
            0 <= b < g0.n() && #[trigger] g0.members@[a]@.contains(b as usize) ==> g0.piece_of@[b] == a,
{
    let n = g0.n();
    assert forall|b: int| 0 <= b < n && #[trigger] g0.members@[a]@.contains(b as usize) implies g0.piece_of@[b]
        == a by {
        let k = choose|k: int| 0 <= k < g0.members@[a]@.len() && #[trigger] g0.members@[a]@[k] == b as usize;
        assert(g0.piece_of@[g0.members@[a]@[k] as int] == a);
    }
}

proof fn lemma_absorb_adjacency(g0: PieceGraph, g: PieceGraph, keep: int, a: int)
    requires
        absorb_step(g0, g, keep, a),
    ensures
        forall|p: int, q: int|
            0 <= p < g0.n() && 0 <= q < g0.n() && #[trigger] g.adjacent(p, q) ==> g.live@[p] && g.live@[q] && p
                != q,
        forall|p: int, q: int| 0 <= p < g0.n() && 0 <= q < g0.n() ==> #[trigger] g.adjacent(p, q) == g.adjacent(q, p),
        g.n() == g0.n(),
        g.live@.len() == g0.n(),
        g.piece_of@.len() == g0.n(),
        g.members@.len() == g0.n(),
        g.adj@.len() == g0.n(),
        rows_of_len(g.adj@, g0.n()),
        forall|p: int| 0 <= p < g0.n() && #[trigger] g.live@[p] ==> g.mergeable@[p],
{
    reveal(absorb_step);
    let n = g0.n();
    assert forall|p: int, q: int|
        0 <= p < n && 0 <= q < n && #[trigger] g.adjacent(p, q) implies g.live@[p] && g.live@[q] && p != q by {
        if g0.adjacent(p, q) {
        } else if p == keep && g0.adjacent(a, q) {
        } else if q == keep && g0.adjacent(p, a) {
        }
    }
    assert forall|p: int, q: int| 0 <= p < n && 0 <= q < n implies #[trigger] g.adjacent(p, q) == g.adjacent(q, p) by {
        assert(g0.adjacent(p, q) == g0.adjacent(q, p));
        assert(g0.adjacent(a, q) == g0.adjacent(q, a));
        assert(g0.adjacent(p, a) == g0.adjacent(a, p));
    }
}

proof fn lemma_absorb_cover(g0: PieceGraph, g: PieceGraph, keep: int, a: int)
    requires
        absorb_step(g0, g, keep, a),
    ensures
        forall|b: int|
            0 <= b < g0.n() && #[trigger] g.mergeable@[b] ==> g.piece_of@[b] < g0.n() && g.live@[g.piece_of@[b] as int]
                && g.members@[g.piece_of@[b] as int]@.contains(b as usize),
        forall|b: int|
            0 <= b < g0.n() && #[trigger] g0.mergeable@[b] ==> g.piece_of@[b] == if g0.piece_of@[b] == a {
                keep as usize
            } else {
                g0.piece_of@[b]
            },
{
    reveal(absorb_step);
    let n = g0.n();
    lemma_absorbed_bricks(g0, a);
    assert forall|b: int|
        0 <= b < n && #[trigger] g.mergeable@[b] implies g.piece_of@[b] < n && g.live@[g.piece_of@[b] as int]
            && g.members@[g.piece_of@[b] as int]@.contains(b as usize) by {
        let pb = g0.piece_of@[b] as int;
        assert(g0.mergeable@[b]);
        assert(g0.members@[pb]@.contains(b as usize));
        if pb == a {
            assert(g.piece_of@[b] == keep as usize);
            let k = choose|k: int| 0 <= k < g0.members@[a]@.len() && #[trigger] g0.members@[a]@[k] == b as usize;
            let ml = g0.members@[keep]@.len() as int;
            assert(g.members@[keep]@[ml + k] == b as usize);
        } else {
            assert(g.piece_of@[b] == g0.piece_of@[b]);
            if pb == keep {
                let k = choose|k: int| 0 <= k < g0.members@[keep]@.len() && #[trigger] g0.members@[keep]@[k] == b as usize;
                assert(g.members@[keep]@[k] == b as usize);
            } else {
                assert(g.members@[pb]@ == g0.members@[pb]@);
            }
        }
    }
}

#[verifier::spinoff_prover]
#[verifier::rlimit(60)]
proof fn lemma_absorb_members(g0: PieceGraph, g: PieceGraph, keep: int, a: int)
    requires
        absorb_step(g0, g, keep, a),
    ensures
        forall|p: int, k: int|
            0 <= p < g0.n() && 0 <= k < g.members@[p]@.len() ==> (#[trigger] g.members@[p]@[k]) < g0.n()
                && g.mergeable@[g.members@[p]@[k] as int] && g.piece_of@[g.members@[p]@[k] as int] == p,
        forall|p: int| 0 <= p < g0.n() && #[trigger] g.live@[p] ==> g.members@[p]@.len() > 0,
{
    reveal(absorb_step);
    let n = g0.n();
    lemma_absorbed_bricks(g0, a);
    assert forall|p: int, k: int|
        #![trigger g.members@[p]@[k]]
        0 <= p < n && 0 <= k < g.members@[p]@.len() implies g.members@[p]@[k] < n
            && g.mergeable@[g.members@[p]@[k] as int] && g.piece_of@[g.members@[p]@[k] as int] == p by {
        if p == keep {
            let ml = g0.members@[keep]@.len();
            if k < ml {
                let m = g0.members@[keep]@[k];
                assert(g.members@[p]@[k] == m);
                assert(g0.piece_of@[m as int] == keep);
                assert(!g0.members@[a]@.contains(m));
            } else {
                let m = g0.members@[a]@[k - ml];
                assert(g.members@[p]@[k] == m);
                assert(g0.members@[a]@.contains(m));
            }
        } else {
            assert(p != a);
            let m = g0.members@[p]@[k];
            assert(g0.live@[p]);
            assert(g.members@[p]@[k] == m);
            assert(g0.piece_of@[m as int] == p);
            assert(!g0.members@[a]@.contains(m));
        }
    }
    assert forall|p: int| 0 <= p < n && #[trigger] g.live@[p] implies g.members@[p]@.len() > 0 by {
        if p == keep {
            assert(g0.members@[keep]@.len() > 0);
        }
    }
}

proof fn lemma_absorb_distinct(g0: PieceGraph, g: PieceGraph, keep: int, a: int)
    requires
        absorb_step(g0, g, keep, a),
    ensures
        forall|p: int, i: int, j: int|
            0 <= p < g0.n() && 0 <= i < j < g.members@[p]@.len() ==> #[trigger] g.members@[p]@[i]
                != #[trigger] g.members@[p]@[j],
{
    reveal(absorb_step);
    let n = g0.n();
    assert forall|p: int, i: int, j: int|
        0 <= p < n && 0 <= i < j < g.members@[p]@.len() implies #[trigger] g.members@[p]@[i]
            != #[trigger] g.members@[p]@[j] by {
        if p == keep {
            let ml = g0.members@[keep]@.len();
            if i < ml && j >= ml {
                let x = g0.members@[keep]@[i];
                let y = g0.members@[a]@[j - ml];
                assert(g.members@[p]@[i] == x);
                assert(g.members@[p]@[j] == y);
                assert(g0.piece_of@[x as int] == keep);
                assert(g0.piece_of@[y as int] == a);
            } else if i >= ml {
                assert(g.members@[p]@[i] == g0.members@[a]@[i - ml]);
                assert(g.members@[p]@[j] == g0.members@[a]@[j - ml]);
                assert(g0.members@[a]@[i - ml] != g0.members@[a]@[j - ml]);
            } else {
                assert(g.members@[p]@[i] == g0.members@[keep]@[i]);
                assert(g.members@[p]@[j] == g0.members@[keep]@[j]);
            }
        } else if p != a {
            assert(g.members@[p]@ == g0.members@[p]@);
        }
    }
}

/// The state after an absorb step is well formed.
proof fn lemma_absorb_wf(g0: PieceGraph, g: PieceGraph, keep: int, a: int)
    requires
        absorb_step(g0, g, keep, a),
    ensures
        g.wf(),
        forall|b: int|
            0 <= b < g0.n() && #[trigger] g0.mergeable@[b] ==> g.piece_of@[b] == if g0.piece_of@[b] == a {
                keep as usize
            } else {
                g0.piece_of@[b]
            },
{
    lemma_absorb_adjacency(g0, g, keep, a);
    lemma_absorb_cover(g0, g, keep, a);
    lemma_absorb_members(g0, g, keep, a);
    lemma_absorb_distinct(g0, g, keep, a);
}

// ── adjacency and connectivity ──────────────────────────────────────

/// Bricks `b` and `c` touch: both mergeable, distinct, and one lists the
/// other among its neighbours.
pub open spec fn brick_link(mergeable: Seq<bool>, badj: Seq<Vec<usize>>, b: int, c: int) -> bool {
    &&& 0 <= b < mergeable.len()
    &&& 0 <= c < mergeable.len()
    &&& mergeable[b]
    &&& mergeable[c]
    &&& b != c
    &&& (badj[b]@.contains(c as usize) || badj[c]@.contains(b as usize))
}

/// Some brick of piece `p` touches some brick of piece `q`.
pub open spec fn pieces_link(g: PieceGraph, badj: Seq<Vec<usize>>, p: int, q: int) -> bool {
    exists|i: int, j: int|
        0 <= i < g.members@[p]@.len() && 0 <= j < g.members@[q]@.len() && #[trigger] brick_link(
            g.mergeable@,
            badj,
            g.members@[p]@[i] as int,
            g.members@[q]@[j] as int,
        )
}

/// `s` holds some but not all of the bricks in `m`.
pub open spec fn splits(m: Seq<usize>, s: Set<usize>) -> bool {
    &&& exists|i: int| 0 <= i < m.len() && s.contains(#[trigger] m[i])
    &&& exists|j: int| 0 <= j < m.len() && !s.contains(#[trigger] m[j])
}

/// A brick of `m` inside `s` touches a brick of `m` outside it.
pub open spec fn crosses(mergeable: Seq<bool>, badj: Seq<Vec<usize>>, m: Seq<usize>, s: Set<usize>) -> bool {
    exists|i: int, j: int|
        0 <= i < m.len() && 0 <= j < m.len() && s.contains(m[i]) && !s.contains(m[j]) && #[trigger] brick_link(
            mergeable,
            badj,
            m[i] as int,
            m[j] as int,
        )
}

/// The bricks `m` form one connected group: however they are cut in two,
/// some brick on one side touches a brick on the other.
pub open spec fn connected(mergeable: Seq<bool>, badj: Seq<Vec<usize>>, m: Seq<usize>) -> bool {
    forall|s: Set<usize>| #[trigger] splits(m, s) ==> crosses(mergeable, badj, m, s)
}

impl PieceGraph {
    /// Two distinct live pieces are adjacent exactly when a brick of one
    /// touches a brick of the other.
    pub open spec fn reflects(&self, badj: Seq<Vec<usize>>) -> bool {
        forall|p: int, q: int|
            0 <= p < self.n() && 0 <= q < self.n() && self.live@[p] && self.live@[q] && p != q ==> (
            #[trigger] self.adjacent(p, q) <==> pieces_link(*self, badj, p, q))
    }
}

proof fn lemma_single_connected(mergeable: Seq<bool>, badj: Seq<Vec<usize>>, b: usize)
    ensures
        connected(mergeable, badj, seq![b]),
{
    assert forall|s: Set<usize>| #[trigger] splits(seq![b], s) implies crosses(mergeable, badj, seq![b], s) by {
        let i = choose|i: int| 0 <= i < 1 && s.contains(#[trigger] seq![b][i]);
        let j = choose|j: int| 0 <= j < 1 && !s.contains(#[trigger] seq![b][j]);
        assert(i == 0 && j == 0);
    }
}

/// Absorbing a piece keeps piece adjacency faithful to brick adjacency:
/// if two distinct live pieces were adjacent exactly when a brick of one
/// touched a brick of the other, that still holds afterwards.
#[verifier::spinoff_prover]
#[verifier::rlimit(50)]
pub proof fn law_absorb_keeps_adjacency_faithful(
    g0: PieceGraph,
    g: PieceGraph,
    keep: int,
    a: int,
    badj: Seq<Vec<usize>>,
)
    requires
        absorb_step(g0, g, keep, a),
        g0.reflects(badj),
    ensures
        g.reflects(badj),
{
    lemma_absorb_wf(g0, g, keep, a);
    reveal(absorb_step);
    let n = g0.n();
    let mk = g0.members@[keep]@;
    let ma = g0.members@[a]@;
    assert(g.members@[keep]@ == mk + ma);
    assert forall|p: int, q: int|
        0 <= p < g.n() && 0 <= q < g.n() && g.live@[p] && g.live@[q] && p != q implies (#[trigger] g.adjacent(p, q)
        <==> pieces_link(g, badj, p, q)) by {
        assert(p != a && q != a);
        assert(g0.live@[p] && g0.live@[q]);
        if p == keep {
            assert(g0.adjacent(keep, q) <==> pieces_link(g0, badj, keep, q));
            assert(g0.adjacent(a, q) <==> pieces_link(g0, badj, a, q));
            assert(g.members@[q]@ == g0.members@[q]@);
            if pieces_link(g, badj, p, q) {
                let (i, j) = choose|i: int, j: int|
                    0 <= i < g.members@[p]@.len() && 0 <= j < g.members@[q]@.len() && #[trigger] brick_link(
                        g.mergeable@,
                        badj,
                        g.members@[p]@[i] as int,
                        g.members@[q]@[j] as int,
                    );
                if i < mk.len() {
                    assert(g.members@[p]@[i] == mk[i]);
                    assert(pieces_link(g0, badj, keep, q));
                } else {
                    assert(g.members@[p]@[i] == ma[i - mk.len()]);
                    assert(brick_link(g0.mergeable@, badj, g0.members@[a]@[i - mk.len()] as int, g0.members@[q]@[j] as int));
                    assert(pieces_link(g0, badj, a, q));
                }
            }
            if pieces_link(g0, badj, keep, q) {
                let (i, j) = choose|i: int, j: int|
                    0 <= i < mk.len() && 0 <= j < g0.members@[q]@.len() && #[trigger] brick_link(
                        g0.mergeable@,
                        badj,
                        g0.members@[keep]@[i] as int,
                        g0.members@[q]@[j] as int,
                    );
                assert(g.members@[p]@[i] == mk[i]);
                assert(brick_link(g.mergeable@, badj, g.members@[p]@[i] as int, g.members@[q]@[j] as int));
            }
            if pieces_link(g0, badj, a, q) {
                let (i, j) = choose|i: int, j: int|
                    0 <= i < ma.len() && 0 <= j < g0.members@[q]@.len() && #[trigger] brick_link(
                        g0.mergeable@,
                        badj,
                        g0.members@[a]@[i] as int,
                        g0.members@[q]@[j] as int,
                    );
                assert(g.members@[p]@[mk.len() + i] == ma[i]);
                assert(brick_link(g.mergeable@, badj, g.members@[p]@[mk.len() + i] as int, g.members@[q]@[j] as int));
            }
        } else if q == keep {
            assert(g0.adjacent(p, keep) <==> pieces_link(g0, badj, p, keep));
            assert(g0.adjacent(p, a) <==> pieces_link(g0, badj, p, a));
            assert(g.members@[p]@ == g0.members@[p]@);
            if pieces_link(g, badj, p, q) {
                let (i, j) = choose|i: int, j: int|
                    0 <= i < g.members@[p]@.len() && 0 <= j < g.members@[q]@.len() && #[trigger] brick_link(
                        g.mergeable@,
                        badj,
                        g.members@[p]@[i] as int,
                        g.members@[q]@[j] as int,
                    );
                if j < mk.len() {
                    assert(g.members@[q]@[j] == mk[j]);
                    assert(pieces_link(g0, badj, p, keep));
                } else {
                    assert(g.members@[q]@[j] == ma[j - mk.len()]);
                    assert(brick_link(g0.mergeable@, badj, g0.members@[p]@[i] as int, g0.members@[a]@[j - mk.len()] as int));
                    assert(pieces_link(g0, badj, p, a));
                }
            }
            if pieces_link(g0, badj, p, keep) {
                let (i, j) = choose|i: int, j: int|
                    0 <= i < g0.members@[p]@.len() && 0 <= j < mk.len() && #[trigger] brick_link(
                        g0.mergeable@,
                        badj,
                        g0.members@[p]@[i] as int,
                        g0.members@[keep]@[j] as int,
                    );
                assert(g.members@[q]@[j] == mk[j]);
                assert(brick_link(g.mergeable@, badj, g.members@[p]@[i] as int, g.members@[q]@[j] as int));
            }
            if pieces_link(g0, badj, p, a) {
                let (i, j) = choose|i: int, j: int|
                    0 <= i < g0.members@[p]@.len() && 0 <= j < ma.len() && #[trigger] brick_link(
                        g0.mergeable@,
                        badj,
                        g0.members@[p]@[i] as int,
                        g0.members@[a]@[j] as int,
                    );
                assert(g.members@[q]@[mk.len() + j] == ma[j]);
                assert(brick_link(g.mergeable@, badj, g.members@[p]@[i] as int, g.members@[q]@[mk.len() + j] as int));
            }
        } else {
            assert(g0.adjacent(p, q) <==> pieces_link(g0, badj, p, q));
            assert(g.members@[p]@ == g0.members@[p]@);
            assert(g.members@[q]@ == g0.members@[q]@);
        }
    }
}

/// Pieces stay connected: when every live piece is a connected group of
/// bricks and a piece is absorbed into an adjacent one, every live piece
/// is still a connected group of bricks.
pub proof fn law_absorb_keeps_pieces_connected(
    g0: PieceGraph,
    g: PieceGraph,
    keep: int,
    a: int,
    badj: Seq<Vec<usize>>,
)
    requires
        absorb_step(g0, g, keep, a),
        g0.reflects(badj),
        g0.adjacent(keep, a),
        forall|p: int| 0 <= p < g0.n() && g0.live@[p] ==> connected(g0.mergeable@, badj, #[trigger] g0.members@[p]@),
    ensures
        forall|p: int| 0 <= p < g.n() && g.live@[p] ==> connected(g.mergeable@, badj, #[trigger] g.members@[p]@),
{
    lemma_absorb_wf(g0, g, keep, a);
    reveal(absorb_step);
    let mk = g0.members@[keep]@;
    let ma = g0.members@[a]@;
    let m = mk + ma;
    let mg = g0.mergeable@;
    assert(g.members@[keep]@ == m);
    assert(connected(mg, badj, mk));
    assert(connected(mg, badj, ma));
    assert(pieces_link(g0, badj, keep, a));
    let (x, y) = choose|i: int, j: int|
        0 <= i < mk.len() && 0 <= j < ma.len() && #[trigger] brick_link(
            mg,
            badj,
            g0.members@[keep]@[i] as int,
            g0.members@[a]@[j] as int,
        );
    assert forall|s: Set<usize>| #[trigger] splits(m, s) implies crosses(mg, badj, m, s) by {
        if splits(mk, s) {
            assert(crosses(mg, badj, mk, s));
            let (i, j) = choose|i: int, j: int|
                0 <= i < mk.len() && 0 <= j < mk.len() && s.contains(mk[i]) && !s.contains(mk[j])
                    && #[trigger] brick_link(mg, badj, mk[i] as int, mk[j] as int);
            assert(m[i] == mk[i] && m[j] == mk[j]);
            assert(brick_link(mg, badj, m[i] as int, m[j] as int));
        } else if splits(ma, s) {
            assert(crosses(mg, badj, ma, s));
            let (i, j) = choose|i: int, j: int|
                0 <= i < ma.len() && 0 <= j < ma.len() && s.contains(ma[i]) && !s.contains(ma[j])
                    && #[trigger] brick_link(mg, badj, ma[i] as int, ma[j] as int);
            assert(m[mk.len() + i] == ma[i] && m[mk.len() + j] == ma[j]);
            assert(brick_link(mg, badj, m[mk.len() + i] as int, m[mk.len() + j] as int));
        } else {
            let i0 = choose|i: int| 0 <= i < m.len() && s.contains(#[trigger] m[i]);
            let j0 = choose|j: int| 0 <= j < m.len() && !s.contains(#[trigger] m[j]);
            assert(m[x] == mk[x]);
            assert(m[mk.len() + y] == ma[y]);
            let kin = s.contains(mk[x]);
            let ain = s.contains(ma[y]);
            // Each half lies wholly on one side of the cut.
            assert forall|i: int| 0 <= i < mk.len() implies s.contains(#[trigger] mk[i]) == kin by {
                if s.contains(mk[i]) != kin {
                    if kin {
                        assert(!s.contains(mk[i]) && s.contains(mk[x]));
                    } else {
                        assert(s.contains(mk[i]) && !s.contains(mk[x]));
                    }
                    assert(splits(mk, s));
                }
            }
            assert forall|j: int| 0 <= j < ma.len() implies s.contains(#[trigger] ma[j]) == ain by {
                if s.contains(ma[j]) != ain {
                    if ain {
                        assert(!s.contains(ma[j]) && s.contains(ma[y]));
                    } else {
                        assert(s.contains(ma[j]) && !s.contains(ma[y]));
                    }
                    assert(splits(ma, s));
                }
            }
            if i0 < mk.len() {
                assert(m[i0] == mk[i0]);
            } else {
                assert(m[i0] == ma[i0 - mk.len()]);
            }
            if j0 < mk.len() {
                assert(m[j0] == mk[j0]);
            } else {
                assert(m[j0] == ma[j0 - mk.len()]);
            }
            assert(kin != ain);
            if kin {
                assert(brick_link(mg, badj, m[x] as int, m[mk.len() + y] as int));
            } else {
                assert(brick_link(mg, badj, m[mk.len() + y] as int, m[x] as int));
            }
        }
    }
    assert forall|p: int| 0 <= p < g.n() && g.live@[p] implies connected(g.mergeable@, badj, #[trigger] g.members@[p]@) by {
        if p != keep {
            assert(g.members@[p]@ == g0.members@[p]@);
            assert(g0.live@[p]);
        }
    }
}

} // verus!
