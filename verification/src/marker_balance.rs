//! Balance of the marked-content scopes that the page rewrite inserts:
//! every `BDC` it adds is closed by an `EMC` it adds, and no `EMC` comes
//! before the `BDC` it closes.
use vstd::prelude::*;
use crate::ocg::{
    block_is_image, block_ocg, brick_blocks, close_markers, closes_at, edge_at, kind_of, last_edge,
    law_blocks_in_order, open_markers, opens_at, plan, plan_step, rewrite_plan, step_after, step_before,
    BlockEdge, BlockSpan, BrickBlockMap, Emit, OcgProperty, OpKind, PdfOp, RewriteInput, XObjectRef,
};

verus! {

pub open spec fn emit_delta(e: Emit) -> int {
    match e {
        Emit::Begin(_) => 1,
        Emit::End => -1,
        Emit::Op(_) => 0,
    }
}

/// Scopes left open by an emitted sequence: inserted `BDC`s minus `EMC`s.
pub open spec fn marker_depth(out: Seq<Emit>) -> int
    decreases out.len(),
{
    if out.len() == 0 {
        0
    } else {
        marker_depth(out.drop_last()) + emit_delta(out.last())
    }
}

/// No prefix of `out` closes more scopes than it opened.
pub open spec fn never_negative(out: Seq<Emit>) -> bool {
    forall|k: int| 0 <= k <= out.len() ==> 0 <= #[trigger] marker_depth(out.take(k))
}

proof fn lemma_depth_concat(a: Seq<Emit>, b: Seq<Emit>)
    ensures
        marker_depth(a + b) == marker_depth(a) + marker_depth(b),
    decreases b.len(),
{
    if b.len() == 0 {
        assert(a + b =~= a);
    } else {
        lemma_depth_concat(a, b.drop_last());
        assert((a + b).drop_last() =~= a + b.drop_last());
        assert((a + b).last() == b.last());
    }
}

/// `d` times `k` for a step `d` of -1, 0 or 1.
pub open spec fn scaled(d: int, k: int) -> int {
    if d > 0 {
        k
    } else if d < 0 {
        -k
    } else {
        0
    }
}

proof fn lemma_uniform(x: Seq<Emit>, d: int, k: int)
    requires
        0 <= k <= x.len(),
        -1 <= d <= 1,
        forall|i: int| 0 <= i < x.len() ==> emit_delta(#[trigger] x[i]) == d,
    ensures
        marker_depth(x.take(k)) == scaled(d, k),
    decreases k,
{
    if k > 0 {
        lemma_uniform(x, d, k - 1);
        assert(x.take(k).drop_last() =~= x.take(k - 1));
        assert(x.take(k).last() == x[k - 1]);
    } else {
        assert(x.take(k) =~= Seq::<Emit>::empty());
    }
}

/// Appending entries that all open (`d == 1`), all close (`d == -1`) or
/// are all operators (`d == 0`) keeps the sequence from going negative
/// when enough scopes are open.
proof fn lemma_append_uniform(a: Seq<Emit>, x: Seq<Emit>, d: int)
    requires
        never_negative(a),
        -1 <= d <= 1,
        forall|i: int| 0 <= i < x.len() ==> emit_delta(#[trigger] x[i]) == d,
        d < 0 ==> x.len() <= marker_depth(a),
    ensures
        never_negative(a + x),
        marker_depth(a + x) == marker_depth(a) + scaled(d, x.len() as int),
{
    assert(a.take(a.len() as int) =~= a);
    lemma_depth_concat(a, x);
    lemma_uniform(x, d, x.len() as int);
    assert(x.take(x.len() as int) =~= x);
    assert forall|k: int| 0 <= k <= (a + x).len() implies 0 <= #[trigger] marker_depth((a + x).take(k)) by {
        if k <= a.len() {
            assert((a + x).take(k) =~= a.take(k));
        } else {
            let m = k - a.len();
            assert((a + x).take(k) =~= a + x.take(m));
            lemma_depth_concat(a, x.take(m));
            lemma_uniform(x, d, m);
        }
    }
}

// ── which block scopes are open ─────────────────────────────────────

/// Whether block `b`'s own scope is open after the first `n` operators:
/// from its `q` to its straddle `EMC`, and from its straddle `BDC` to its
/// `Q`.
pub open spec fn scope_open(b: BlockSpan, n: int) -> bool {
    match b.straddle_split {
        Some((e, p)) => (b.q_idx < n <= e) || (p < n <= b.end_q_idx),
        None => b.q_idx < n <= b.end_q_idx,
    }
}

/// Scopes that block `i`'s markers open: its own and, when it paints an
/// image, the image scope; none when it has no OCG.
pub open spec fn block_weight(inp: RewriteInput, i: int) -> int {
    if block_ocg(inp.map, i as usize) is Some {
        if block_is_image(inp.blocks, inp.xobjs, i) {
            2
        } else {
            1
        }
    } else {
        0
    }
}

pub open spec fn open_weight(inp: RewriteInput, n: int, i: int) -> int {
    if scope_open(inp.blocks[i], n) {
        block_weight(inp, i)
    } else {
        0
    }
}

/// Block scopes open after the first `n` operators, over the first `k`
/// blocks.
pub open spec fn blocks_depth(inp: RewriteInput, n: int, k: int) -> int
    decreases k,
{
    if k <= 0 {
        0
    } else {
        blocks_depth(inp, n, k - 1) + open_weight(inp, n, k - 1)
    }
}

/// Whether the first `n` operators end strictly inside some block's `q … Q`
/// (past its `q`, not past its `Q`).
pub open spec fn in_block(blocks: Seq<BlockSpan>, n: int) -> bool {
    exists|i: int| 0 <= i < blocks.len() && (#[trigger] blocks[i]).q_idx < n <= blocks[i].end_q_idx
}

/// Blocks laid out as the block walk finds them: each opens at a `q` and
/// closes at a later `Q`, keeps its straddle markers strictly inside, and
/// ends before the next one begins.
pub open spec fn blocks_laid_out(ops: Seq<PdfOp>, blocks: Seq<BlockSpan>) -> bool {
    &&& forall|i: int|
        0 <= i < blocks.len() ==> {
            &&& (#[trigger] blocks[i]).q_idx < blocks[i].end_q_idx < ops.len()
            &&& kind_of(ops[blocks[i].q_idx as int].operator@) == OpKind::Save
            &&& kind_of(ops[blocks[i].end_q_idx as int].operator@) == OpKind::Restore
            &&& blocks[i].straddle_split matches Some((e, p)) ==> blocks[i].q_idx < e < p < blocks[i].end_q_idx
        }
    &&& forall|i: int, j: int|
        0 <= i < j < blocks.len() ==> (#[trigger] blocks[i]).end_q_idx < (#[trigger] blocks[j]).q_idx
}

proof fn lemma_depth_bounds(inp: RewriteInput, n: int, k: int)
    requires
        0 <= k <= inp.blocks.len(),
    ensures
        0 <= blocks_depth(inp, n, k),
        forall|i: int| 0 <= i < k ==> open_weight(inp, n, i) <= #[trigger] blocks_depth(inp, n, k),
    decreases k,
{
    if k > 0 {
        lemma_depth_bounds(inp, n, k - 1);
    }
}

proof fn lemma_depth_none_open(inp: RewriteInput, n: int, k: int)
    requires
        0 <= k <= inp.blocks.len(),
        forall|i: int| 0 <= i < k ==> !scope_open(#[trigger] inp.blocks[i], n),
    ensures
        blocks_depth(inp, n, k) == 0,
    decreases k,
{
    if k > 0 {
        lemma_depth_none_open(inp, n, k - 1);
    }
}

/// Moving past operator `n`, only block `i0` (if any) changes its open
/// scopes.
proof fn lemma_depth_step(inp: RewriteInput, n: int, k: int, i0: int)
    requires
        0 <= k <= inp.blocks.len(),
        forall|i: int| 0 <= i < k && i != i0 ==> #[trigger] open_weight(inp, n + 1, i) == open_weight(inp, n, i),
    ensures
        blocks_depth(inp, n + 1, k) == blocks_depth(inp, n, k) + if 0 <= i0 < k {
            open_weight(inp, n + 1, i0) - open_weight(inp, n, i0)
        } else {
            0
        },
    decreases k,
{
    if k > 0 {
        lemma_depth_step(inp, n, k - 1, i0);
        assert(k - 1 != i0 ==> open_weight(inp, n + 1, k - 1) == open_weight(inp, n, k - 1));
    }
}

proof fn lemma_edge_inside(ops: Seq<PdfOp>, blocks: Seq<BlockSpan>, i: int, e: BlockEdge, idx: int)
    requires
        blocks_laid_out(ops, blocks),
        0 <= i < blocks.len(),
        edge_at(blocks[i], e, idx),
    ensures
        blocks[i].q_idx <= idx <= blocks[i].end_q_idx,
{
    assert(blocks[i].q_idx < blocks[i].end_q_idx);
}

/// At most one block has at most one edge at a given operator.
proof fn lemma_edge_unique(
    ops: Seq<PdfOp>,
    blocks: Seq<BlockSpan>,
    i: int,
    e: BlockEdge,
    j: int,
    f: BlockEdge,
    idx: int,
)
    requires
        blocks_laid_out(ops, blocks),
        0 <= i < blocks.len(),
        0 <= j < blocks.len(),
        edge_at(blocks[i], e, idx),
        edge_at(blocks[j], f, idx),
    ensures
        i == j,
        e == f,
{
    lemma_edge_inside(ops, blocks, i, e, idx);
    lemma_edge_inside(ops, blocks, j, f, idx);
    if i < j {
        assert(blocks[i].end_q_idx < blocks[j].q_idx);
    } else if j < i {
        assert(blocks[j].end_q_idx < blocks[i].q_idx);
    }
    assert(blocks[i].q_idx < blocks[i].end_q_idx);
}

proof fn lemma_last_edge_hit(blocks: Seq<BlockSpan>, e: BlockEdge, idx: int, n: int)
    requires
        0 <= n <= blocks.len(),
    ensures
        last_edge(blocks, e, idx, n) matches Some(j) ==> 0 <= j < n && edge_at(blocks[j], e, idx),
    decreases n,
{
    if n > 0 {
        lemma_last_edge_hit(blocks, e, idx, n - 1);
    }
}

proof fn lemma_last_edge_of(ops: Seq<PdfOp>, blocks: Seq<BlockSpan>, e: BlockEdge, idx: int, i: int, n: int)
    requires
        blocks_laid_out(ops, blocks),
        0 <= i < n <= blocks.len(),
        edge_at(blocks[i], e, idx),
    ensures
        last_edge(blocks, e, idx, n) == Some(i),
    decreases n,
{
    if n - 1 != i {
        if edge_at(blocks[n - 1], e, idx) {
            lemma_edge_unique(ops, blocks, i, e, n - 1, e, idx);
        }
        lemma_last_edge_of(ops, blocks, e, idx, i, n - 1);
    }
}

/// The edge hit at `idx` for edge kind `e`, given the one block `i` and
/// edge `f` found there (if any).
proof fn lemma_last_edge_is(
    ops: Seq<PdfOp>,
    blocks: Seq<BlockSpan>,
    e: BlockEdge,
    idx: int,
    hit: Option<(int, BlockEdge)>,
)
    requires
        blocks_laid_out(ops, blocks),
        hit matches Some((i, f)) ==> 0 <= i < blocks.len() && edge_at(blocks[i], f, idx),
        hit is None ==> forall|j: int, g: BlockEdge| 0 <= j < blocks.len() ==> !#[trigger] edge_at(blocks[j], g, idx),
    ensures
        last_edge(blocks, e, idx, blocks.len() as int) == match hit {
            Some((i, f)) => if f == e { Some(i) } else { None },
            None => None,
        },
{
    let n = blocks.len() as int;
    lemma_last_edge_hit(blocks, e, idx, n);
    match hit {
        Some((i, f)) => {
            if f == e {
                lemma_last_edge_of(ops, blocks, e, idx, i, n);
            } else if let Some(j) = last_edge(blocks, e, idx, n) {
                lemma_edge_unique(ops, blocks, i, f, j, e, idx);
            }
        },
        None => {
            if let Some(j) = last_edge(blocks, e, idx, n) {
                assert(!edge_at(blocks[j], e, idx));
            }
        },
    }
}

proof fn lemma_opens_closes(inp: RewriteInput, hit: Option<int>)
    requires
        hit matches Some(i) ==> 0 <= i < inp.blocks.len(),
    ensures
        forall|k: int| 0 <= k < opens_at(inp, hit).len() ==> emit_delta(#[trigger] opens_at(inp, hit)[k]) == 1,
        forall|k: int| 0 <= k < closes_at(inp, hit).len() ==> emit_delta(#[trigger] closes_at(inp, hit)[k]) == -1,
        opens_at(inp, hit).len() == match hit {
            Some(i) => block_weight(inp, i),
            None => 0,
        },
        closes_at(inp, hit).len() == match hit {
            Some(i) => block_weight(inp, i),
            None => 0,
        },
{
    reveal(opens_at);
    reveal(closes_at);
    if let Some(i) = hit {
        let img = block_is_image(inp.blocks, inp.xobjs, i);
        let om = open_markers(i, img);
        let cm = close_markers(img);
        assert forall|k: int| 0 <= k < om.len() implies emit_delta(#[trigger] om[k]) == 1 by {
            if k == 0 {
                assert(om[0] == Emit::Begin(crate::ocg::Marker::Block(i as usize)));
            } else {
                assert(om[1] == Emit::Begin(crate::ocg::Marker::Image));
            }
        }
        assert forall|k: int| 0 <= k < cm.len() implies emit_delta(#[trigger] cm[k]) == -1 by {
            assert(cm[k] == Emit::End);
        }
    }
}

/// How operator `idx` moves block `i`'s own scope.
proof fn lemma_scope_moves(ops: Seq<PdfOp>, blocks: Seq<BlockSpan>, i: int, idx: int)
    requires
        blocks_laid_out(ops, blocks),
        0 <= i < blocks.len(),
    ensures
        edge_at(blocks[i], BlockEdge::Start, idx) ==> !scope_open(blocks[i], idx) && scope_open(blocks[i], idx + 1),
        edge_at(blocks[i], BlockEdge::SplitBdc, idx) ==> !scope_open(blocks[i], idx) && scope_open(blocks[i], idx + 1),
        edge_at(blocks[i], BlockEdge::SplitEmc, idx) ==> scope_open(blocks[i], idx) && !scope_open(blocks[i], idx + 1),
        edge_at(blocks[i], BlockEdge::Finish, idx) ==> scope_open(blocks[i], idx) && !scope_open(blocks[i], idx + 1),
        (forall|g: BlockEdge| !#[trigger] edge_at(blocks[i], g, idx)) ==> scope_open(blocks[i], idx) == scope_open(
            blocks[i],
            idx + 1,
        ),
{
    let b = blocks[i];
    assert(b.q_idx < b.end_q_idx);
    if forall|g: BlockEdge| !#[trigger] edge_at(blocks[i], g, idx) {
        assert(!edge_at(b, BlockEdge::Start, idx));
        assert(!edge_at(b, BlockEdge::Finish, idx));
        assert(!edge_at(b, BlockEdge::SplitEmc, idx));
        assert(!edge_at(b, BlockEdge::SplitBdc, idx));
    }
}

/// The rewrite state after `n` operators: a block is open exactly when the
/// operators end inside one, the emitted markers never went negative, and
/// the open scopes are the inline scope plus the open block scopes.
pub open spec fn plan_balanced(ops: Seq<PdfOp>, inp: RewriteInput, n: int) -> bool {
    let s = plan(ops, inp, n);
    &&& s.block_open == in_block(inp.blocks, n)
    &&& never_negative(s.out)
    &&& marker_depth(s.out) == (if s.inline_open { 1int } else { 0 }) + blocks_depth(inp, n, inp.blocks.len() as int)
}

#[verifier::rlimit(60)]
#[verifier::spinoff_prover]
proof fn lemma_step_balanced(ops: Seq<PdfOp>, inp: RewriteInput, idx: int)
    requires
        blocks_laid_out(ops, inp.blocks),
        0 <= idx < ops.len(),
        plan_balanced(ops, inp, idx),
    ensures
        plan_balanced(ops, inp, idx + 1),
{
    let blocks = inp.blocks;
    let nb = blocks.len() as int;
    let s = plan(ops, inp, idx);
    let t = plan_step(s, ops, inp, idx);
    assert(plan(ops, inp, idx + 1) == t);
    // The one block edge at `idx`, if any.
    let hit: Option<(int, BlockEdge)> = if exists|j: int, g: BlockEdge| 0 <= j < nb && #[trigger] edge_at(blocks[j], g, idx) {
        let (j, g) = choose|j: int, g: BlockEdge| 0 <= j < nb && #[trigger] edge_at(blocks[j], g, idx);
        Some((j, g))
    } else {
        None
    };
    let hs = last_edge(blocks, BlockEdge::Start, idx, nb);
    let he = last_edge(blocks, BlockEdge::SplitEmc, idx, nb);
    let hb = last_edge(blocks, BlockEdge::SplitBdc, idx, nb);
    let hf = last_edge(blocks, BlockEdge::Finish, idx, nb);
    lemma_last_edge_is(ops, blocks, BlockEdge::Start, idx, hit);
    lemma_last_edge_is(ops, blocks, BlockEdge::SplitEmc, idx, hit);
    lemma_last_edge_is(ops, blocks, BlockEdge::SplitBdc, idx, hit);
    lemma_last_edge_is(ops, blocks, BlockEdge::Finish, idx, hit);
    lemma_opens_closes(inp, hs);
    lemma_opens_closes(inp, he);
    lemma_opens_closes(inp, hb);
    lemma_opens_closes(inp, hf);
    let i0: int = match hit {
        Some((i, _)) => i,
        None => -1,
    };
    // Block scopes: only block `i0` moves.
    assert forall|i: int| 0 <= i < nb && i != i0 implies #[trigger] open_weight(inp, idx + 1, i) == open_weight(
        inp,
        idx,
        i,
    ) by {
        lemma_scope_moves(ops, blocks, i, idx);
        assert forall|g: BlockEdge| !#[trigger] edge_at(blocks[i], g, idx) by {
            if edge_at(blocks[i], g, idx) {
                if let Some((j, f)) = hit {
                    lemma_edge_unique(ops, blocks, i, g, j, f, idx);
                }
            }
        }
    }
    lemma_depth_step(inp, idx, nb, i0);
    lemma_depth_bounds(inp, idx, nb);
    let bd = blocks_depth(inp, idx, nb);
    if let Some((i, f)) = hit {
        lemma_scope_moves(ops, blocks, i, idx);
        lemma_edge_inside(ops, blocks, i, f, idx);
        assert(open_weight(inp, idx, i) <= bd);
    }
    // Whether a block is open moves with the block edges.
    let k = kind_of(ops[idx].operator@);
    let entering = k == OpKind::Save && hs is Some;
    let leaving = k == OpKind::Restore && hf is Some;
    if let Some((i, f)) = hit {
        if f == BlockEdge::Start {
            assert(entering);
            assert(blocks[i].q_idx < idx + 1 <= blocks[i].end_q_idx);
        } else if f == BlockEdge::Finish {
            assert(leaving);
            assert(!entering);
            assert(!in_block(blocks, idx + 1)) by {
                if in_block(blocks, idx + 1) {
                    let j = choose|j: int| 0 <= j < nb && (#[trigger] blocks[j]).q_idx < idx + 1 <= blocks[j].end_q_idx;
                    if j < i {
                        assert(blocks[j].end_q_idx < blocks[i].q_idx);
                    } else if i < j {
                        assert(blocks[i].end_q_idx < blocks[j].q_idx);
                    }
                }
            }
        } else {
            assert(!entering && !leaving);
            assert(in_block(blocks, idx) == in_block(blocks, idx + 1)) by {
                lemma_edge_inside(ops, blocks, i, f, idx);
                assert(blocks[i].q_idx < idx <= blocks[i].end_q_idx) by {
                    assert(blocks[i].q_idx < blocks[i].end_q_idx);
                }
                assert(blocks[i].q_idx < idx + 1 <= blocks[i].end_q_idx);
            }
        }
    } else {
        assert(!entering && !leaving);
        assert(in_block(blocks, idx) == in_block(blocks, idx + 1)) by {
            if in_block(blocks, idx) {
                let j = choose|j: int| 0 <= j < nb && (#[trigger] blocks[j]).q_idx < idx <= blocks[j].end_q_idx;
                assert(!edge_at(blocks[j], BlockEdge::Finish, idx));
            }
            if in_block(blocks, idx + 1) {
                let j = choose|j: int| 0 <= j < nb && (#[trigger] blocks[j]).q_idx < idx + 1 <= blocks[j].end_q_idx;
                assert(!edge_at(blocks[j], BlockEdge::Start, idx));
            }
        }
    }
    // The emitted markers, piece by piece.
    let should = t.inline_open;
    let inl = s.inline_open;
    let pre: Seq<Emit> = if should && !inl {
        seq![Emit::Begin(crate::ocg::Marker::Inline)]
    } else if !should && inl {
        seq![Emit::End]
    } else {
        seq![]
    };
    let os = opens_at(inp, hs);
    let ce = closes_at(inp, he);
    let op: Seq<Emit> = seq![Emit::Op(idx as usize)];
    let ob = opens_at(inp, hb);
    let cf = closes_at(inp, hf);
    assert(step_before(s, ops, inp, idx) == pre + os + ce);
    assert(step_after(ops, inp, idx) == ob + cf);
    assert(t.out =~= s.out + pre + os + ce + op + ob + cf);
    if should && !inl {
        lemma_append_uniform(s.out, pre, 1);
    } else if !should && inl {
        lemma_append_uniform(s.out, pre, -1);
    } else {
        lemma_append_uniform(s.out, pre, 0);
    }
    lemma_append_uniform(s.out + pre, os, 1);
    lemma_append_uniform(s.out + pre + os, ce, -1);
    lemma_append_uniform(s.out + pre + os + ce, op, 0);
    lemma_append_uniform(s.out + pre + os + ce + op, ob, 1);
    lemma_append_uniform(s.out + pre + os + ce + op + ob, cf, -1);
}

proof fn lemma_plan_balanced(ops: Seq<PdfOp>, inp: RewriteInput, n: int)
    requires
        blocks_laid_out(ops, inp.blocks),
        0 <= n <= ops.len(),
    ensures
        plan_balanced(ops, inp, n),
    decreases n,
{
    if n == 0 {
        let s = plan(ops, inp, 0);
        assert(s.out =~= Seq::<Emit>::empty());
        assert forall|k: int| 0 <= k <= s.out.len() implies 0 <= #[trigger] marker_depth(s.out.take(k)) by {
            assert(s.out.take(k) =~= Seq::<Emit>::empty());
        }
        lemma_depth_none_open(inp, 0, inp.blocks.len() as int);
    } else {
        lemma_plan_balanced(ops, inp, n - 1);
        lemma_step_balanced(ops, inp, n - 1);
    }
}

/// The markers the rewrite inserts are balanced: reading the rewritten
/// stream from the start, no inserted `EMC` closes more scopes than the
/// inserted `BDC`s opened, and at the end every inserted scope is closed.
/// This holds whenever the blocks are laid out as the block walk finds
/// them.
pub proof fn law_rewrite_scopes_balanced(ops: Seq<PdfOp>, inp: RewriteInput)
    requires
        blocks_laid_out(ops, inp.blocks),
    ensures
        never_negative(rewrite_plan(ops, inp)),
        marker_depth(rewrite_plan(ops, inp)) == 0,
{
    let n = ops.len() as int;
    lemma_plan_balanced(ops, inp, n);
    let s = plan(ops, inp, n);
    assert forall|i: int| 0 <= i < inp.blocks.len() implies !scope_open(#[trigger] inp.blocks[i], n) by {
        assert(inp.blocks[i].end_q_idx < n);
    }
    lemma_depth_none_open(inp, n, inp.blocks.len() as int);
    let tail: Seq<Emit> = if s.inline_open { seq![Emit::End] } else { seq![] };
    if s.inline_open {
        lemma_append_uniform(s.out, tail, -1);
    } else {
        lemma_append_uniform(s.out, tail, 0);
    }
}

/// Rewriting a page around its own brick blocks, as the block walk finds
/// them, inserts balanced markers.
pub proof fn law_page_rewrite_balanced(
    ops: Seq<PdfOp>,
    props: Seq<OcgProperty>,
    xobjs: Seq<XObjectRef>,
    map: BrickBlockMap,
)
    requires
        ops.len() < usize::MAX,
    ensures
        never_negative(
            rewrite_plan(ops, RewriteInput { blocks: brick_blocks(ops, props, xobjs), xobjs, map, props }),
        ),
        marker_depth(
            rewrite_plan(ops, RewriteInput { blocks: brick_blocks(ops, props, xobjs), xobjs, map, props }),
        ) == 0,
{
    let blocks = brick_blocks(ops, props, xobjs);
    law_blocks_in_order(ops, props, xobjs);
    assert(blocks_laid_out(ops, blocks));
    law_rewrite_scopes_balanced(ops, RewriteInput { blocks, xobjs, map, props });
}

} // verus!
