//! The AI private data: decompression of the embedded PostScript, the
//! `%AI5_BeginLayer` / `%AI5_EndLayer` layer tree, and per-block checks.
use vstd::prelude::*;
use vstd::utf8::valid_utf8;
use crate::text::{
    lines, split_lines, chars_or_empty, text_or_empty, trim, trim_bounds, lossy_string, utf8_lossy,
    law_lines_in_bounds, ranges_in_bounds,
};

verus! {

/// The decompressed AI PostScript. Layer offsets index into `raw`.
pub struct AiPrivateData {
    pub raw: Vec<u8>,
}

impl AiPrivateData {
    /// Lossy UTF-8 text of `raw[begin..end]`.
    pub fn text_slice(&self, begin: usize, end: usize) -> (r: String)
        requires
            begin <= end <= self.raw@.len(),
        ensures
            r@ == utf8_lossy(self.raw@.subrange(begin as int, end as int)),
            valid_utf8(self.raw@.subrange(begin as int, end as int)) ==> r@
                == vstd::utf8::decode_utf8(self.raw@.subrange(begin as int, end as int)),
    {
        let s = slice_range(self.raw.as_slice(), begin, end);
        lossy_string(s.as_slice())
    }
}

/// Copy of `v[begin..end]`.
pub fn slice_range(v: &[u8], begin: usize, end: usize) -> (r: Vec<u8>)
    requires
        begin <= end <= v@.len(),
    ensures
        r@ == v@.subrange(begin as int, end as int),
{
    let mut r: Vec<u8> = Vec::new();
    let mut i = begin;
    while i < end
        invariant
            begin <= i <= end,
            end <= v@.len(),
            r@ == v@.subrange(begin as int, i as int),
        decreases end - i,
    {
        r.push(v[i]);
        i = i + 1;
        assert(r@ =~= v@.subrange(begin as int, i as int));
    }
    r
}

// ── substring search ────────────────────────────────────────────────

pub open spec fn occurs_at(h: Seq<u8>, n: Seq<u8>, p: int) -> bool {
    0 <= p && p + n.len() <= h.len() && h.subrange(p, p + n.len()) == n
}

/// Start offsets of the non-overlapping occurrences of `n` in `h` found
/// scanning left to right from `from`.
pub open spec fn find_all(h: Seq<u8>, n: Seq<u8>, from: int) -> Seq<int>
    decreases h.len() + 1 - from,
{
    if from < 0 || n.len() == 0 || from + n.len() > h.len() {
        seq![]
    } else if occurs_at(h, n, from) {
        seq![from] + find_all(h, n, from + n.len())
    } else {
        find_all(h, n, from + 1)
    }
}

/// `memchr::memmem::find_iter`: every non-overlapping occurrence of
/// `needle` in `hay`, leftmost first, each search resuming after the
/// previous match.
#[verifier::external_body]
fn find_all_occurrences(hay: &[u8], needle: &[u8]) -> (r: Vec<usize>)
    requires
        needle@.len() > 0,
    ensures
        r@.len() == find_all(hay@, needle@, 0).len(),
        forall|k: int| 0 <= k < r@.len() ==> r@[k] as int == #[trigger] find_all(hay@, needle@, 0)[k],
{
    memchr::memmem::find_iter(hay, needle).collect()
}

/// First offset at which `needle` occurs in `hay`, if any.
pub open spec fn first_occurrence(hay: Seq<u8>, needle: Seq<u8>, from: int) -> Option<int>
    decreases hay.len() + 1 - from,
{
    if from < 0 || from + needle.len() > hay.len() {
        None
    } else if occurs_at(hay, needle, from) {
        Some(from)
    } else {
        first_occurrence(hay, needle, from + 1)
    }
}

/// Position of the first occurrence of `needle` (the behaviour of
/// `hay.windows(needle.len()).position(|w| w == needle)`).
pub fn find_first(hay: &[u8], needle: &[u8]) -> (r: Option<usize>)
    requires
        needle@.len() > 0,
    ensures
        r matches Some(p) ==> first_occurrence(hay@, needle@, 0) == Some(p as int),
        r is None ==> first_occurrence(hay@, needle@, 0) is None,
{
    let h = hay.len();
    let m = needle.len();
    if m > h {
        return None;
    }
    let mut p: usize = 0;
    while p <= h - m
        invariant
            m == needle@.len(),
            h == hay@.len(),
            m <= h,
            p <= h - m + 1,
            first_occurrence(hay@, needle@, 0) == first_occurrence(hay@, needle@, p as int),
        decreases h - p,
    {
        let mut j: usize = 0;
        let mut ok = true;
        while j < m
            invariant
                j <= m,
                m == needle@.len(),
                h == hay@.len(),
                p + m <= h,
                ok <==> forall|k: int| 0 <= k < j ==> hay@[p + k] == needle@[k],
            decreases m - j,
        {
            if hay[p + j] != needle[j] {
                ok = false;
            }
            j = j + 1;
        }
        proof {
            if ok {
                assert(hay@.subrange(p as int, p + m) =~= needle@);
            } else {
                let k = choose|k: int| 0 <= k < m && hay@[p + k] != needle@[k];
                assert(hay@.subrange(p as int, p + m)[k] != needle@[k]);
            }
        }
        if ok {
            return Some(p);
        }
        p = p + 1;
    }
    None
}

// ── gradient detection ──────────────────────────────────────────────

pub open spec fn seq_has(s: Seq<char>, c: char) -> bool {
    exists|i: int| 0 <= i < s.len() && s[i] == c
}

/// A line whose trimmed text ends in `Bg` and contains `(`.
pub open spec fn is_gradient_line(text: Seq<char>) -> bool {
    let t = trim(text);
    t.len() >= 2 && t[t.len() - 2] == 'B' && t[t.len() - 1] == 'g' && seq_has(t, '(')
}

pub open spec fn bg_bytes() -> Seq<u8> {
    seq![0x42u8, 0x67u8]
}

/// The block mentions `Bg` and one of its lines is a gradient operator line.
pub open spec fn gradient_block(b: Seq<u8>) -> bool {
    &&& first_occurrence(b, bg_bytes(), 0) is Some
    &&& exists|k: int|
        0 <= k < lines(b).len() && is_gradient_line(
            text_or_empty(b.subrange(#[trigger] lines(b)[k].0, lines(b)[k].1)),
        )
}

fn gradient_line(cs: &Vec<char>) -> (r: bool)
    ensures
        r == is_gradient_line(cs@),
{
    let (lo, hi) = trim_bounds(cs);
    let ghost t = cs@.subrange(lo as int, hi as int);
    if hi - lo < 2 || cs[hi - 2] != 'B' || cs[hi - 1] != 'g' {
        return false;
    }
    let mut i = lo;
    while i < hi
        invariant
            lo <= i <= hi,
            hi <= cs@.len(),
            t == cs@.subrange(lo as int, hi as int),
            t == trim(cs@),
            t.len() >= 2 && t[t.len() - 2] == 'B' && t[t.len() - 1] == 'g',
            forall|k: int| 0 <= k < i - lo ==> t[k] != '(',
        decreases hi - i,
    {
        if cs[i] == '(' {
            assert(t[i - lo] == '(');
            return true;
        }
        i = i + 1;
    }
    false
}

/// True when the block holds a gradient fill: some line, trimmed, ends
/// with the `Bg` operator and contains a `(`.
pub fn has_gradient(block: &[u8]) -> (r: bool)
    ensures
        r == gradient_block(block@),
{
    let bg: [u8; 2] = [0x42u8, 0x67u8];
    assert(bg@ =~= bg_bytes());
    if find_first(block, bg.as_slice()).is_none() {
        return false;
    }
    let ls = split_lines(block);
    proof {
        law_lines_in_bounds(block@, 0, 0);
    }
    let mut k: usize = 0;
    while k < ls.len()
        invariant
            k <= ls@.len(),
            ls@.len() == lines(block@).len(),
            forall|j: int|
                0 <= j < ls@.len() ==> (#[trigger] ls@[j]).0 as int == lines(block@)[j].0
                    && ls@[j].1 as int == lines(block@)[j].1,
            ranges_in_bounds(lines(block@), block@.len() as int),
            first_occurrence(block@, bg_bytes(), 0) is Some,
            forall|j: int|
                0 <= j < k ==> !is_gradient_line(
                    text_or_empty(block@.subrange(#[trigger] lines(block@)[j].0, lines(block@)[j].1)),
                ),
        decreases ls@.len() - k,
    {
        let (s, e) = ls[k];
        assert(0 <= lines(block@)[k as int].0 <= lines(block@)[k as int].1 <= block@.len());
        let line = slice_range(block, s, e);
        let cs = chars_or_empty(line.as_slice());
        if gradient_line(&cs) {
            return true;
        }
        k = k + 1;
    }
    false
}

// ── layer tree ──────────────────────────────────────────────────────

/// A parsed `%AI5_BeginLayer` … `%AI5_EndLayer` block. `begin` is the
/// offset of its begin marker, `end` the offset just past its end marker.
pub struct LayerBlock {
    pub name: String,
    pub begin: usize,
    pub end: usize,
    pub depth: usize,
    pub children: Vec<LayerBlock>,
}

/// Mathematical view of a layer block.
pub struct LayerSpan {
    pub name: Seq<char>,
    pub begin: int,
    pub end: int,
    pub depth: int,
    pub children: Seq<LayerSpan>,
}

pub open spec fn span(b: LayerBlock) -> LayerSpan
    decreases b,
{
    LayerSpan {
        name: b.name@,
        begin: b.begin as int,
        end: b.end as int,
        depth: b.depth as int,
        children: spans(b.children@),
    }
}

pub open spec fn spans(s: Seq<LayerBlock>) -> Seq<LayerSpan>
    decreases s,
{
    if s.len() == 0 {
        seq![]
    } else {
        spans(s.drop_last()).push(span(s.last()))
    }
}

proof fn lemma_spans_push(s: Seq<LayerBlock>, b: LayerBlock)
    ensures
        spans(s.push(b)) == spans(s).push(span(b)),
{
    assert(s.push(b).drop_last() =~= s);
}

proof fn lemma_spans_len(s: Seq<LayerBlock>)
    ensures
        spans(s).len() == s.len(),
    decreases s.len(),
{
    if s.len() > 0 {
        lemma_spans_len(s.drop_last());
    }
}

/// Length of the end marker `%AI5_EndLayer`.
pub const END_MARKER_LEN: usize = 13;

/// Begin (`true`) and end (`false`) marker events in offset order; at equal
/// offsets begins come first.
pub open spec fn merge_events(bs: Seq<int>, es: Seq<int>) -> Seq<(bool, int)>
    decreases bs.len() + es.len(),
{
    if bs.len() == 0 && es.len() == 0 {
        seq![]
    } else if es.len() == 0 || (bs.len() > 0 && bs[0] <= es[0]) {
        seq![(true, bs[0])] + merge_events(bs.drop_first(), es)
    } else {
        seq![(false, es[0])] + merge_events(bs, es.drop_first())
    }
}

/// Tree-building state: open blocks (innermost last), finished top-level
/// blocks, and the number of begin markers seen.
pub struct TreeState {
    pub stack: Seq<LayerSpan>,
    pub roots: Seq<LayerSpan>,
    pub opened: int,
}

/// One marker event: a begin opens a block named after its marker, one
/// deeper than the open blocks; an end closes the innermost open block
/// (its end is just past the marker) and attaches it to its parent, or to
/// the roots when it is outermost; an end with nothing open is ignored.
pub open spec fn tree_step(st: TreeState, ev: (bool, int), names: Seq<Seq<char>>) -> TreeState {
    if ev.0 {
        TreeState {
            stack: st.stack.push(
                LayerSpan {
                    name: names[st.opened],
                    begin: ev.1,
                    end: ev.1,
                    depth: st.stack.len() as int,
                    children: seq![],
                },
            ),
            roots: st.roots,
            opened: st.opened + 1,
        }
    } else if st.stack.len() == 0 {
        st
    } else {
        let top = st.stack.last();
        let closed = LayerSpan {
            name: top.name,
            begin: top.begin,
            end: ev.1 + END_MARKER_LEN,
            depth: top.depth,
            children: top.children,
        };
        let rest = st.stack.drop_last();
        if rest.len() == 0 {
            TreeState { stack: rest, roots: st.roots.push(closed), opened: st.opened }
        } else {
            let parent = rest.last();
            TreeState {
                stack: rest.update(
                    rest.len() - 1,
                    LayerSpan {
                        name: parent.name,
                        begin: parent.begin,
                        end: parent.end,
                        depth: parent.depth,
                        children: parent.children.push(closed),
                    },
                ),
                roots: st.roots,
                opened: st.opened,
            }
        }
    }
}

pub open spec fn tree_from(st: TreeState, evs: Seq<(bool, int)>, names: Seq<Seq<char>>) -> TreeState
    decreases evs.len(),
{
    if evs.len() == 0 {
        st
    } else {
        tree_from(tree_step(st, evs[0], names), evs.drop_first(), names)
    }
}

/// The top-level blocks built from sorted begin/end marker offsets;
/// blocks still open at the end are dropped.
pub open spec fn layer_tree(bs: Seq<int>, es: Seq<int>, names: Seq<Seq<char>>) -> Seq<LayerSpan> {
    tree_from(TreeState { stack: seq![], roots: seq![], opened: 0 }, merge_events(bs, es), names).roots
}

pub open spec fn strictly_increasing(s: Seq<int>) -> bool {
    forall|i: int, j: int| 0 <= i < j < s.len() ==> s[i] < s[j]
}

pub open spec fn usize_seq(s: Seq<usize>) -> Seq<int> {
    Seq::new(s.len(), |i: int| s[i] as int)
}

/// Builds the layer tree from the begin-marker offsets, the end-marker
/// offsets (both increasing) and the name of each begin marker.
pub fn layer_tree_from_markers(begins: &Vec<usize>, ends: &Vec<usize>, names: &Vec<String>) -> (r:
    Vec<LayerBlock>)
    requires
        strictly_increasing(usize_seq(begins@)),
        strictly_increasing(usize_seq(ends@)),
        names@.len() == begins@.len(),
        forall|k: int| 0 <= k < ends@.len() ==> #[trigger] ends@[k] + END_MARKER_LEN <= usize::MAX,
    ensures
        spans(r@) == layer_tree(
            usize_seq(begins@),
            usize_seq(ends@),
            Seq::new(names@.len(), |k: int| names@[k]@),
        ),
{
    let ghost bs = usize_seq(begins@);
    let ghost es = usize_seq(ends@);
    let ghost nm = Seq::new(names@.len(), |k: int| names@[k]@);
    let mut stack: Vec<LayerBlock> = Vec::new();
    let mut roots: Vec<LayerBlock> = Vec::new();
    let mut bi: usize = 0;
    let mut ei: usize = 0;
    let ghost mut st = TreeState { stack: seq![], roots: seq![], opened: 0 };
    assert(bs.skip(0) =~= bs);
    assert(es.skip(0) =~= es);
    while bi < begins.len() || ei < ends.len()
        invariant
            bi <= begins@.len(),
            ei <= ends@.len(),
            bs == usize_seq(begins@),
            es == usize_seq(ends@),
            nm == Seq::new(names@.len(), |k: int| names@[k]@),
            names@.len() == begins@.len(),
            forall|k: int| 0 <= k < ends@.len() ==> #[trigger] ends@[k] + END_MARKER_LEN <= usize::MAX,
            st.opened == bi,
            spans(stack@) == st.stack,
            spans(roots@) == st.roots,
            tree_from(st, merge_events(bs.skip(bi as int), es.skip(ei as int)), nm) == tree_from(
                TreeState { stack: seq![], roots: seq![], opened: 0 },
                merge_events(bs, es),
                nm,
            ),
        decreases begins@.len() + ends@.len() - bi - ei,
    {
        let take_begin = ei >= ends.len() || (bi < begins.len() && begins[bi] <= ends[ei]);
        let ghost rem_b = bs.skip(bi as int);
        let ghost rem_e = es.skip(ei as int);
        if take_begin {
            let pos = begins[bi];
            assert(rem_b[0] == pos as int);
            assert(rem_b.drop_first() =~= bs.skip(bi + 1));
            let ghost ev = (true, pos as int);
            assert(merge_events(rem_b, rem_e) == seq![ev] + merge_events(bs.skip(bi + 1), rem_e));
            assert((seq![ev] + merge_events(bs.skip(bi + 1), rem_e)).drop_first() =~= merge_events(
                bs.skip(bi + 1),
                rem_e,
            ));
            let ghost st2 = tree_step(st, ev, nm);
            proof {
                lemma_spans_len(stack@);
            }
            let depth = stack.len();
            let name = names[bi].clone();
            let block = LayerBlock { name, begin: pos, end: pos, depth, children: Vec::new() };
            proof {
                lemma_spans_push(stack@, block);
                assert(span(block).children =~= seq![]);
                assert(span(block) == LayerSpan {
                    name: nm[st.opened],
                    begin: pos as int,
                    end: pos as int,
                    depth: st.stack.len() as int,
                    children: seq![],
                });
            }
            stack.push(block);
            bi = bi + 1;
            proof {
                st = st2;
            }
        } else {
            let pos = ends[ei];
            assert(rem_e[0] == pos as int);
            assert(rem_e.drop_first() =~= es.skip(ei + 1));
            let ghost ev = (false, pos as int);
            assert(merge_events(rem_b, rem_e) == seq![ev] + merge_events(rem_b, es.skip(ei + 1)));
            assert((seq![ev] + merge_events(rem_b, es.skip(ei + 1))).drop_first() =~= merge_events(
                rem_b,
                es.skip(ei + 1),
            ));
            let ghost st2 = tree_step(st, ev, nm);
            proof {
                lemma_spans_len(stack@);
            }
            let ghost old_stack = stack@;
            match stack.pop() {
                None => {},
                Some(mut block) => {
                    proof {
                        assert(old_stack == stack@.push(block));
                        lemma_spans_push(stack@, block);
                        lemma_spans_len(stack@);
                    }
                    block.end = pos + END_MARKER_LEN;
                    let ghost mid_stack = stack@;
                    match stack.pop() {
                        None => {
                            proof {
                                lemma_spans_push(roots@, block);
                            }
                            roots.push(block);
                        },
                        Some(mut parent) => {
                            proof {
                                assert(mid_stack == stack@.push(parent));
                                lemma_spans_push(stack@, parent);
                                lemma_spans_push(parent.children@, block);
                            }
                            parent.children.push(block);
                            proof {
                                lemma_spans_push(stack@, parent);
                                assert(spans(stack@.push(parent)) =~= st2.stack);
                            }
                            stack.push(parent);
                        },
                    }
                },
            }
            ei = ei + 1;
            proof {
                st = st2;
            }
        }
    }
    proof {
        assert(bs.skip(bi as int) =~= seq![]);
        assert(es.skip(ei as int) =~= seq![]);
    }
    roots
}

/// The end of the run of CR and LF bytes starting at `i`.
pub open spec fn line_break_run_end(s: Seq<u8>, i: int) -> int
    decreases s.len() - i,
{
    if 0 <= i < s.len() && (s[i] == 0x0du8 || s[i] == 0x0au8) {
        line_break_run_end(s, i + 1)
    } else {
        i
    }
}

/// The first `)` at or after `i`.
pub open spec fn first_close_paren(s: Seq<u8>, i: int) -> Option<int>
    decreases s.len() - i,
{
    if i < 0 || i >= s.len() {
        None
    } else if s[i] == 0x29u8 {
        Some(i)
    } else {
        first_close_paren(s, i + 1)
    }
}

/// The layer-name pattern `Lb[\r\n]+\(([^)]*)\)` matched at `p`: `Lb`,
/// one or more CR/LF, `(`, then everything up to the first `)`, which in
/// the pattern's Unicode mode must be valid UTF-8. Yields group 1.
pub open spec fn layer_name_match_at(s: Seq<u8>, p: int) -> Option<Seq<u8>> {
    if 0 <= p && p + 2 <= s.len() && s[p] == 0x4cu8 && s[p + 1] == 0x62u8 {
        let q = line_break_run_end(s, p + 2);
        if q > p + 2 && q < s.len() && s[q] == 0x28u8 {
            match first_close_paren(s, q + 1) {
                Some(c) => if valid_utf8(s.subrange(q + 1, c)) {
                    Some(s.subrange(q + 1, c))
                } else {
                    None
                },
                None => None,
            }
        } else {
            None
        }
    } else {
        None
    }
}

/// The leftmost match of the layer-name pattern at or after `p`.
pub open spec fn layer_name_match_from(s: Seq<u8>, p: int) -> Option<Seq<u8>>
    decreases s.len() - p,
{
    if p < 0 || p >= s.len() {
        None
    } else {
        match layer_name_match_at(s, p) {
            Some(x) => Some(x),
            None => layer_name_match_from(s, p + 1),
        }
    }
}

/// What the pattern `Lb[\r\n]+\(([^)]*)\)` captures (group 1) at its
/// leftmost match in a byte string, if it matches.
pub open spec fn layer_name_capture(snippet: Seq<u8>) -> Option<Seq<u8>> {
    layer_name_match_from(snippet, 0)
}

/// `regex::bytes::Regex::captures` with the layer-name pattern: group 1 of
/// the leftmost match (see `layer_name_capture`).
#[verifier::external_body]
fn capture_layer_name(snippet: &[u8]) -> (r: Option<Vec<u8>>)
    ensures
        match r {
            Some(v) => layer_name_capture(snippet@) == Some(v@),
            None => layer_name_capture(snippet@) is None,
        },
{
    let re = regex::bytes::Regex::new(r"Lb[\r\n]+\(([^)]*)\)").expect("static regex pattern is valid");
    re.captures(snippet).map(|c| c[1].to_vec())
}

/// Bytes scanned after a begin marker for its layer name.
pub const NAME_WINDOW: usize = 300;

/// Name of the layer whose begin marker sits at `pos`: the lossy text of
/// the captured name in the following 300 bytes, or empty.
pub open spec fn layer_name_at(data: Seq<u8>, pos: int) -> Seq<char> {
    let end = if pos + NAME_WINDOW < data.len() { pos + NAME_WINDOW } else { data.len() as int };
    match layer_name_capture(data.subrange(pos, end)) {
        Some(b) => utf8_lossy(b),
        None => seq![],
    }
}

pub open spec fn begin_marker() -> Seq<u8> {
    seq![0x25u8, 0x41u8, 0x49u8, 0x35u8, 0x5fu8, 0x42u8, 0x65u8, 0x67u8, 0x69u8, 0x6eu8, 0x4cu8, 0x61u8, 0x79u8, 0x65u8, 0x72u8]
}

pub open spec fn end_marker() -> Seq<u8> {
    seq![0x25u8, 0x41u8, 0x49u8, 0x35u8, 0x5fu8, 0x45u8, 0x6eu8, 0x64u8, 0x4cu8, 0x61u8, 0x79u8, 0x65u8, 0x72u8]
}

/// Offsets found by `find_all` increase strictly, start at or after
/// `from`, and leave room for the needle.
pub proof fn law_find_all_sorted(h: Seq<u8>, n: Seq<u8>, from: int)
    requires
        0 <= from,
    ensures
        strictly_increasing(find_all(h, n, from)),
        forall|k: int|
            0 <= k < find_all(h, n, from).len() ==> from <= #[trigger] find_all(h, n, from)[k]
                && find_all(h, n, from)[k] + n.len() <= h.len() && occurs_at(h, n, find_all(h, n, from)[k]),
    decreases h.len() + 1 - from,
{
    if from < 0 || n.len() == 0 || from + n.len() > h.len() {
    } else if occurs_at(h, n, from) {
        law_find_all_sorted(h, n, from + n.len());
        let rest = find_all(h, n, from + n.len());
        assert(find_all(h, n, from) == seq![from] + rest);
        assert forall|k: int| 0 <= k < (seq![from] + rest).len() implies from <= #[trigger] (seq![from]
            + rest)[k] && (seq![from] + rest)[k] + n.len() <= h.len() && occurs_at(h, n, (seq![from] + rest)[k]) by {
            if k > 0 {
                assert((seq![from] + rest)[k] == rest[k - 1]);
            }
        }
        assert forall|i: int, j: int| 0 <= i < j < (seq![from] + rest).len() implies (seq![from]
            + rest)[i] < (seq![from] + rest)[j] by {
            assert((seq![from] + rest)[j] == rest[j - 1]);
            if i > 0 {
                assert((seq![from] + rest)[i] == rest[i - 1]);
            }
        }
    } else {
        law_find_all_sorted(h, n, from + 1);
    }
}

/// Parses the `%AI5_BeginLayer` / `%AI5_EndLayer` pairs of `data` into a
/// nested tree of layer blocks (offsets are byte positions in `data`).
pub fn parse_layer_tree(data: &[u8]) -> (r: Vec<LayerBlock>)
    ensures
        spans(r@) == layer_tree(
            find_all(data@, begin_marker(), 0),
            find_all(data@, end_marker(), 0),
            Seq::new(
                find_all(data@, begin_marker(), 0).len(),
                |k: int| layer_name_at(data@, find_all(data@, begin_marker(), 0)[k]),
            ),
        ),
{
    let bm: [u8; 15] = [0x25u8, 0x41u8, 0x49u8, 0x35u8, 0x5fu8, 0x42u8, 0x65u8, 0x67u8, 0x69u8, 0x6eu8, 0x4cu8, 0x61u8, 0x79u8, 0x65u8, 0x72u8];
    let em: [u8; 13] = [0x25u8, 0x41u8, 0x49u8, 0x35u8, 0x5fu8, 0x45u8, 0x6eu8, 0x64u8, 0x4cu8, 0x61u8, 0x79u8, 0x65u8, 0x72u8];
    assert(bm@ =~= begin_marker());
    assert(em@ =~= end_marker());
    let begins = find_all_occurrences(data, bm.as_slice());
    let ends = find_all_occurrences(data, em.as_slice());
    let ghost fb = find_all(data@, begin_marker(), 0);
    let ghost fe = find_all(data@, end_marker(), 0);
    proof {
        law_find_all_sorted(data@, begin_marker(), 0);
        law_find_all_sorted(data@, end_marker(), 0);
        assert(usize_seq(begins@) =~= fb);
        assert(usize_seq(ends@) =~= fe);
    }
    let n = data.len();
    let mut names: Vec<String> = Vec::new();
    let mut k: usize = 0;
    while k < begins.len()
        invariant
            k <= begins@.len(),
            n == data@.len(),
            fb == find_all(data@, begin_marker(), 0),
            usize_seq(begins@) == fb,
            forall|j: int| 0 <= j < fb.len() ==> #[trigger] fb[j] + 15 <= data@.len(),
            names@.len() == k,
            forall|j: int| 0 <= j < k ==> #[trigger] names@[j]@ == layer_name_at(data@, fb[j]),
        decreases begins@.len() - k,
    {
        let pos = begins[k];
        assert(pos as int == fb[k as int]);
        let end = if n >= NAME_WINDOW && pos < n - NAME_WINDOW { pos + NAME_WINDOW } else { n };
        let snippet = slice_range(data, pos, end);
        let name = match capture_layer_name(snippet.as_slice()) {
            Some(b) => lossy_string(b.as_slice()),
            None => String::new(),
        };
        names.push(name);
        k = k + 1;
    }
    proof {
        assert forall|j: int| 0 <= j < ends@.len() implies #[trigger] ends@[j] + END_MARKER_LEN <= usize::MAX by {
            assert(ends@[j] as int == fe[j]);
        }
        assert(Seq::new(names@.len(), |j: int| names@[j]@) =~= Seq::new(
            fb.len(),
            |j: int| layer_name_at(data@, fb[j]),
        ));
    }
    layer_tree_from_markers(&begins, &ends, &names)
}

/// A closed layer block at nesting level `d`: its depth is `d`, it ends
/// after it begins, and each child lies within it at level `d + 1`.
pub open spec fn nested_at(s: LayerSpan, d: int) -> bool
    decreases s,
{
    &&& s.depth == d
    &&& s.begin < s.end
    &&& forall|i: int|
        0 <= i < s.children.len() ==> {
            &&& s.begin <= #[trigger] s.children[i].begin
            &&& s.children[i].end <= s.end
            &&& nested_at(s.children[i], d + 1)
        }
}

/// Marker events whose offsets never decrease.
pub open spec fn events_ordered(evs: Seq<(bool, int)>) -> bool {
    forall|i: int, j: int| 0 <= i < j < evs.len() ==> evs[i].1 <= evs[j].1
}

/// An open block at stack index `i` when the last event was at `last`.
spec fn open_ok(s: LayerSpan, i: int, last: int) -> bool {
    &&& s.depth == i
    &&& s.begin <= last
    &&& forall|c: int|
        0 <= c < s.children.len() ==> {
            &&& s.begin <= #[trigger] s.children[c].begin
            &&& s.children[c].end <= last + END_MARKER_LEN
            &&& nested_at(s.children[c], i + 1)
        }
}

spec fn stack_ok(st: TreeState, last: int) -> bool {
    &&& forall|i: int| 0 <= i < st.stack.len() ==> open_ok(#[trigger] st.stack[i], i, last)
    &&& forall|i: int, j: int| 0 <= i < j < st.stack.len() ==> st.stack[i].begin <= st.stack[j].begin
    &&& forall|k: int| 0 <= k < st.roots.len() ==> nested_at(#[trigger] st.roots[k], 0)
}

proof fn lemma_merge_lower(bs: Seq<int>, es: Seq<int>, lo: int)
    requires
        forall|i: int| 0 <= i < bs.len() ==> lo <= #[trigger] bs[i],
        forall|i: int| 0 <= i < es.len() ==> lo <= #[trigger] es[i],
    ensures
        forall|k: int| 0 <= k < merge_events(bs, es).len() ==> lo <= #[trigger] merge_events(bs, es)[k].1,
    decreases bs.len() + es.len(),
{
    if bs.len() == 0 && es.len() == 0 {
    } else if es.len() == 0 || (bs.len() > 0 && bs[0] <= es[0]) {
        let rest = merge_events(bs.drop_first(), es);
        lemma_merge_lower(bs.drop_first(), es, lo);
        assert forall|k: int| 0 <= k < merge_events(bs, es).len() implies lo <= #[trigger] merge_events(
            bs,
            es,
        )[k].1 by {
            if k > 0 {
                assert(merge_events(bs, es)[k] == rest[k - 1]);
            }
        }
    } else {
        let rest = merge_events(bs, es.drop_first());
        lemma_merge_lower(bs, es.drop_first(), lo);
        assert forall|k: int| 0 <= k < merge_events(bs, es).len() implies lo <= #[trigger] merge_events(
            bs,
            es,
        )[k].1 by {
            if k > 0 {
                assert(merge_events(bs, es)[k] == rest[k - 1]);
            }
        }
    }
}

proof fn lemma_merge_ordered(bs: Seq<int>, es: Seq<int>)
    requires
        strictly_increasing(bs),
        strictly_increasing(es),
    ensures
        events_ordered(merge_events(bs, es)),
    decreases bs.len() + es.len(),
{
    if bs.len() == 0 && es.len() == 0 {
    } else if es.len() == 0 || (bs.len() > 0 && bs[0] <= es[0]) {
        let x = bs[0];
        let rest = merge_events(bs.drop_first(), es);
        lemma_merge_ordered(bs.drop_first(), es);
        assert forall|i: int| 0 <= i < es.len() implies x <= #[trigger] es[i] by {
            if i > 0 {
                assert(es[0] < es[i]);
            }
        }
        lemma_merge_lower(bs.drop_first(), es, x);
        assert forall|i: int, j: int| 0 <= i < j < merge_events(bs, es).len() implies merge_events(
            bs,
            es,
        )[i].1 <= merge_events(bs, es)[j].1 by {
            assert(merge_events(bs, es)[j] == rest[j - 1]);
            if i > 0 {
                assert(merge_events(bs, es)[i] == rest[i - 1]);
            }
        }
    } else {
        let x = es[0];
        let rest = merge_events(bs, es.drop_first());
        lemma_merge_ordered(bs, es.drop_first());
        assert forall|i: int| 0 <= i < bs.len() implies x <= #[trigger] bs[i] by {
            if i > 0 {
                assert(bs[0] < bs[i]);
            }
        }
        lemma_merge_lower(bs, es.drop_first(), x);
        assert forall|i: int, j: int| 0 <= i < j < merge_events(bs, es).len() implies merge_events(
            bs,
            es,
        )[i].1 <= merge_events(bs, es)[j].1 by {
            assert(merge_events(bs, es)[j] == rest[j - 1]);
            if i > 0 {
                assert(merge_events(bs, es)[i] == rest[i - 1]);
            }
        }
    }
}

proof fn lemma_step_ok(st: TreeState, ev: (bool, int), names: Seq<Seq<char>>, last: int)
    requires
        stack_ok(st, last),
        last <= ev.1,
    ensures
        stack_ok(tree_step(st, ev, names), ev.1),
{
    let nx = tree_step(st, ev, names);
    let p = ev.1;
    if ev.0 {
        assert forall|i: int| 0 <= i < nx.stack.len() implies open_ok(#[trigger] nx.stack[i], i, p) by {
            if i < st.stack.len() {
                assert(nx.stack[i] == st.stack[i]);
                assert(open_ok(st.stack[i], i, last));
            }
        }
        assert forall|i: int, j: int| 0 <= i < j < nx.stack.len() implies nx.stack[i].begin
            <= nx.stack[j].begin by {
            assert(open_ok(st.stack[i], i, last));
        }
    } else if st.stack.len() == 0 {
    } else {
        let n = st.stack.len() - 1;
        let top = st.stack.last();
        assert(open_ok(st.stack[n], n, last));
        let closed = LayerSpan {
            name: top.name,
            begin: top.begin,
            end: p + END_MARKER_LEN,
            depth: top.depth,
            children: top.children,
        };
        assert(nested_at(closed, n));
        let rest = st.stack.drop_last();
        if rest.len() == 0 {
            assert forall|k: int| 0 <= k < nx.roots.len() implies nested_at(#[trigger] nx.roots[k], 0) by {
                if k < st.roots.len() {
                    assert(nx.roots[k] == st.roots[k]);
                }
            }
        } else {
            let parent = rest.last();
            assert(open_ok(st.stack[n - 1], n - 1, last));
            assert(st.stack[n - 1].begin <= st.stack[n].begin);
            let np = LayerSpan {
                name: parent.name,
                begin: parent.begin,
                end: parent.end,
                depth: parent.depth,
                children: parent.children.push(closed),
            };
            assert(open_ok(np, n - 1, p)) by {
                assert forall|c: int| 0 <= c < np.children.len() implies {
                    &&& np.begin <= #[trigger] np.children[c].begin
                    &&& np.children[c].end <= p + END_MARKER_LEN
                    &&& nested_at(np.children[c], n - 1 + 1)
                } by {
                    if c < parent.children.len() {
                        assert(np.children[c] == parent.children[c]);
                    }
                }
            }
            assert(nx.stack == rest.update(rest.len() - 1, np));
            assert forall|i: int| 0 <= i < nx.stack.len() implies open_ok(#[trigger] nx.stack[i], i, p) by {
                if i < n - 1 {
                    assert(nx.stack[i] == st.stack[i]);
                    assert(open_ok(st.stack[i], i, last));
                }
            }
            assert forall|i: int, j: int| 0 <= i < j < nx.stack.len() implies nx.stack[i].begin
                <= nx.stack[j].begin by {
                assert(st.stack[i].begin <= st.stack[j].begin);
            }
        }
    }
}

proof fn lemma_tree_from_ok(st: TreeState, evs: Seq<(bool, int)>, names: Seq<Seq<char>>, last: int)
    requires
        stack_ok(st, last),
        events_ordered(evs),
        forall|k: int| 0 <= k < evs.len() ==> last <= #[trigger] evs[k].1,
    ensures
        forall|k: int|
            0 <= k < tree_from(st, evs, names).roots.len() ==> nested_at(
                #[trigger] tree_from(st, evs, names).roots[k],
                0,
            ),
    decreases evs.len(),
{
    if evs.len() > 0 {
        lemma_step_ok(st, evs[0], names, last);
        let tail = evs.drop_first();
        assert forall|k: int| 0 <= k < tail.len() implies evs[0].1 <= #[trigger] tail[k].1 by {
            assert(tail[k] == evs[k + 1]);
        }
        assert forall|i: int, j: int| 0 <= i < j < tail.len() implies tail[i].1 <= tail[j].1 by {
            assert(tail[i] == evs[i + 1]);
            assert(tail[j] == evs[j + 1]);
        }
        lemma_tree_from_ok(tree_step(st, evs[0], names), tail, names, evs[0].1);
        assert(tree_from(st, evs, names) == tree_from(tree_step(st, evs[0], names), tail, names));
    } else {
        assert(tree_from(st, evs, names) == st);
    }
}

/// The layer tree is properly nested: every top-level block sits at depth
/// 0, each block ends after it begins, and each child block lies within
/// its parent, one level deeper. This holds for any increasing begin and
/// end marker offsets, so for every result of `parse_layer_tree`.
pub proof fn law_layer_tree_nested(bs: Seq<int>, es: Seq<int>, names: Seq<Seq<char>>)
    requires
        strictly_increasing(bs),
        strictly_increasing(es),
    ensures
        forall|k: int|
            0 <= k < layer_tree(bs, es, names).len() ==> nested_at(#[trigger] layer_tree(bs, es, names)[k], 0),
{
    lemma_merge_ordered(bs, es);
    let evs = merge_events(bs, es);
    let st0 = TreeState { stack: seq![], roots: seq![], opened: 0 };
    let lo = if evs.len() > 0 { evs[0].1 } else { 0 };
    assert forall|k: int| 0 <= k < evs.len() implies lo <= #[trigger] evs[k].1 by {
        if k > 0 {
            assert(evs[0].1 <= evs[k].1);
        }
    }
    lemma_tree_from_ok(st0, evs, names, lo);
}

// ── decompression ───────────────────────────────────────────────────

/// Why the AI private data could not be recovered.
#[derive(Debug, PartialEq, Eq)]
pub enum AiDataError {
    /// The document has no `AIPrivateData` streams.
    NoPrivateData,
    /// The streams that could be read hold no bytes.
    EmptyStreams,
    /// No Zstandard frame magic in the concatenated streams.
    MagicNotFound,
    /// The Zstandard frame did not decode.
    DecompressFailed,
}

/// What `zstd::decode_all` yields for a byte string (`None` on error).
pub uninterp spec fn zstd_decoded(frame: Seq<u8>) -> Option<Seq<u8>>;

/// `zstd::decode_all` over an in-memory buffer.
#[verifier::external_body]
fn zstd_decode_all(frame: &[u8]) -> (r: Option<Vec<u8>>)
    ensures
        match r {
            Some(v) => zstd_decoded(frame@) == Some(v@),
            None => zstd_decoded(frame@) is None,
        },
{
    zstd::decode_all(std::io::Cursor::new(frame)).ok()
}

/// Concatenation of the streams that could be read.
pub open spec fn concat_streams(streams: Seq<Option<Vec<u8>>>) -> Seq<u8>
    decreases streams.len(),
{
    if streams.len() == 0 {
        seq![]
    } else {
        concat_streams(streams.drop_last()) + match streams.last() {
            Some(v) => v@,
            None => seq![],
        }
    }
}

pub open spec fn zstd_magic() -> Seq<u8> {
    seq![0x28u8, 0xb5u8, 0x2fu8, 0xfdu8]
}

/// Outcome of recovering the private data from its streams (each `None`
/// is a stream that could not be read): concatenate, start at the first
/// Zstandard magic, decode.
pub open spec fn ai_data_result(streams: Seq<Option<Vec<u8>>>) -> Result<Seq<u8>, AiDataError> {
    let raw = concat_streams(streams);
    if streams.len() == 0 {
        Err(AiDataError::NoPrivateData)
    } else if raw.len() == 0 {
        Err(AiDataError::EmptyStreams)
    } else {
        match first_occurrence(raw, zstd_magic(), 0) {
            None => Err(AiDataError::MagicNotFound),
            Some(p) => match zstd_decoded(raw.subrange(p, raw.len() as int)) {
                None => Err(AiDataError::DecompressFailed),
                Some(d) => Ok(d),
            },
        }
    }
}

/// Recovers the decompressed AI PostScript from the `AIPrivateData`
/// streams of an AI file, in document order.
pub fn decompress_ai_streams(streams: &Vec<Option<Vec<u8>>>) -> (r: Result<AiPrivateData, AiDataError>)
    ensures
        match (r, ai_data_result(streams@)) {
            (Ok(d), Ok(raw)) => d.raw@ == raw,
            (Err(e), Err(e2)) => e == e2,
            _ => false,
        },
{
    if streams.len() == 0 {
        return Err(AiDataError::NoPrivateData);
    }
    let mut raw: Vec<u8> = Vec::new();
    let mut i: usize = 0;
    while i < streams.len()
        invariant
            i <= streams@.len(),
            raw@ == concat_streams(streams@.take(i as int)),
        decreases streams@.len() - i,
    {
        proof {
            assert(streams@.take(i + 1).drop_last() =~= streams@.take(i as int));
        }
        match &streams[i] {
            Some(data) => {
                let mut j: usize = 0;
                let ghost before = raw@;
                while j < data.len()
                    invariant
                        j <= data@.len(),
                        raw@ == before + data@.take(j as int),
                    decreases data@.len() - j,
                {
                    raw.push(data[j]);
                    j = j + 1;
                    assert(raw@ =~= before + data@.take(j as int));
                }
                assert(data@.take(j as int) =~= data@);
            },
            None => {
                assert(raw@ =~= raw@ + Seq::<u8>::empty());
            },
        }
        i = i + 1;
    }
    assert(streams@.take(i as int) =~= streams@);
    if raw.len() == 0 {
        return Err(AiDataError::EmptyStreams);
    }
    let magic: [u8; 4] = [0x28u8, 0xb5u8, 0x2fu8, 0xfdu8];
    assert(magic@ =~= zstd_magic());
    match find_first(raw.as_slice(), magic.as_slice()) {
        None => Err(AiDataError::MagicNotFound),
        Some(p) => {
            proof {
                law_first_occurrence_in_bounds(raw@, zstd_magic(), 0);
            }
            let frame = slice_range(raw.as_slice(), p, raw.len());
            match zstd_decode_all(frame.as_slice()) {
                None => Err(AiDataError::DecompressFailed),
                Some(d) => Ok(AiPrivateData { raw: d }),
            }
        },
    }
}

/// A found occurrence lies within the haystack.
pub proof fn law_first_occurrence_in_bounds(h: Seq<u8>, n: Seq<u8>, from: int)
    ensures
        first_occurrence(h, n, from) matches Some(p) ==> from <= p && occurs_at(h, n, p),
    decreases h.len() + 1 - from,
{
    if !(from < 0 || from + n.len() > h.len()) && !occurs_at(h, n, from) {
        law_first_occurrence_in_bounds(h, n, from + 1);
    }
}

// ── layer lookup ────────────────────────────────────────────────────

/// Character-wise equality of two strings.
pub fn str_eq(a: &str, b: &str) -> (r: bool)
    ensures
        r == (a@ == b@),
{
    let n = a.unicode_len();
    let m = b.unicode_len();
    if n != m {
        return false;
    }
    let mut i: usize = 0;
    while i < n
        invariant
            n == a@.len(),
            m == b@.len(),
            n == m,
            i <= n,
            forall|k: int| 0 <= k < i ==> a@[k] == b@[k],
        decreases n - i,
    {
        if a.get_char(i) != b.get_char(i) {
            return false;
        }
        i = i + 1;
    }
    assert(a@ =~= b@);
    true
}

/// Index of the first block named `name`.
pub open spec fn first_named(blocks: Seq<LayerBlock>, name: Seq<char>, from: int) -> Option<int>
    decreases blocks.len() - from,
{
    if from < 0 || from >= blocks.len() {
        None
    } else if blocks[from].name@ == name {
        Some(from)
    } else {
        first_named(blocks, name, from + 1)
    }
}

/// Index of the first block whose name equals `name`.
pub fn find_layer(blocks: &Vec<LayerBlock>, name: &str) -> (r: Option<usize>)
    ensures
        match r {
            Some(i) => first_named(blocks@, name@, 0) == Some(i as int),
            None => first_named(blocks@, name@, 0) is None,
        },
{
    let mut i: usize = 0;
    while i < blocks.len()
        invariant
            i <= blocks@.len(),
            first_named(blocks@, name@, 0) == first_named(blocks@, name@, i as int),
        decreases blocks@.len() - i,
    {
        if str_eq(blocks[i].name.as_str(), name) {
            return Some(i);
        }
        i = i + 1;
    }
    None
}

/// Why an AI file's layer tree cannot be used.
#[derive(Debug, PartialEq, Eq)]
pub enum LayerTreeError {
    /// No top-level layer named `background`.
    MissingBackground,
    /// No top-level layer named `bricks`.
    MissingBricks,
    /// The `bricks` layer has no sub-layers.
    EmptyBricks,
}

/// Locates the required top-level layers: returns the indices of the first
/// `background` and the first `bricks` root, the latter with sub-layers.
pub fn required_layers(roots: &Vec<LayerBlock>) -> (r: Result<(usize, usize), LayerTreeError>)
    ensures
        match r {
            Ok((bg, br)) => first_named(roots@, "background"@, 0) == Some(bg as int)
                && first_named(roots@, "bricks"@, 0) == Some(br as int)
                && roots@[br as int].children@.len() > 0,
            Err(LayerTreeError::MissingBackground) => first_named(roots@, "background"@, 0) is None,
            Err(LayerTreeError::MissingBricks) => first_named(roots@, "background"@, 0) is Some
                && first_named(roots@, "bricks"@, 0) is None,
            Err(LayerTreeError::EmptyBricks) => first_named(roots@, "background"@, 0) is Some && (
            first_named(roots@, "bricks"@, 0) matches Some(b) && roots@[b].children@.len() == 0),
        },
{
    let bg = match find_layer(roots, "background") {
        Some(i) => i,
        None => return Err(LayerTreeError::MissingBackground),
    };
    let br = match find_layer(roots, "bricks") {
        Some(i) => i,
        None => return Err(LayerTreeError::MissingBricks),
    };
    proof {
        law_first_named_in_bounds(roots@, "bricks"@, 0);
    }
    if roots[br].children.len() == 0 {
        return Err(LayerTreeError::EmptyBricks);
    }
    Ok((bg, br))
}

/// A found block lies within the sequence and carries the name.
pub proof fn law_first_named_in_bounds(blocks: Seq<LayerBlock>, name: Seq<char>, from: int)
    ensures
        first_named(blocks, name, from) matches Some(i) ==> from <= i < blocks.len() && blocks[i].name@
            == name,
    decreases blocks.len() - from,
{
    if 0 <= from < blocks.len() && blocks[from].name@ != name {
        law_first_named_in_bounds(blocks, name, from + 1);
    }
}

// ── placement de-duplication ────────────────────────────────────────

/// Indices of the first occurrence of each distinct key, in order.
pub open spec fn first_occurrences(keys: Seq<(i32, i32, i32, i32)>) -> Seq<int>
    decreases keys.len(),
{
    if keys.len() == 0 {
        seq![]
    } else {
        let prev = first_occurrences(keys.drop_last());
        if keys.drop_last().contains(keys.last()) {
            prev
        } else {
            prev.push(keys.len() - 1)
        }
    }
}

/// Whether `key` is among the keys seen so far.
fn contains_key(seen: &Vec<(i32, i32, i32, i32)>, key: (i32, i32, i32, i32)) -> (r: bool)
    ensures
        r == seen@.contains(key),
{
    let mut j: usize = 0;
    while j < seen.len()
        invariant
            j <= seen@.len(),
            forall|w: int| 0 <= w < j ==> seen@[w] != key,
        decreases seen@.len() - j,
    {
        let s = seen[j];
        if s.0 == key.0 && s.1 == key.1 && s.2 == key.2 && s.3 == key.3 {
            assert(seen@[j as int] == key);
            return true;
        }
        j = j + 1;
    }
    false
}

/// Keeps the first placement of each distinct pixel bounding box
/// `(x, y, width, height)`: returns the kept indices in input order.
pub fn dedup_bboxes(keys: &Vec<(i32, i32, i32, i32)>) -> (r: Vec<usize>)
    ensures
        usize_seq(r@) == first_occurrences(keys@),
{
    let mut kept: Vec<usize> = Vec::new();
    let mut seen: Vec<(i32, i32, i32, i32)> = Vec::new();
    let mut i: usize = 0;
    while i < keys.len()
        invariant
            i <= keys@.len(),
            usize_seq(kept@) == first_occurrences(keys@.take(i as int)),
            forall|x: (i32, i32, i32, i32)| seen@.contains(x) <==> keys@.take(i as int).contains(x),
        decreases keys@.len() - i,
    {
        let key = keys[i];
        let found = contains_key(&seen, key);
        let ghost t = keys@.take(i + 1);
        let ghost old_seen = seen@;
        let ghost prev = keys@.take(i as int);
        proof {
            assert(t.drop_last() =~= prev);
            assert(t.last() == key);
        }
        if !found {
            seen.push(key);
            kept.push(i);
            proof {
                assert(usize_seq(kept@) =~= first_occurrences(prev).push(i as int));
            }
        }
        proof {
            assert forall|x: (i32, i32, i32, i32)| seen@.contains(x) implies t.contains(x) by {
                if old_seen.contains(x) {
                    assert(prev.contains(x));
                    let k = choose|k: int| 0 <= k < prev.len() && prev[k] == x;
                    assert(t[k] == x);
                } else {
                    let w = choose|w: int| 0 <= w < seen@.len() && seen@[w] == x;
                    if w < old_seen.len() {
                        assert(old_seen[w] == x);
                    }
                    assert(x == key);
                    assert(t[i as int] == x);
                }
            }
            assert forall|x: (i32, i32, i32, i32)| t.contains(x) implies seen@.contains(x) by {
                let k = choose|k: int| 0 <= k < t.len() && t[k] == x;
                if k < i {
                    assert(prev[k] == x);
                    assert(prev.contains(x));
                    assert(old_seen.contains(x));
                    let w = choose|w: int| 0 <= w < old_seen.len() && old_seen[w] == x;
                    assert(seen@[w] == x);
                } else {
                    assert(x == key);
                    if found {
                        let w = choose|w: int| 0 <= w < old_seen.len() && old_seen[w] == x;
                        assert(seen@[w] == x);
                    } else {
                        assert(seen@[seen@.len() - 1] == x);
                    }
                }
            }
        }
        i = i + 1;
    }
    assert(keys@.take(i as int) =~= keys@);
    kept
}

proof fn lemma_first_occurrences_distinct(keys: Seq<(i32, i32, i32, i32)>)
    ensures
        forall|i: int| 0 <= i < first_occurrences(keys).len() ==> 0 <= #[trigger] first_occurrences(keys)[i] < keys.len(),
        forall|i: int, j: int|
            0 <= i < j < first_occurrences(keys).len() ==> first_occurrences(keys)[i] < first_occurrences(keys)[j]
                && keys[first_occurrences(keys)[i]] != keys[first_occurrences(keys)[j]],
    decreases keys.len(),
{
    if keys.len() > 0 {
        let d = keys.drop_last();
        let n = keys.len() - 1;
        lemma_first_occurrences_distinct(d);
        let fd = first_occurrences(d);
        let f = first_occurrences(keys);
        if !d.contains(keys.last()) {
            assert(f == fd.push(n));
            assert forall|i: int, j: int| 0 <= i < j < f.len() implies f[i] < f[j] && keys[f[i]] != keys[f[j]] by {
                assert(f[i] == fd[i]);
                assert(keys[fd[i]] == d[fd[i]]);
                if j == f.len() - 1 {
                    if keys[f[i]] == keys[f[j]] {
                        assert(d.contains(keys.last()));
                    }
                } else {
                    assert(f[j] == fd[j]);
                    assert(keys[fd[j]] == d[fd[j]]);
                }
            }
        } else {
            assert forall|i: int, j: int| 0 <= i < j < f.len() implies f[i] < f[j] && keys[f[i]] != keys[f[j]] by {
                assert(keys[fd[i]] == d[fd[i]]);
                assert(keys[fd[j]] == d[fd[j]]);
            }
        }
    }
}

/// Every key of `keys` is the key of an index in `f` at or before it.
pub open spec fn kept_cover(keys: Seq<(i32, i32, i32, i32)>, f: Seq<int>) -> bool {
    forall|k: int|
        #![trigger keys[k]]
        0 <= k < keys.len() ==> exists|i: int| 0 <= i < f.len() && f[i] <= k && keys[#[trigger] f[i]] == keys[k]
}

#[verifier::spinoff_prover]
#[verifier::rlimit(100)]
proof fn lemma_cover_step(keys: Seq<(i32, i32, i32, i32)>, k: int)
    requires
        keys.len() > 0,
        kept_cover(keys.drop_last(), first_occurrences(keys.drop_last())),
        0 <= k < keys.len(),
    ensures
        exists|i: int|
            0 <= i < first_occurrences(keys).len() && first_occurrences(keys)[i] <= k && keys[#[trigger] first_occurrences(
                keys,
            )[i]] == keys[k],
{
    let d = keys.drop_last();
    let n = keys.len() - 1;
    let fd = first_occurrences(d);
    let f = first_occurrences(keys);
    let grew = !d.contains(keys.last());
    if grew {
        assert(f == fd.push(n));
    } else {
        assert(f == fd);
    }
    if k == n && grew {
        assert(f[f.len() - 1] == n);
        assert(keys[f[f.len() - 1]] == keys[k]);
    } else {
        let m = if k == n {
            choose|m: int| 0 <= m < d.len() && d[m] == keys.last()
        } else {
            k
        };
        assert(0 <= m < n && d[m] == keys[k]);
        assert(keys[m] == d[m]);
        lemma_first_occurrences_distinct(d);
        assert(exists|i: int| 0 <= i < fd.len() && fd[i] <= m && d[#[trigger] fd[i]] == d[m]);
        let i = choose|i: int| 0 <= i < fd.len() && fd[i] <= m && d[#[trigger] fd[i]] == d[m];
        assert(keys[fd[i]] == d[fd[i]]);
        assert(f[i] == fd[i]);
        assert(keys[f[i]] == keys[k]);
    }
}

proof fn lemma_first_occurrences_cover(keys: Seq<(i32, i32, i32, i32)>)
    ensures
        kept_cover(keys, first_occurrences(keys)),
    decreases keys.len(),
{
    if keys.len() > 0 {
        lemma_first_occurrences_cover(keys.drop_last());
        assert forall|k: int| #![trigger keys[k]] 0 <= k < keys.len() implies exists|i: int|
            0 <= i < first_occurrences(keys).len() && first_occurrences(keys)[i] <= k && keys[#[trigger] first_occurrences(
                keys,
            )[i]] == keys[k] by {
            lemma_cover_step(keys, k);
        }
    }
}

/// De-duplication keeps each distinct key exactly once, at its first
/// occurrence: the kept indices increase, name pairwise different keys,
/// and every key of the input is the key of a kept index at or before it.
pub proof fn law_dedup_keeps_each_key_once(keys: Seq<(i32, i32, i32, i32)>)
    ensures
        forall|i: int| 0 <= i < first_occurrences(keys).len() ==> 0 <= #[trigger] first_occurrences(keys)[i] < keys.len(),
        forall|i: int, j: int|
            0 <= i < j < first_occurrences(keys).len() ==> first_occurrences(keys)[i] < first_occurrences(keys)[j]
                && keys[first_occurrences(keys)[i]] != keys[first_occurrences(keys)[j]],
        kept_cover(keys, first_occurrences(keys)),
{
    lemma_first_occurrences_distinct(keys);
    lemma_first_occurrences_cover(keys);
}

} // verus!
