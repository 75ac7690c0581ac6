//! Content-stream analysis for per-brick optional content: classifying
//! PDF operators, finding the brick `q…Q` blocks inside the `bricks`
//! layer, deciding which OCG each block joins, and planning the rewritten
//! operator stream with its `BDC … EMC` markers.
use vstd::prelude::*;
use crate::text::{lossy_string, str_chars, utf8_lossy};
use crate::version::{digits_value, is_digit};

verus! {

// ── operators ───────────────────────────────────────────────────────

/// An operand of a content-stream operator, as far as the analysis reads
/// it: a name, or anything else.
pub enum Operand {
    Name(Vec<u8>),
    Other,
}

/// One content-stream operation: the operator's bytes and its operands.
pub struct PdfOp {
    pub operator: Vec<u8>,
    pub operands: Vec<Operand>,
}

/// The operators the analysis reacts to.
#[derive(Debug, PartialEq, Eq, Structural, Clone, Copy)]
pub enum OpKind {
    /// `q`
    Save,
    /// `Q`
    Restore,
    /// `BDC`
    BeginMarked,
    /// `EMC`
    EndMarked,
    /// `Do`
    PaintXObject,
    Other,
}

pub open spec fn kind_of(op: Seq<u8>) -> OpKind {
    if op == seq![0x71u8] {
        OpKind::Save
    } else if op == seq![0x51u8] {
        OpKind::Restore
    } else if op == seq![0x42u8, 0x44u8, 0x43u8] {
        OpKind::BeginMarked
    } else if op == seq![0x45u8, 0x4du8, 0x43u8] {
        OpKind::EndMarked
    } else if op == seq![0x44u8, 0x6fu8] {
        OpKind::PaintXObject
    } else {
        OpKind::Other
    }
}

/// Classifies an operator by its bytes.
pub fn op_kind(op: &Vec<u8>) -> (k: OpKind)
    ensures
        k == kind_of(op@),
{
    let n = op.len();
    if n == 1 && op[0] == 0x71u8 {
        assert(op@ =~= seq![0x71u8]);
        OpKind::Save
    } else if n == 1 && op[0] == 0x51u8 {
        assert(op@ =~= seq![0x51u8]);
        OpKind::Restore
    } else if n == 3 && op[0] == 0x42u8 && op[1] == 0x44u8 && op[2] == 0x43u8 {
        assert(op@ =~= seq![0x42u8, 0x44u8, 0x43u8]);
        OpKind::BeginMarked
    } else if n == 3 && op[0] == 0x45u8 && op[1] == 0x4du8 && op[2] == 0x43u8 {
        assert(op@ =~= seq![0x45u8, 0x4du8, 0x43u8]);
        OpKind::EndMarked
    } else if n == 2 && op[0] == 0x44u8 && op[1] == 0x6fu8 {
        assert(op@ =~= seq![0x44u8, 0x6fu8]);
        OpKind::PaintXObject
    } else {
        proof {
            if op@ == seq![0x71u8] || op@ == seq![0x51u8] {
                assert(op@.len() == 1 && op@[0] == op@[0]);
            }
            if op@ == seq![0x42u8, 0x44u8, 0x43u8] || op@ == seq![0x45u8, 0x4du8, 0x43u8] {
                assert(op@.len() == 3);
            }
            if op@ == seq![0x44u8, 0x6fu8] {
                assert(op@.len() == 2);
            }
        }
        OpKind::Other
    }
}

/// The name carried by operand `i`, if it is a name.
pub open spec fn name_operand(ops: Seq<Operand>, i: int) -> Option<Seq<u8>> {
    if 0 <= i < ops.len() {
        match ops[i] {
            Operand::Name(n) => Some(n@),
            Operand::Other => None,
        }
    } else {
        None
    }
}

fn get_name(ops: &Vec<Operand>, i: usize) -> (r: Option<&Vec<u8>>)
    ensures
        match r {
            Some(v) => name_operand(ops@, i as int) == Some(v@),
            None => name_operand(ops@, i as int) is None,
        },
{
    if i < ops.len() {
        match &ops[i] {
            Operand::Name(n) => Some(n),
            Operand::Other => None,
        }
    } else {
        None
    }
}

/// The property name of a `BDC` whose tag is `/OC`: the second operand,
/// when the first is the name `OC` and the second a name.
pub open spec fn oc_property(operands: Seq<Operand>) -> Option<Seq<u8>> {
    if name_operand(operands, 0) == Some(seq![0x4fu8, 0x43u8]) {
        name_operand(operands, 1)
    } else {
        None
    }
}

fn get_oc_property(operands: &Vec<Operand>) -> (r: Option<&Vec<u8>>)
    ensures
        match r {
            Some(v) => oc_property(operands@) == Some(v@),
            None => oc_property(operands@) is None,
        },
{
    match get_name(operands, 0) {
        Some(tag) => {
            if tag.len() == 2 && tag[0] == 0x4fu8 && tag[1] == 0x43u8 {
                assert(tag@ =~= seq![0x4fu8, 0x43u8]);
                get_name(operands, 1)
            } else {
                assert(tag@ != seq![0x4fu8, 0x43u8]) by {
                    if tag@ == seq![0x4fu8, 0x43u8] {
                        assert(tag@.len() == 2);
                    }
                }
                None
            }
        },
        None => None,
    }
}

// ── layer names ─────────────────────────────────────────────────────

/// `c` is the ASCII letter `lower` in either case.
pub open spec fn ci_letter(c: char, lower: char, upper: char) -> bool {
    c == lower || c == upper
}

/// `s` equals "bricks" ignoring ASCII case.
pub open spec fn is_bricks_name(s: Seq<char>) -> bool {
    &&& s.len() == 6
    &&& ci_letter(s[0], 'b', 'B')
    &&& ci_letter(s[1], 'r', 'R')
    &&& ci_letter(s[2], 'i', 'I')
    &&& ci_letter(s[3], 'c', 'C')
    &&& ci_letter(s[4], 'k', 'K')
    &&& ci_letter(s[5], 's', 'S')
}

/// Whether an OCG name is the `bricks` layer (ASCII case ignored).
pub fn names_bricks_layer(name: &String) -> (r: bool)
    ensures
        r == is_bricks_name(name@),
{
    let cs = str_chars(name.as_str());
    if cs.len() != 6 {
        return false;
    }
    (cs[0] == 'b' || cs[0] == 'B') && (cs[1] == 'r' || cs[1] == 'R') && (cs[2] == 'i' || cs[2] == 'I')
        && (cs[3] == 'c' || cs[3] == 'C') && (cs[4] == 'k' || cs[4] == 'K') && (cs[5] == 's' || cs[5]
        == 'S')
}

/// One entry of a page's property table: a property name and the name of
/// the optional-content group it resolves to.
pub struct OcgProperty {
    pub key: String,
    pub ocg_name: String,
}

/// Index of the last entry whose key is `key` among the first `n`.
pub open spec fn find_prop(props: Seq<OcgProperty>, key: Seq<char>, n: int) -> Option<int>
    decreases n,
{
    if n <= 0 {
        None
    } else if props[n - 1].key@ == key {
        Some(n - 1)
    } else {
        find_prop(props, key, n - 1)
    }
}

proof fn lemma_find_prop_range(props: Seq<OcgProperty>, key: Seq<char>, n: int)
    requires
        n <= props.len(),
    ensures
        find_prop(props, key, n) matches Some(i) ==> 0 <= i < n && props[i].key@ == key,
    decreases n,
{
    if n > 0 {
        lemma_find_prop_range(props, key, n - 1);
    }
}

/// Looks up the OCG entry for a property name; a later entry for the same
/// key replaces an earlier one.
pub fn lookup_prop(props: &Vec<OcgProperty>, key: &String) -> (r: Option<usize>)
    ensures
        r matches Some(i) ==> find_prop(props@, key@, props@.len() as int) == Some(i as int),
        r is None ==> find_prop(props@, key@, props@.len() as int) is None,
        r matches Some(i) ==> i < props@.len(),
{
    let mut i: usize = props.len();
    while i > 0
        invariant
            i <= props@.len(),
            forall|j: int| i <= j < props@.len() ==> props@[j].key@ != key@,
            find_prop(props@, key@, props@.len() as int) == find_prop(props@, key@, i as int),
        decreases i,
    {
        if props[i - 1].key == *key {
            proof {
                lemma_find_prop_range(props@, key@, props@.len() as int);
            }
            return Some(i - 1);
        }
        proof {
            assert(find_prop(props@, key@, i as int) == find_prop(props@, key@, i - 1));
        }
        i = i - 1;
    }
    None
}

/// How a `BDC` opens a scope: whether it is the `bricks` layer, and which
/// property entry names the layer when it is some other optional-content
/// group.
pub open spec fn bdc_scope(props: Seq<OcgProperty>, operands: Seq<Operand>) -> (bool, Option<int>) {
    match oc_property(operands) {
        Some(p) => match find_prop(props, utf8_lossy(p), props.len() as int) {
            Some(i) => if is_bricks_name(props[i].ocg_name@) {
                (true, None)
            } else {
                (false, Some(i))
            },
            None => (false, None),
        },
        None => (false, None),
    }
}

/// What a `BDC` opens: whether it is the bricks layer, and the property
/// entry that names its layer.
pub fn scope_of_bdc(props: &Vec<OcgProperty>, operands: &Vec<Operand>) -> (r: (bool, Option<usize>))
    ensures
        r.0 == bdc_scope(props@, operands@).0,
        r.1 matches Some(i) ==> bdc_scope(props@, operands@).1 == Some(i as int) && i < props@.len(),
        r.1 is None ==> bdc_scope(props@, operands@).1 is None,
{
    match get_oc_property(operands) {
        Some(p) => {
            let key = lossy_string(p.as_slice());
            match lookup_prop(props, &key) {
                Some(i) => {
                    if names_bricks_layer(&props[i].ocg_name) {
                        (true, None)
                    } else {
                        (false, Some(i))
                    }
                },
                None => (false, None),
            }
        },
        None => (false, None),
    }
}

/// Decodes a PDF text string as the layer names are read: UTF-8, with
/// invalid sequences replaced.
pub fn decode_pdf_string(bytes: &[u8]) -> (r: String)
    ensures
        r@ == utf8_lossy(bytes@),
{
    lossy_string(bytes)
}

// ── brick blocks ────────────────────────────────────────────────────

/// An XObject the page's resources name: its resource name, object id and
/// whether it is an image (otherwise a form).
pub struct XObjectRef {
    pub name: String,
    pub object_id: (u32, u16),
    pub is_image: bool,
}

/// What a block paints: an image or form XObject (its resource name and
/// object id), or only inline content.
#[derive(Debug)]
pub enum BrickContent {
    Form { name: String, object_id: (u32, u16) },
    Image { name: String, object_id: (u32, u16) },
    Inlined,
}

impl BrickContent {
    /// The kind's name: `Form`, `Image` or `Inlined`.
    pub fn kind_str(&self) -> (r: &'static str)
        ensures
            r@ == match self {
                BrickContent::Form { .. } => "Form"@,
                BrickContent::Image { .. } => "Image"@,
                BrickContent::Inlined => "Inlined"@,
            },
    {
        match self {
            BrickContent::Form { .. } => "Form",
            BrickContent::Image { .. } => "Image",
            BrickContent::Inlined => "Inlined",
        }
    }
}

/// Whether `c` is what block `b` paints: the XObject its `Do` resolved to,
/// as an image or a form, or inline content when it resolved none.
pub open spec fn is_content_of(c: BrickContent, b: BlockSpan, xobjs: Seq<XObjectRef>) -> bool {
    match b.xobject {
        Some(j) if j < xobjs.len() => {
            let x = xobjs[j as int];
            match c {
                BrickContent::Image { name, object_id } => x.is_image && name@ == x.name@ && object_id == x.object_id,
                BrickContent::Form { name, object_id } => !x.is_image && name@ == x.name@ && object_id == x.object_id,
                BrickContent::Inlined => false,
            }
        },
        _ => c is Inlined,
    }
}

/// What block `b` paints.
pub fn block_content(b: &BlockSpan, xobjs: &Vec<XObjectRef>) -> (r: BrickContent)
    ensures
        is_content_of(r, *b, xobjs@),
{
    match b.xobject {
        Some(j) => {
            if j < xobjs.len() {
                let x = &xobjs[j];
                if x.is_image {
                    BrickContent::Image { name: x.name.clone(), object_id: x.object_id }
                } else {
                    BrickContent::Form { name: x.name.clone(), object_id: x.object_id }
                }
            } else {
                BrickContent::Inlined
            }
        },
        None => BrickContent::Inlined,
    }
}

/// Index of the first XObject whose resource name is `name`.
pub open spec fn find_xobject(xobjs: Seq<XObjectRef>, name: Seq<char>, n: int) -> Option<int>
    decreases n,
{
    if n <= 0 {
        None
    } else {
        match find_xobject(xobjs, name, n - 1) {
            Some(i) => Some(i),
            None => if xobjs[n - 1].name@ == name {
                Some(n - 1)
            } else {
                None
            },
        }
    }
}

proof fn lemma_find_xobject_range(xobjs: Seq<XObjectRef>, name: Seq<char>, n: int)
    requires
        n <= xobjs.len(),
    ensures
        find_xobject(xobjs, name, n) matches Some(i) ==> 0 <= i < n,
    decreases n,
{
    if n > 0 {
        lemma_find_xobject_range(xobjs, name, n - 1);
    }
}

/// The XObject entry a `Do` names: the first one of that name.
pub fn lookup_xobject(xobjs: &Vec<XObjectRef>, name: &String) -> (r: Option<usize>)
    ensures
        r matches Some(i) ==> find_xobject(xobjs@, name@, xobjs@.len() as int) == Some(i as int),
        r is None ==> find_xobject(xobjs@, name@, xobjs@.len() as int) is None,
        r matches Some(i) ==> i < xobjs@.len(),
{
    let mut i: usize = 0;
    while i < xobjs.len()
        invariant
            i <= xobjs@.len(),
            find_xobject(xobjs@, name@, i as int) is None,
        decreases xobjs@.len() - i,
    {
        if xobjs[i].name == *name {
            proof {
                lemma_find_xobject_range(xobjs@, name@, xobjs@.len() as int);
                lemma_find_xobject_stable(xobjs@, name@, i + 1, xobjs@.len() as int);
            }
            return Some(i);
        }
        i = i + 1;
    }
    None
}

proof fn lemma_find_xobject_stable(xobjs: Seq<XObjectRef>, name: Seq<char>, m: int, n: int)
    requires
        0 <= m <= n,
        find_xobject(xobjs, name, m) is Some,
    ensures
        find_xobject(xobjs, name, n) == find_xobject(xobjs, name, m),
    decreases n - m,
{
    if n > m {
        lemma_find_xobject_stable(xobjs, name, m, n - 1);
    }
}

/// One brick `q…Q` block of the content stream: the indices of its `q`
/// and matching `Q`, the XObject its last resolved `Do` paints (with that
/// operator's index), the `EMC`/`BDC` pair at which it straddles a layer
/// boundary, and the property entry of the innermost named layer open at
/// its `q`.
#[derive(Debug, Clone, Copy)]
pub struct BlockSpan {
    pub q_idx: usize,
    pub end_q_idx: usize,
    pub xobject: Option<usize>,
    pub content_idx: Option<usize>,
    pub straddle_split: Option<(usize, usize)>,
    pub layer_prop: Option<usize>,
}

/// State of the block walk after some prefix of the operators.
pub struct WalkState {
    /// Graphics-state stack depth (the page level counts as one).
    pub depth: int,
    /// Open marked-content scopes: whether each is the bricks layer, and
    /// the property entry naming it when it is another layer.
    pub scopes: Seq<(bool, Option<usize>)>,
    /// How many bricks-layer scopes are open.
    pub in_bricks: int,
    pub open: Option<BlockSpan>,
    pub start_depth: int,
    pub scopes_at_start: Seq<(bool, Option<usize>)>,
    pub emc_pop: Option<usize>,
    pub bdc_push: Option<usize>,
    pub blocks: Seq<BlockSpan>,
}

pub open spec fn initial_walk() -> WalkState {
    WalkState {
        depth: 1,
        scopes: seq![],
        in_bricks: 0,
        open: None,
        start_depth: 0,
        scopes_at_start: seq![],
        emc_pop: None,
        bdc_push: None,
        blocks: seq![],
    }
}

/// The innermost scope that names a layer.
pub open spec fn top_layer(scopes: Seq<(bool, Option<usize>)>) -> Option<usize>
    decreases scopes.len(),
{
    if scopes.len() == 0 {
        None
    } else if scopes.last().1 is Some {
        scopes.last().1
    } else {
        top_layer(scopes.drop_last())
    }
}

pub open spec fn layer_name(props: Seq<OcgProperty>, l: Option<usize>) -> Option<Seq<char>> {
    match l {
        Some(i) => Some(props[i as int].ocg_name@),
        None => None,
    }
}

/// Two scope stacks are the same when they agree entry by entry on
/// bricks-ness and on the layer name.
pub open spec fn same_scopes(props: Seq<OcgProperty>, a: Seq<(bool, Option<usize>)>, b: Seq<(bool, Option<usize>)>) -> bool {
    a.len() == b.len() && forall|i: int|
        0 <= i < a.len() ==> a[i].0 == b[i].0 && layer_name(props, #[trigger] a[i].1) == layer_name(props, b[i].1)
}

/// One operator's effect on the walk.
pub open spec fn walk_step(s: WalkState, props: Seq<OcgProperty>, xobjs: Seq<XObjectRef>, idx: int, op: PdfOp) -> WalkState {
    match kind_of(op.operator@) {
        OpKind::Save => {
            let d = s.depth + 1;
            if s.in_bricks > 0 && s.open is None {
                WalkState {
                    depth: d,
                    open: Some(BlockSpan {
                        q_idx: idx as usize,
                        end_q_idx: idx as usize,
                        xobject: None,
                        content_idx: None,
                        straddle_split: None,
                        layer_prop: top_layer(s.scopes),
                    }),
                    start_depth: d - 1,
                    scopes_at_start: s.scopes,
                    emc_pop: None,
                    bdc_push: None,
                    ..s
                }
            } else {
                WalkState { depth: d, ..s }
            }
        },
        OpKind::Restore => {
            let d = if s.depth > 1 { s.depth - 1 } else { s.depth };
            match s.open {
                Some(b) => if d == s.start_depth {
                    let straddle = if !same_scopes(props, s.scopes, s.scopes_at_start) && s.emc_pop is Some
                        && s.bdc_push is Some {
                        Some((s.emc_pop->0, s.bdc_push->0))
                    } else {
                        b.straddle_split
                    };
                    WalkState {
                        depth: d,
                        open: None,
                        blocks: s.blocks.push(BlockSpan { end_q_idx: idx as usize, straddle_split: straddle, ..b }),
                        ..s
                    }
                } else {
                    WalkState { depth: d, ..s }
                },
                None => WalkState { depth: d, ..s },
            }
        },
        OpKind::BeginMarked => {
            let (is_b, layer) = bdc_scope(props, op.operands@);
            let l: Option<usize> = match layer {
                Some(i) => Some(i as usize),
                None => None,
            };
            WalkState {
                scopes: s.scopes.push((is_b, l)),
                in_bricks: if is_b { s.in_bricks + 1 } else { s.in_bricks },
                bdc_push: if s.open is Some && s.bdc_push is None && s.emc_pop is Some {
                    Some(idx as usize)
                } else {
                    s.bdc_push
                },
                ..s
            }
        },
        OpKind::EndMarked => {
            let popped = s.scopes.len() > 0;
            let was_b = popped && s.scopes.last().0;
            WalkState {
                scopes: if popped { s.scopes.drop_last() } else { s.scopes },
                in_bricks: if was_b && s.in_bricks > 0 { s.in_bricks - 1 } else { s.in_bricks },
                emc_pop: if s.open is Some && s.emc_pop is None { Some(idx as usize) } else { s.emc_pop },
                ..s
            }
        },
        OpKind::PaintXObject => {
            match (s.open, name_operand(op.operands@, 0)) {
                (Some(b), Some(n)) => match find_xobject(xobjs, utf8_lossy(n), xobjs.len() as int) {
                    Some(j) => WalkState {
                        open: Some(BlockSpan { xobject: Some(j as usize), content_idx: Some(idx as usize), ..b }),
                        ..s
                    },
                    None => s,
                },
                _ => s,
            }
        },
        OpKind::Other => s,
    }
}

/// The walk over the first `n` operators.
pub open spec fn walk(ops: Seq<PdfOp>, props: Seq<OcgProperty>, xobjs: Seq<XObjectRef>, n: int) -> WalkState
    decreases n,
{
    if n <= 0 {
        initial_walk()
    } else {
        walk_step(walk(ops, props, xobjs, n - 1), props, xobjs, n - 1, ops[n - 1])
    }
}

/// The brick blocks of a content stream: every `q…Q` block opened at the
/// outermost level inside the `bricks` layer.
pub open spec fn brick_blocks(ops: Seq<PdfOp>, props: Seq<OcgProperty>, xobjs: Seq<XObjectRef>) -> Seq<BlockSpan> {
    walk(ops, props, xobjs, ops.len() as int).blocks
}

/// Bounds that the walk keeps after `n` operators.
pub open spec fn walk_bounds(s: WalkState, n: int) -> bool {
    &&& 1 <= s.depth <= n + 1
    &&& 0 <= s.in_bricks <= n
    &&& s.scopes.len() <= n
    &&& 0 <= s.start_depth < s.depth || s.open is None
}

struct Walker {
    depth: usize,
    scopes: Vec<(bool, Option<usize>)>,
    in_bricks: usize,
    open: Option<BlockSpan>,
    start_depth: usize,
    scopes_at_start: Vec<(bool, Option<usize>)>,
    emc_pop: Option<usize>,
    bdc_push: Option<usize>,
    blocks: Vec<BlockSpan>,
}

impl View for Walker {
    type V = WalkState;

    closed spec fn view(&self) -> WalkState {
        WalkState {
            depth: self.depth as int,
            scopes: self.scopes@,
            in_bricks: self.in_bricks as int,
            open: self.open,
            start_depth: self.start_depth as int,
            scopes_at_start: self.scopes_at_start@,
            emc_pop: self.emc_pop,
            bdc_push: self.bdc_push,
            blocks: self.blocks@,
        }
    }
}

fn top_layer_of(scopes: &Vec<(bool, Option<usize>)>) -> (r: Option<usize>)
    ensures
        r == top_layer(scopes@),
{
    let mut i: usize = scopes.len();
    assert(scopes@.take(i as int) =~= scopes@);
    while i > 0
        invariant
            i <= scopes@.len(),
            top_layer(scopes@) == top_layer(scopes@.take(i as int)),
        decreases i,
    {
        proof {
            assert(scopes@.take(i as int).drop_last() =~= scopes@.take(i - 1));
        }
        if scopes[i - 1].1.is_some() {
            return scopes[i - 1].1;
        }
        i = i - 1;
    }
    proof {
        assert(scopes@.take(0) =~= Seq::<(bool, Option<usize>)>::empty());
    }
    None
}

fn copy_scopes(v: &Vec<(bool, Option<usize>)>) -> (r: Vec<(bool, Option<usize>)>)
    ensures
        r@ == v@,
{
    let mut r: Vec<(bool, Option<usize>)> = Vec::new();
    let mut i: usize = 0;
    while i < v.len()
        invariant
            i <= v@.len(),
            r@ == v@.take(i as int),
        decreases v@.len() - i,
    {
        r.push(v[i]);
        i = i + 1;
        assert(r@ =~= v@.take(i as int));
    }
    assert(v@.take(i as int) =~= v@);
    r
}

fn same_layer(props: &Vec<OcgProperty>, a: Option<usize>, b: Option<usize>) -> (r: bool)
    requires
        a matches Some(i) ==> i < props@.len(),
        b matches Some(i) ==> i < props@.len(),
    ensures
        r == (layer_name(props@, a) == layer_name(props@, b)),
{
    match (a, b) {
        (Some(i), Some(j)) => props[i].ocg_name == props[j].ocg_name,
        (None, None) => true,
        _ => false,
    }
}

fn scopes_equal(props: &Vec<OcgProperty>, a: &Vec<(bool, Option<usize>)>, b: &Vec<(bool, Option<usize>)>) -> (r: bool)
    requires
        scopes_valid(a@, props@.len() as int),
        scopes_valid(b@, props@.len() as int),
    ensures
        r == same_scopes(props@, a@, b@),
{
    if a.len() != b.len() {
        return false;
    }
    let mut i: usize = 0;
    while i < a.len()
        invariant
            a@.len() == b@.len(),
            i <= a@.len(),
            scopes_valid(a@, props@.len() as int),
            scopes_valid(b@, props@.len() as int),
            forall|k: int| 0 <= k < i ==> a@[k].0 == b@[k].0 && layer_name(props@, #[trigger] a@[k].1) == layer_name(props@, b@[k].1),
        decreases a@.len() - i,
    {
        if a[i].0 != b[i].0 || !same_layer(props, a[i].1, b[i].1) {
            return false;
        }
        i = i + 1;
    }
    true
}

/// Scope entries only name property entries that exist.
pub open spec fn scopes_valid(scopes: Seq<(bool, Option<usize>)>, nprops: int) -> bool {
    forall|i: int| 0 <= i < scopes.len() ==> ((#[trigger] scopes[i]).1 matches Some(k) ==> k < nprops)
}

impl Walker {
    spec fn valid(&self, nprops: int) -> bool {
        scopes_valid(self.scopes@, nprops) && scopes_valid(self.scopes_at_start@, nprops)
    }

    fn new() -> (w: Walker)
        ensures
            w@ == initial_walk(),
            w.valid(0),
    {
        Walker {
            depth: 1,
            scopes: Vec::new(),
            in_bricks: 0,
            open: None,
            start_depth: 0,
            scopes_at_start: Vec::new(),
            emc_pop: None,
            bdc_push: None,
            blocks: Vec::new(),
        }
    }

    #[verifier::rlimit(40)]
    fn step(&mut self, props: &Vec<OcgProperty>, xobjs: &Vec<XObjectRef>, idx: usize, op: &PdfOp)
        requires
            old(self).valid(props@.len() as int),
            walk_bounds(old(self)@, idx as int),
            idx + 1 < usize::MAX,
        ensures
            final(self)@ == walk_step(old(self)@, props@, xobjs@, idx as int, *op),
            final(self).valid(props@.len() as int),
            walk_bounds(final(self)@, idx + 1),
    {
        let ghost s = self@;
        match op_kind(&op.operator) {
            OpKind::Save => {
                self.depth = self.depth + 1;
                if self.in_bricks > 0 && self.open.is_none() {
                    let layer = top_layer_of(&self.scopes);
                    self.open = Some(BlockSpan {
                        q_idx: idx,
                        end_q_idx: idx,
                        xobject: None,
                        content_idx: None,
                        straddle_split: None,
                        layer_prop: layer,
                    });
                    self.start_depth = self.depth - 1;
                    self.scopes_at_start = copy_scopes(&self.scopes);
                    self.emc_pop = None;
                    self.bdc_push = None;
                }
            },
            OpKind::Restore => {
                if self.depth > 1 {
                    self.depth = self.depth - 1;
                }
                match self.open {
                    Some(b) => {
                        if self.depth == self.start_depth {
                            let same = scopes_equal(props, &self.scopes, &self.scopes_at_start);
                            let straddle = if !same && self.emc_pop.is_some() && self.bdc_push.is_some() {
                                match (self.emc_pop, self.bdc_push) {
                                    (Some(e), Some(p)) => Some((e, p)),
                                    _ => b.straddle_split,
                                }
                            } else {
                                b.straddle_split
                            };
                            self.blocks.push(BlockSpan { end_q_idx: idx, straddle_split: straddle, ..b });
                            self.open = None;
                        }
                    },
                    None => {},
                }
            },
            OpKind::BeginMarked => {
                let (is_b, layer) = scope_of_bdc(props, &op.operands);
                self.scopes.push((is_b, layer));
                if is_b {
                    self.in_bricks = self.in_bricks + 1;
                }
                if self.open.is_some() && self.bdc_push.is_none() && self.emc_pop.is_some() {
                    self.bdc_push = Some(idx);
                }
                proof {
                    assert(self.scopes@ == s.scopes.push((is_b, layer)));
                }
            },
            OpKind::EndMarked => {
                match self.scopes.pop() {
                    Some(top) => {
                        if top.0 && self.in_bricks > 0 {
                            self.in_bricks = self.in_bricks - 1;
                        }
                    },
                    None => {},
                }
                if self.open.is_some() && self.emc_pop.is_none() {
                    self.emc_pop = Some(idx);
                }
            },
            OpKind::PaintXObject => {
                match self.open {
                    Some(b) => {
                        match get_name(&op.operands, 0) {
                            Some(n) => {
                                let name = lossy_string(n.as_slice());
                                match lookup_xobject(xobjs, &name) {
                                    Some(j) => {
                                        self.open = Some(BlockSpan { xobject: Some(j), content_idx: Some(idx), ..b });
                                    },
                                    None => {},
                                }
                            },
                            None => {},
                        }
                    },
                    None => {},
                }
            },
            OpKind::Other => {},
        }
    }
}

/// Finds every brick `q…Q` block of a page's operators: blocks open at a
/// `q` met inside the `bricks` layer while no block is open, and close at
/// the `Q` that restores that `q`'s graphics state.
pub fn walk_page_bricks(ops: &Vec<PdfOp>, props: &Vec<OcgProperty>, xobjs: &Vec<XObjectRef>) -> (r: Vec<BlockSpan>)
    requires
        ops@.len() < usize::MAX,
    ensures
        r@ == brick_blocks(ops@, props@, xobjs@),
{
    let mut w = Walker::new();
    let mut idx: usize = 0;
    while idx < ops.len()
        invariant
            ops@.len() < usize::MAX,
            idx <= ops@.len(),
            w@ == walk(ops@, props@, xobjs@, idx as int),
            w.valid(props@.len() as int),
            walk_bounds(w@, idx as int),
        decreases ops@.len() - idx,
    {
        w.step(props, xobjs, idx, &ops[idx]);
        idx = idx + 1;
    }
    w.blocks
}

/// What holds of one finished block: it opens at a `q`, closes at a later
/// `Q`, its `Do` and its straddle markers lie strictly inside it.
pub open spec fn block_shape(ops: Seq<PdfOp>, xobjs: Seq<XObjectRef>, b: BlockSpan) -> bool {
    &&& b.q_idx < b.end_q_idx < ops.len()
    &&& kind_of(ops[b.q_idx as int].operator@) == OpKind::Save
    &&& kind_of(ops[b.end_q_idx as int].operator@) == OpKind::Restore
    &&& open_shape(ops, xobjs, b, b.end_q_idx as int)
    &&& b.straddle_split matches Some((e, p)) ==> b.q_idx < e < p < b.end_q_idx
        && kind_of(ops[e as int].operator@) == OpKind::EndMarked
        && kind_of(ops[p as int].operator@) == OpKind::BeginMarked
}

/// What holds of a block still open after the first `n` operators.
pub open spec fn open_shape(ops: Seq<PdfOp>, xobjs: Seq<XObjectRef>, b: BlockSpan, n: int) -> bool {
    &&& b.q_idx < n <= ops.len()
    &&& kind_of(ops[b.q_idx as int].operator@) == OpKind::Save
    &&& (b.xobject is Some <==> b.content_idx is Some)
    &&& b.xobject matches Some(j) ==> j < xobjs.len()
    &&& b.content_idx matches Some(c) ==> b.q_idx < c < n && kind_of(ops[c as int].operator@)
        == OpKind::PaintXObject
}

pub open spec fn walk_shape(ops: Seq<PdfOp>, xobjs: Seq<XObjectRef>, s: WalkState, n: int) -> bool {
    &&& forall|i: int| 0 <= i < s.blocks.len() ==> block_shape(ops, xobjs, #[trigger] s.blocks[i])
    &&& forall|i: int, j: int| 0 <= i < j < s.blocks.len() ==> (#[trigger] s.blocks[i]).end_q_idx
        < (#[trigger] s.blocks[j]).q_idx
    &&& forall|i: int| 0 <= i < s.blocks.len() ==> (#[trigger] s.blocks[i]).end_q_idx < n
    &&& s.open matches Some(b) ==> {
        &&& open_shape(ops, xobjs, b, n)
        &&& b.straddle_split is None
        &&& forall|i: int| 0 <= i < s.blocks.len() ==> (#[trigger] s.blocks[i]).end_q_idx < b.q_idx
        &&& s.emc_pop matches Some(e) ==> b.q_idx < e < n && kind_of(ops[e as int].operator@)
            == OpKind::EndMarked
        &&& s.bdc_push matches Some(p) ==> s.emc_pop matches Some(e) && e < p < n && kind_of(
            ops[p as int].operator@,
        ) == OpKind::BeginMarked
    }
}

proof fn lemma_walk_shape(ops: Seq<PdfOp>, props: Seq<OcgProperty>, xobjs: Seq<XObjectRef>, n: int)
    requires
        0 <= n <= ops.len(),
        ops.len() < usize::MAX,
    ensures
        walk_shape(ops, xobjs, walk(ops, props, xobjs, n), n),
    decreases n,
{
    if n > 0 {
        lemma_walk_shape(ops, props, xobjs, n - 1);
        let s = walk(ops, props, xobjs, n - 1);
        let t = walk(ops, props, xobjs, n);
        let op = ops[n - 1];
        if let Some(b) = s.open {
            if let Some(j) = b.xobject {
                assert(j < xobjs.len());
            }
        }
        if kind_of(op.operator@) == OpKind::PaintXObject {
            if let (Some(b), Some(nm)) = (s.open, name_operand(op.operands@, 0)) {
                lemma_find_xobject_range(xobjs, utf8_lossy(nm), xobjs.len() as int);
            }
        }
        if kind_of(op.operator@) == OpKind::Restore && s.open is Some && t.open is None {
            let b = s.open->0;
            let nb = t.blocks.last();
            assert(t.blocks == s.blocks.push(nb));
            assert(nb.q_idx == b.q_idx && nb.end_q_idx == n - 1 && nb.xobject == b.xobject
                && nb.content_idx == b.content_idx);
            assert(open_shape(ops, xobjs, b, n - 1));
            assert(open_shape(ops, xobjs, nb, n - 1));
            assert(block_shape(ops, xobjs, nb));
            assert forall|i: int, j: int| 0 <= i < j < t.blocks.len() implies (#[trigger] t.blocks[i]).end_q_idx
                < (#[trigger] t.blocks[j]).q_idx by {
                if j == t.blocks.len() - 1 {
                    assert(s.blocks[i].end_q_idx < b.q_idx);
                } else {
                    assert(s.blocks[i] == t.blocks[i] && s.blocks[j] == t.blocks[j]);
                }
            }
        }
    }
}

/// The blocks found in a content stream each open at a `q` and close at a
/// later `Q`, follow one another without overlapping, and keep their
/// `Do` and straddle markers strictly inside.
pub proof fn law_blocks_in_order(ops: Seq<PdfOp>, props: Seq<OcgProperty>, xobjs: Seq<XObjectRef>)
    requires
        ops.len() < usize::MAX,
    ensures
        forall|i: int|
            0 <= i < brick_blocks(ops, props, xobjs).len() ==> block_shape(
                ops,
                xobjs,
                #[trigger] brick_blocks(ops, props, xobjs)[i],
            ),
        forall|i: int, j: int|
            0 <= i < j < brick_blocks(ops, props, xobjs).len() ==> (#[trigger] brick_blocks(
                ops,
                props,
                xobjs,
            )[i]).end_q_idx < (#[trigger] brick_blocks(ops, props, xobjs)[j]).q_idx,
{
    lemma_walk_shape(ops, props, xobjs, ops.len() as int);
}

// ── OCG names ───────────────────────────────────────────────────────

pub open spec fn digit_char(d: int) -> char {
    if d == 0 { '0' }
    else if d == 1 { '1' }
    else if d == 2 { '2' }
    else if d == 3 { '3' }
    else if d == 4 { '4' }
    else if d == 5 { '5' }
    else if d == 6 { '6' }
    else if d == 7 { '7' }
    else if d == 8 { '8' }
    else { '9' }
}

/// Decimal digits of `n`, most significant first.
pub open spec fn decimal(n: nat) -> Seq<char>
    decreases n,
{
    if n < 10 {
        seq![digit_char(n as int)]
    } else {
        decimal(n / 10).push(digit_char((n % 10) as int))
    }
}

/// Decimal digits of `n`, padded with leading zeros to at least four.
pub open spec fn pad4(n: nat) -> Seq<char> {
    let d = decimal(n);
    if d.len() < 4 {
        Seq::new((4 - d.len()) as nat, |i: int| '0') + d
    } else {
        d
    }
}

proof fn lemma_decimal_len(n: nat)
    ensures
        decimal(n).len() >= 1,
        n < 10 ==> decimal(n).len() == 1,
        10 <= n < 100 ==> decimal(n).len() == 2,
        100 <= n < 1000 ==> decimal(n).len() == 3,
        n >= 1000 ==> decimal(n).len() >= 4,
    decreases n,
{
    if n >= 10 {
        lemma_decimal_len(n / 10);
    }
}

fn digit_str(d: usize) -> (r: &'static str)
    requires
        d < 10,
    ensures
        r@ == seq![digit_char(d as int)],
{
    if d == 0 {
        proof { reveal_strlit("0"); }
        "0"
    } else if d == 1 {
        proof { reveal_strlit("1"); }
        "1"
    } else if d == 2 {
        proof { reveal_strlit("2"); }
        "2"
    } else if d == 3 {
        proof { reveal_strlit("3"); }
        "3"
    } else if d == 4 {
        proof { reveal_strlit("4"); }
        "4"
    } else if d == 5 {
        proof { reveal_strlit("5"); }
        "5"
    } else if d == 6 {
        proof { reveal_strlit("6"); }
        "6"
    } else if d == 7 {
        proof { reveal_strlit("7"); }
        "7"
    } else if d == 8 {
        proof { reveal_strlit("8"); }
        "8"
    } else {
        proof { reveal_strlit("9"); }
        "9"
    }
}

pub(crate) fn append_decimal(s: &mut String, n: usize)
    ensures
        final(s)@ == old(s)@ + decimal(n as nat),
    decreases n,
{
    if n >= 10 {
        append_decimal(s, n / 10);
    }
    s.append(digit_str(n % 10));
    proof {
        if n >= 10 {
            assert(old(s)@ + decimal(n as nat) =~= old(s)@ + decimal((n / 10) as nat) + seq![digit_char((n % 10) as int)]);
        }
    }
}

/// Appends `n` in decimal, zero-padded to at least four digits.
fn append_pad4(s: &mut String, n: usize)
    ensures
        final(s)@ == old(s)@ + pad4(n as nat),
{
    proof {
        lemma_decimal_len(n as nat);
    }
    let ghost s0 = s@;
    let zeros: usize = if n < 10 { 3 } else if n < 100 { 2 } else if n < 1000 { 1 } else { 0 };
    let mut k: usize = 0;
    while k < zeros
        invariant
            k <= zeros,
            s@ == s0 + Seq::new(k as nat, |i: int| '0'),
        decreases zeros - k,
    {
        proof { reveal_strlit("0"); }
        s.append("0");
        k = k + 1;
        assert(s@ =~= s0 + Seq::new(k as nat, |i: int| '0'));
    }
    append_decimal(s, n);
    assert(s@ =~= s0 + pad4(n as nat));
}

/// The OCG minted for parser brick `i`: `hp_brick_` and `i` padded to four
/// digits.
pub open spec fn brick_ocg_name(i: nat) -> Seq<char> {
    "hp_brick_"@ + pad4(i)
}

/// The property name minted for content block `b`: `hp_p_` and `b`
/// padded to four digits.
pub open spec fn block_prop_name(b: nat) -> Seq<char> {
    "hp_p_"@ + pad4(b)
}

/// The OCG name minted for parser brick `i`.
pub fn brick_ocg(i: usize) -> (r: String)
    ensures
        r@ == brick_ocg_name(i as nat),
{
    let mut s = String::from_str("hp_brick_");
    append_pad4(&mut s, i);
    s
}

/// The property name minted for content block `b`.
pub fn block_prop(b: usize) -> (r: String)
    ensures
        r@ == block_prop_name(b as nat),
{
    let mut s = String::from_str("hp_p_");
    append_pad4(&mut s, b);
    s
}

/// Names of the OCGs minted for a page: one per parser brick, one shared
/// by decoration blocks, one for inline drawing inside the bricks layer
/// but outside any block, and one covering every image block.
pub struct InjectedOcgs {
    pub brick_ocgs: Vec<String>,
    pub decoration_ocg: String,
    pub inline_ocg: String,
    pub image_ocg: String,
}

impl InjectedOcgs {
    /// The names minted for `n_bricks` parser bricks.
    pub fn for_bricks(n_bricks: usize) -> (r: InjectedOcgs)
        ensures
            r.brick_ocgs@.len() == n_bricks,
            forall|i: int| 0 <= i < n_bricks ==> (#[trigger] r.brick_ocgs@[i])@ == brick_ocg_name(i as nat),
            r.decoration_ocg@ == "hp_decoration"@,
            r.inline_ocg@ == "hp_bricks_inline"@,
            r.image_ocg@ == "hp_image"@,
    {
        let mut names: Vec<String> = Vec::new();
        let mut i: usize = 0;
        while i < n_bricks
            invariant
                i <= n_bricks,
                names@.len() == i,
                forall|k: int| 0 <= k < i ==> (#[trigger] names@[k])@ == brick_ocg_name(k as nat),
            decreases n_bricks - i,
        {
            names.push(brick_ocg(i));
            i = i + 1;
        }
        InjectedOcgs {
            brick_ocgs: names,
            decoration_ocg: String::from_str("hp_decoration"),
            inline_ocg: String::from_str("hp_bricks_inline"),
            image_ocg: String::from_str("hp_image"),
        }
    }
}

/// The property a marker's `BDC` names: `hp_p_` and the block number
/// padded to four digits for a block, `hp_p_inline` and `hp_p_image` for
/// the inline and image scopes.
pub open spec fn marker_prop_name(m: Marker) -> Seq<char> {
    match m {
        Marker::Block(b) => block_prop_name(b as nat),
        Marker::Inline => "hp_p_inline"@,
        Marker::Image => "hp_p_image"@,
    }
}

/// The property name for a marker (see `marker_prop_name`).
pub fn marker_prop(m: Marker) -> (r: String)
    ensures
        r@ == marker_prop_name(m),
{
    match m {
        Marker::Block(b) => block_prop(b),
        Marker::Inline => String::from_str("hp_p_inline"),
        Marker::Image => String::from_str("hp_p_image"),
    }
}

proof fn lemma_digit_char(d: int)
    requires
        0 <= d < 10,
    ensures
        digit_char(d) as int - '0' as int == d,
        is_digit(digit_char(d)),
{
}

proof fn lemma_decimal_value(n: nat)
    ensures
        digits_value(decimal(n)) == n,
        forall|k: int| 0 <= k < decimal(n).len() ==> is_digit(#[trigger] decimal(n)[k]),
    decreases n,
{
    let d = decimal(n);
    if n < 10 {
        lemma_digit_char(n as int);
        assert(d.drop_last() =~= Seq::<char>::empty());
        assert(digits_value(Seq::<char>::empty()) == 0);
        assert(digits_value(d) == digits_value(d.drop_last()) * 10 + (d.last() as int - '0' as int));
    } else {
        lemma_decimal_value(n / 10);
        lemma_digit_char((n % 10) as int);
        assert(d.drop_last() =~= decimal(n / 10));
        assert(d.last() == digit_char((n % 10) as int));
        assert(digits_value(d) == digits_value(d.drop_last()) * 10 + (d.last() as int - '0' as int));
        assert forall|k: int| 0 <= k < d.len() implies is_digit(#[trigger] d[k]) by {
            if k < d.len() - 1 {
                assert(d[k] == decimal(n / 10)[k]);
            }
        }
    }
}

proof fn lemma_leading_zeros_value(z: Seq<char>, s: Seq<char>)
    requires
        forall|k: int| 0 <= k < z.len() ==> #[trigger] z[k] == '0',
    ensures
        digits_value(z + s) == digits_value(s),
    decreases z.len() + s.len(),
{
    if s.len() == 0 {
        assert(z + s =~= z);
        if z.len() > 0 {
            lemma_leading_zeros_value(z.drop_last(), s);
            assert(z.drop_last() + s =~= z.drop_last());
            assert(z.last() == '0');
        }
    } else {
        lemma_leading_zeros_value(z, s.drop_last());
        assert((z + s).drop_last() =~= z + s.drop_last());
        assert((z + s).last() == s.last());
    }
}

proof fn lemma_pad4(n: nat)
    ensures
        digits_value(pad4(n)) == n,
        pad4(n).len() >= 4,
        forall|k: int| 0 <= k < pad4(n).len() ==> is_digit(#[trigger] pad4(n)[k]),
{
    lemma_decimal_value(n);
    lemma_decimal_len(n);
    let d = decimal(n);
    if d.len() < 4 {
        let z = Seq::new((4 - d.len()) as nat, |i: int| '0');
        lemma_leading_zeros_value(z, d);
        assert forall|k: int| 0 <= k < pad4(n).len() implies is_digit(#[trigger] pad4(n)[k]) by {
            if k >= z.len() {
                assert(pad4(n)[k] == d[k - z.len()]);
            }
        }
    }
}

proof fn lemma_prefixed_pad4(p: Seq<char>, i: nat, j: nat)
    requires
        p + pad4(i) == p + pad4(j),
    ensures
        i == j,
{
    assert(pad4(i) =~= (p + pad4(i)).skip(p.len() as int));
    assert(pad4(j) =~= (p + pad4(j)).skip(p.len() as int));
    lemma_pad4(i);
    lemma_pad4(j);
}

/// The minted OCG names never collide: distinct parser bricks get
/// distinct names, and none equals the decoration, inline or image OCG.
pub proof fn law_ocg_names_distinct(i: nat, j: nat)
    ensures
        i != j ==> brick_ocg_name(i) != brick_ocg_name(j),
        brick_ocg_name(i) != "hp_decoration"@,
        brick_ocg_name(i) != "hp_bricks_inline"@,
        brick_ocg_name(i) != "hp_image"@,
{
    reveal_strlit("hp_brick_");
    reveal_strlit("hp_decoration");
    reveal_strlit("hp_bricks_inline");
    reveal_strlit("hp_image");
    if brick_ocg_name(i) == brick_ocg_name(j) {
        lemma_prefixed_pad4("hp_brick_"@, i, j);
    }
    assert(brick_ocg_name(i)[3] == 'b');
    assert(brick_ocg_name(i)[8] == '_');
}

/// The properties the rewrite's markers name never collide: distinct
/// markers (two blocks, a block and the inline or image scope, or those
/// two) name distinct properties.
pub proof fn law_marker_props_distinct(m1: Marker, m2: Marker)
    ensures
        m1 != m2 ==> marker_prop_name(m1) != marker_prop_name(m2),
{
    reveal_strlit("hp_p_");
    reveal_strlit("hp_p_inline");
    reveal_strlit("hp_p_image");
    if m1 != m2 && marker_prop_name(m1) == marker_prop_name(m2) {
        match (m1, m2) {
            (Marker::Block(a), Marker::Block(b)) => {
                lemma_prefixed_pad4("hp_p_"@, a as nat, b as nat);
            },
            (Marker::Block(a), _) => {
                lemma_pad4(a as nat);
                assert(is_digit(pad4(a as nat)[0]));
                assert(marker_prop_name(m1)[5] == pad4(a as nat)[0]);
                assert(marker_prop_name(m2)[5] == 'i');
            },
            (_, Marker::Block(b)) => {
                lemma_pad4(b as nat);
                assert(is_digit(pad4(b as nat)[0]));
                assert(marker_prop_name(m2)[5] == pad4(b as nat)[0]);
                assert(marker_prop_name(m1)[5] == 'i');
            },
            _ => {
                assert(marker_prop_name(m1)[6] != marker_prop_name(m2)[6]);
            },
        }
    }
}

// ── block → OCG assignment ──────────────────────────────────────────

/// Which parser brick owns which content blocks; the rest are decorations.
pub struct BrickBlockMap {
    pub brick_to_blocks: Vec<Vec<usize>>,
    pub decoration_blocks: Vec<usize>,
}

/// The OCG a block joins.
#[derive(Debug, PartialEq, Eq, Structural, Clone, Copy)]
pub enum OcgRef {
    Brick(usize),
    Decoration,
}

/// The last of the first `n` bricks that lists block `b`.
pub open spec fn last_brick_with(b2b: Seq<Vec<usize>>, b: usize, n: int) -> Option<int>
    decreases n,
{
    if n <= 0 {
        None
    } else if b2b[n - 1]@.contains(b) {
        Some(n - 1)
    } else {
        last_brick_with(b2b, b, n - 1)
    }
}

/// The OCG block `b` joins: the decoration OCG when it is listed as a
/// decoration, else that of the last brick that lists it (later entries
/// replace earlier ones), else none.
pub open spec fn block_ocg(map: BrickBlockMap, b: usize) -> Option<OcgRef> {
    if map.decoration_blocks@.contains(b) {
        Some(OcgRef::Decoration)
    } else {
        match last_brick_with(map.brick_to_blocks@, b, map.brick_to_blocks@.len() as int) {
            Some(i) => Some(OcgRef::Brick(i as usize)),
            None => None,
        }
    }
}

proof fn lemma_last_brick_with(b2b: Seq<Vec<usize>>, b: usize, n: int)
    requires
        0 <= n <= b2b.len(),
    ensures
        last_brick_with(b2b, b, n) matches Some(i) ==> 0 <= i < n && b2b[i]@.contains(b),
        last_brick_with(b2b, b, n) is None <==> forall|i: int| 0 <= i < n ==> !(#[trigger] b2b[i])@.contains(b),
    decreases n,
{
    if n > 0 {
        lemma_last_brick_with(b2b, b, n - 1);
    }
}

fn vec_contains(v: &Vec<usize>, x: usize) -> (r: bool)
    ensures
        r == v@.contains(x),
{
    let mut i: usize = 0;
    while i < v.len()
        invariant
            i <= v@.len(),
            forall|k: int| 0 <= k < i ==> v@[k] != x,
        decreases v@.len() - i,
    {
        if v[i] == x {
            assert(v@[i as int] == x);
            return true;
        }
        i = i + 1;
    }
    false
}

/// The OCG that content block `b` is wrapped in, if any.
pub fn ocg_of_block(map: &BrickBlockMap, b: usize) -> (r: Option<OcgRef>)
    ensures
        r == block_ocg(*map, b),
{
    if vec_contains(&map.decoration_blocks, b) {
        return Some(OcgRef::Decoration);
    }
    let mut i: usize = map.brick_to_blocks.len();
    while i > 0
        invariant
            i <= map.brick_to_blocks@.len(),
            !map.decoration_blocks@.contains(b),
            last_brick_with(map.brick_to_blocks@, b, map.brick_to_blocks@.len() as int) == last_brick_with(
                map.brick_to_blocks@,
                b,
                i as int,
            ),
        decreases i,
    {
        if vec_contains(&map.brick_to_blocks[i - 1], b) {
            return Some(OcgRef::Brick(i - 1));
        }
        i = i - 1;
    }
    None
}

/// Every block the map mentions, each once, in order of first mention,
/// with the OCG it joins.
pub fn block_ocg_assignment(map: &BrickBlockMap) -> (r: Vec<(usize, OcgRef)>)
    ensures
        forall|i: int, j: int| 0 <= i < j < r@.len() ==> (#[trigger] r@[i]).0 != (#[trigger] r@[j]).0,
        forall|k: int| 0 <= k < r@.len() ==> block_ocg(*map, (#[trigger] r@[k]).0) == Some(r@[k].1),
        forall|b: usize| #[trigger] block_ocg(*map, b) is Some ==> exists|k: int| 0 <= k < r@.len() && (#[trigger] r@[k]).0 == b,
{
    let mut keys: Vec<usize> = Vec::new();
    let mut i: usize = 0;
    let ghost b2b = map.brick_to_blocks@;
    while i < map.brick_to_blocks.len()
        invariant
            b2b == map.brick_to_blocks@,
            i <= b2b.len(),
            forall|x: int, y: int| 0 <= x < y < keys@.len() ==> keys@[x] != keys@[y],
            forall|b: usize| keys@.contains(b) <==> exists|t: int| 0 <= t < i && (#[trigger] b2b[t])@.contains(b),
        decreases b2b.len() - i,
    {
        let row = &map.brick_to_blocks[i];
        let mut j: usize = 0;
        while j < row.len()
            invariant
                b2b == map.brick_to_blocks@,
                i < b2b.len(),
                row@ == b2b[i as int]@,
                j <= row@.len(),
                forall|x: int, y: int| 0 <= x < y < keys@.len() ==> keys@[x] != keys@[y],
                forall|b: usize| keys@.contains(b) <==> (exists|t: int| 0 <= t < i && (#[trigger] b2b[t])@.contains(b)) || row@.take(j as int).contains(b),
            decreases row@.len() - j,
        {
            let x = row[j];
            proof {
                assert(row@.take(j + 1) =~= row@.take(j as int).push(x));
            }
            if !vec_contains(&keys, x) {
                let ghost k0 = keys@;
                keys.push(x);
                proof {
                    assert forall|b: usize| keys@.contains(b) <==> (exists|t: int| 0 <= t < i && (#[trigger] b2b[t])@.contains(b)) || row@.take(j + 1).contains(b) by {
                        if keys@.contains(b) && b != x {
                            let w = choose|w: int| 0 <= w < keys@.len() && #[trigger] keys@[w] == b;
                            assert(k0[w] == b);
                            if row@.take(j as int).contains(b) {
                                let w2 = choose|w2: int| 0 <= w2 < j && #[trigger] row@.take(j as int)[w2] == b;
                                assert(row@.take(j + 1)[w2] == b);
                            }
                        }
                        if b != x && (row@.take(j + 1).contains(b) || exists|t: int| 0 <= t < i && (#[trigger] b2b[t])@.contains(b)) {
                            if row@.take(j + 1).contains(b) {
                                let w = choose|w: int| 0 <= w < j + 1 && #[trigger] row@.take(j + 1)[w] == b;
                                assert(row@.take(j as int)[w] == b);
                            }
                            assert(k0.contains(b));
                            let w = choose|w: int| 0 <= w < k0.len() && #[trigger] k0[w] == b;
                            assert(keys@[w] == b);
                        }
                        if b == x {
                            assert(keys@[keys@.len() - 1] == x);
                            assert(row@.take(j + 1)[j as int] == x);
                        }
                    }
                }
            } else {
                proof {
                    assert forall|b: usize| keys@.contains(b) <==> (exists|t: int| 0 <= t < i && (#[trigger] b2b[t])@.contains(b)) || row@.take(j + 1).contains(b) by {
                        if row@.take(j + 1).contains(b) && b != x {
                            let w = choose|w: int| 0 <= w < j + 1 && #[trigger] row@.take(j + 1)[w] == b;
                            assert(row@.take(j as int)[w] == b);
                        }
                        if row@.take(j as int).contains(b) {
                            let w = choose|w: int| 0 <= w < j && #[trigger] row@.take(j as int)[w] == b;
                            assert(row@.take(j + 1)[w] == b);
                        }
                        if b == x {
                            assert(row@.take(j + 1)[j as int] == x);
                        }
                    }
                }
            }
            j = j + 1;
        }
        proof {
            assert(row@.take(j as int) =~= row@);
            assert forall|b: usize| keys@.contains(b) <==> exists|t: int| 0 <= t < i + 1 && (#[trigger] b2b[t])@.contains(b) by {
                if row@.contains(b) {
                    assert(b2b[i as int]@.contains(b));
                }
                if exists|t: int| 0 <= t < i + 1 && (#[trigger] b2b[t])@.contains(b) {
                    let t = choose|t: int| 0 <= t < i + 1 && (#[trigger] b2b[t])@.contains(b);
                    if t < i {
                        assert(exists|t2: int| 0 <= t2 < i && (#[trigger] b2b[t2])@.contains(b));
                    }
                }
            }
        }
        i = i + 1;
    }
    let deco = &map.decoration_blocks;
    let mut j: usize = 0;
    while j < deco.len()
        invariant
            b2b == map.brick_to_blocks@,
            deco@ == map.decoration_blocks@,
            j <= deco@.len(),
            forall|x: int, y: int| 0 <= x < y < keys@.len() ==> keys@[x] != keys@[y],
            forall|b: usize| keys@.contains(b) <==> (exists|t: int| 0 <= t < b2b.len() && (#[trigger] b2b[t])@.contains(b)) || deco@.take(j as int).contains(b),
        decreases deco@.len() - j,
    {
        let x = deco[j];
        proof {
            assert(deco@.take(j + 1) =~= deco@.take(j as int).push(x));
        }
        if !vec_contains(&keys, x) {
            let ghost k0 = keys@;
            keys.push(x);
            proof {
                assert forall|b: usize| keys@.contains(b) <==> (exists|t: int| 0 <= t < b2b.len() && (#[trigger] b2b[t])@.contains(b)) || deco@.take(j + 1).contains(b) by {
                    if keys@.contains(b) && b != x {
                        let w = choose|w: int| 0 <= w < keys@.len() && #[trigger] keys@[w] == b;
                        assert(k0[w] == b);
                        if deco@.take(j as int).contains(b) {
                            let w2 = choose|w2: int| 0 <= w2 < j && #[trigger] deco@.take(j as int)[w2] == b;
                            assert(deco@.take(j + 1)[w2] == b);
                        }
                    }
                    if b != x && (deco@.take(j + 1).contains(b) || exists|t: int| 0 <= t < b2b.len() && (#[trigger] b2b[t])@.contains(b)) {
                        if deco@.take(j + 1).contains(b) {
                            let w = choose|w: int| 0 <= w < j + 1 && #[trigger] deco@.take(j + 1)[w] == b;
                            assert(deco@.take(j as int)[w] == b);
                        }
                        assert(k0.contains(b));
                        let w = choose|w: int| 0 <= w < k0.len() && #[trigger] k0[w] == b;
                        assert(keys@[w] == b);
                    }
                    if b == x {
                        assert(keys@[keys@.len() - 1] == x);
                        assert(deco@.take(j + 1)[j as int] == x);
                    }
                }
            }
        } else {
            proof {
                assert forall|b: usize| keys@.contains(b) <==> (exists|t: int| 0 <= t < b2b.len() && (#[trigger] b2b[t])@.contains(b)) || deco@.take(j + 1).contains(b) by {
                    if deco@.take(j + 1).contains(b) && b != x {
                        let w = choose|w: int| 0 <= w < j + 1 && #[trigger] deco@.take(j + 1)[w] == b;
                        assert(deco@.take(j as int)[w] == b);
                    }
                    if deco@.take(j as int).contains(b) {
                        let w = choose|w: int| 0 <= w < j && #[trigger] deco@.take(j as int)[w] == b;
                        assert(deco@.take(j + 1)[w] == b);
                    }
                    if b == x {
                        assert(deco@.take(j + 1)[j as int] == x);
                    }
                }
            }
        }
        j = j + 1;
    }
    proof {
        assert(deco@.take(j as int) =~= deco@);
    }
    let mut r: Vec<(usize, OcgRef)> = Vec::new();
    let mut k: usize = 0;
    while k < keys.len()
        invariant
            b2b == map.brick_to_blocks@,
            k <= keys@.len(),
            r@.len() == k,
            forall|x: int, y: int| 0 <= x < y < keys@.len() ==> keys@[x] != keys@[y],
            forall|b: usize| keys@.contains(b) <==> (exists|t: int| 0 <= t < b2b.len() && (#[trigger] b2b[t])@.contains(b)) || map.decoration_blocks@.contains(b),
            forall|x: int| 0 <= x < k ==> (#[trigger] r@[x]).0 == keys@[x] && block_ocg(*map, keys@[x]) == Some(r@[x].1),
        decreases keys@.len() - k,
    {
        let b = keys[k];
        proof {
            assert(keys@.contains(b));
            lemma_last_brick_with(b2b, b, b2b.len() as int);
            if !map.decoration_blocks@.contains(b) {
                let t = choose|t: int| 0 <= t < b2b.len() && (#[trigger] b2b[t])@.contains(b);
                assert(!(forall|i: int| 0 <= i < b2b.len() ==> !(#[trigger] b2b[i])@.contains(b)));
            }
        }
        let o = ocg_of_block(map, b);
        match o {
            Some(g) => {
                r.push((b, g));
            },
            None => {
                r.push((b, OcgRef::Decoration));
                proof { assert(false); }
            },
        }
        k = k + 1;
    }
    proof {
        assert forall|b: usize| #[trigger] block_ocg(*map, b) is Some implies exists|k: int| 0 <= k < r@.len() && (#[trigger] r@[k]).0 == b by {
            lemma_last_brick_with(b2b, b, b2b.len() as int);
            if !map.decoration_blocks@.contains(b) {
                let t = last_brick_with(b2b, b, b2b.len() as int)->0;
                assert(b2b[t]@.contains(b));
            }
            assert(keys@.contains(b));
            let w = choose|w: int| 0 <= w < keys@.len() && #[trigger] keys@[w] == b;
            assert(r@[w].0 == b);
        }
    }
    r
}

/// Counts of a block match, for reporting.
#[derive(Debug, Clone, Copy)]
pub struct ModifiedPdfStats {
    pub pdf_blocks_total: usize,
    pub pdf_blocks_matched: usize,
    pub pdf_blocks_decoration: usize,
    pub bricks_with_at_least_one_block: usize,
    pub bricks_orphaned: usize,
}

/// Number of bricks with at least one block among the first `n`.
pub open spec fn bricks_with_blocks(b2b: Seq<Vec<usize>>, n: int) -> nat
    decreases n,
{
    if n <= 0 {
        0
    } else {
        bricks_with_blocks(b2b, n - 1) + if b2b[n - 1]@.len() > 0 { 1nat } else { 0nat }
    }
}

impl ModifiedPdfStats {
    /// Counts for `n_blocks` content blocks matched by `map` against
    /// `n_placements` parser bricks.
    pub fn from_match(n_blocks: usize, map: &BrickBlockMap, n_placements: usize) -> (r: ModifiedPdfStats)
        requires
            map.decoration_blocks@.len() <= n_blocks,
            bricks_with_blocks(map.brick_to_blocks@, map.brick_to_blocks@.len() as int) <= n_placements,
        ensures
            r.pdf_blocks_total == n_blocks,
            r.pdf_blocks_matched == n_blocks - map.decoration_blocks@.len(),
            r.pdf_blocks_decoration == map.decoration_blocks@.len(),
            r.bricks_with_at_least_one_block == bricks_with_blocks(map.brick_to_blocks@, map.brick_to_blocks@.len() as int),
            r.bricks_orphaned == n_placements - bricks_with_blocks(map.brick_to_blocks@, map.brick_to_blocks@.len() as int),
            r.pdf_blocks_matched + r.pdf_blocks_decoration == r.pdf_blocks_total,
            r.bricks_with_at_least_one_block + r.bricks_orphaned == n_placements,
    {
        let mut with: usize = 0;
        let mut i: usize = 0;
        while i < map.brick_to_blocks.len()
            invariant
                i <= map.brick_to_blocks@.len(),
                with == bricks_with_blocks(map.brick_to_blocks@, i as int),
                with <= i,
            decreases map.brick_to_blocks@.len() - i,
        {
            if map.brick_to_blocks[i].len() > 0 {
                with = with + 1;
            }
            i = i + 1;
        }
        let deco = map.decoration_blocks.len();
        ModifiedPdfStats {
            pdf_blocks_total: n_blocks,
            pdf_blocks_matched: n_blocks - deco,
            pdf_blocks_decoration: deco,
            bricks_with_at_least_one_block: with,
            bricks_orphaned: n_placements - with,
        }
    }
}

// ── content-stream rewrite plan ─────────────────────────────────────

/// The property a marker scope names: a block's own property, the inline
/// property, or the global image property.
#[derive(Debug, PartialEq, Eq, Structural, Clone, Copy)]
pub enum Marker {
    Block(usize),
    Inline,
    Image,
}

/// One entry of the rewritten operator stream: one of the page's operators by
/// index, an inserted `/OC /<property> BDC`, or an inserted `EMC`.
#[derive(Debug, PartialEq, Eq, Structural, Clone, Copy)]
pub enum Emit {
    Op(usize),
    Begin(Marker),
    End,
}

/// The four places where a block brackets the stream.
#[derive(Debug, PartialEq, Eq, Structural, Clone, Copy)]
pub enum BlockEdge {
    Start,
    Finish,
    SplitEmc,
    SplitBdc,
}

pub open spec fn edge_at(b: BlockSpan, e: BlockEdge, idx: int) -> bool {
    match e {
        BlockEdge::Start => b.q_idx == idx,
        BlockEdge::Finish => b.end_q_idx == idx,
        BlockEdge::SplitEmc => b.straddle_split matches Some(p) && p.0 == idx,
        BlockEdge::SplitBdc => b.straddle_split matches Some(p) && p.1 == idx,
    }
}

/// The last of the first `n` blocks with edge `e` at operator `idx`.
pub open spec fn last_edge(blocks: Seq<BlockSpan>, e: BlockEdge, idx: int, n: int) -> Option<int>
    decreases n,
{
    if n <= 0 {
        None
    } else if edge_at(blocks[n - 1], e, idx) {
        Some(n - 1)
    } else {
        last_edge(blocks, e, idx, n - 1)
    }
}

proof fn lemma_last_edge(blocks: Seq<BlockSpan>, e: BlockEdge, idx: int, n: int)
    requires
        0 <= n <= blocks.len(),
    ensures
        last_edge(blocks, e, idx, n) matches Some(i) ==> 0 <= i < n,
    decreases n,
{
    if n > 0 {
        lemma_last_edge(blocks, e, idx, n - 1);
    }
}

fn find_edge(blocks: &Vec<BlockSpan>, e: BlockEdge, idx: usize) -> (r: Option<usize>)
    ensures
        r matches Some(i) ==> i < blocks@.len() && last_edge(blocks@, e, idx as int, blocks@.len() as int) == Some(i as int),
        r is None ==> last_edge(blocks@, e, idx as int, blocks@.len() as int) is None,
{
    let mut i: usize = blocks.len();
    while i > 0
        invariant
            i <= blocks@.len(),
            last_edge(blocks@, e, idx as int, blocks@.len() as int) == last_edge(blocks@, e, idx as int, i as int),
        decreases i,
    {
        let b = blocks[i - 1];
        let hit = match e {
            BlockEdge::Start => b.q_idx == idx,
            BlockEdge::Finish => b.end_q_idx == idx,
            BlockEdge::SplitEmc => match b.straddle_split {
                Some(p) => p.0 == idx,
                None => false,
            },
            BlockEdge::SplitBdc => match b.straddle_split {
                Some(p) => p.1 == idx,
                None => false,
            },
        };
        if hit {
            return Some(i - 1);
        }
        i = i - 1;
    }
    None
}

/// Whether block `i` paints an image XObject.
pub open spec fn block_is_image(blocks: Seq<BlockSpan>, xobjs: Seq<XObjectRef>, i: int) -> bool {
    blocks[i].xobject matches Some(j) && j < xobjs.len() && xobjs[j as int].is_image
}

/// Markers that open block `i`'s scope (and the image scope inside it).
pub open spec fn open_markers(i: int, image: bool) -> Seq<Emit> {
    seq![Emit::Begin(Marker::Block(i as usize))] + if image {
        seq![Emit::Begin(Marker::Image)]
    } else {
        seq![]
    }
}

/// Markers that close block `i`'s scope (the image scope first).
pub open spec fn close_markers(image: bool) -> Seq<Emit> {
    (if image { seq![Emit::End] } else { seq![] }) + seq![Emit::End]
}

/// What the rewrite reads besides the operators: the blocks, the
/// page's XObjects, the block-to-brick map and the property table.
pub struct RewriteInput {
    pub blocks: Seq<BlockSpan>,
    pub xobjs: Seq<XObjectRef>,
    pub map: BrickBlockMap,
    pub props: Seq<OcgProperty>,
}

#[verifier::opaque]
pub open spec fn opens_at(inp: RewriteInput, hit: Option<int>) -> Seq<Emit> {
    match hit {
        Some(i) => if block_ocg(inp.map, i as usize) is Some {
            open_markers(i, block_is_image(inp.blocks, inp.xobjs, i))
        } else {
            seq![]
        },
        None => seq![],
    }
}

#[verifier::opaque]
pub open spec fn closes_at(inp: RewriteInput, hit: Option<int>) -> Seq<Emit> {
    match hit {
        Some(i) => if block_ocg(inp.map, i as usize) is Some {
            close_markers(block_is_image(inp.blocks, inp.xobjs, i))
        } else {
            seq![]
        },
        None => seq![],
    }
}

/// Rewrite state after a prefix of the operators: open bricks-layer
/// scopes, which open scopes are bricks scopes, whether a block is open,
/// whether an inline scope is open, and what has been emitted.
pub struct PlanState {
    pub depth: int,
    pub scopes: Seq<bool>,
    pub block_open: bool,
    pub inline_open: bool,
    pub out: Seq<Emit>,
}

/// Whether operator `idx` is drawn inside the bricks layer but outside
/// every block (and is not itself a bricks-layer bracket).
pub open spec fn step_inline(s: PlanState, ops: Seq<PdfOp>, inp: RewriteInput, idx: int) -> bool {
    let op = ops[idx];
    let k = kind_of(op.operator@);
    let entering = k == OpKind::Save && last_edge(inp.blocks, BlockEdge::Start, idx, inp.blocks.len() as int) is Some;
    let bricks_here = k == OpKind::BeginMarked && bdc_scope(inp.props, op.operands@).0;
    let emc_closes = k == OpKind::EndMarked && s.scopes.len() > 0 && s.scopes.last();
    s.depth > 0 && !bricks_here && !(s.block_open || entering) && !emc_closes
}

/// Markers emitted before operator `idx`.
pub open spec fn step_before(s: PlanState, ops: Seq<PdfOp>, inp: RewriteInput, idx: int) -> Seq<Emit> {
    let should = step_inline(s, ops, inp, idx);
    let n = inp.blocks.len() as int;
    let pre = if should && !s.inline_open {
        seq![Emit::Begin(Marker::Inline)]
    } else if !should && s.inline_open {
        seq![Emit::End]
    } else {
        seq![]
    };
    pre + opens_at(inp, last_edge(inp.blocks, BlockEdge::Start, idx, n)) + closes_at(
        inp,
        last_edge(inp.blocks, BlockEdge::SplitEmc, idx, n),
    )
}

/// Markers emitted after operator `idx`.
pub open spec fn step_after(ops: Seq<PdfOp>, inp: RewriteInput, idx: int) -> Seq<Emit> {
    let n = inp.blocks.len() as int;
    opens_at(inp, last_edge(inp.blocks, BlockEdge::SplitBdc, idx, n)) + closes_at(
        inp,
        last_edge(inp.blocks, BlockEdge::Finish, idx, n),
    )
}

/// One operator of the rewrite. Drawing inside the bricks layer but
/// outside every block is wrapped in the inline scope; each block that
/// has an OCG is wrapped in its own scope (and the image scope when it
/// paints an image), split at its straddle markers.
pub open spec fn plan_step(s: PlanState, ops: Seq<PdfOp>, inp: RewriteInput, idx: int) -> PlanState {
    let op = ops[idx];
    let k = kind_of(op.operator@);
    let n = inp.blocks.len() as int;
    let entering = k == OpKind::Save && last_edge(inp.blocks, BlockEdge::Start, idx, n) is Some;
    let leaving = k == OpKind::Restore && last_edge(inp.blocks, BlockEdge::Finish, idx, n) is Some;
    let bricks_here = k == OpKind::BeginMarked && bdc_scope(inp.props, op.operands@).0;
    let popped = k == OpKind::EndMarked && s.scopes.len() > 0;
    PlanState {
        depth: if bricks_here {
            s.depth + 1
        } else if popped && s.scopes.last() && s.depth > 0 {
            s.depth - 1
        } else {
            s.depth
        },
        scopes: if k == OpKind::BeginMarked {
            s.scopes.push(bricks_here)
        } else if popped {
            s.scopes.drop_last()
        } else {
            s.scopes
        },
        block_open: if entering { true } else if leaving { false } else { s.block_open },
        inline_open: step_inline(s, ops, inp, idx),
        out: s.out + step_before(s, ops, inp, idx) + seq![Emit::Op(idx as usize)] + step_after(ops, inp, idx),
    }
}

pub open spec fn plan(ops: Seq<PdfOp>, inp: RewriteInput, n: int) -> PlanState
    decreases n,
{
    if n <= 0 {
        PlanState { depth: 0, scopes: seq![], block_open: false, inline_open: false, out: seq![] }
    } else {
        plan_step(plan(ops, inp, n - 1), ops, inp, n - 1)
    }
}

/// The rewritten stream: every operator with its markers, and a final
/// `EMC` when an inline scope is still open at the end.
pub open spec fn rewrite_plan(ops: Seq<PdfOp>, inp: RewriteInput) -> Seq<Emit> {
    let s = plan(ops, inp, ops.len() as int);
    s.out + if s.inline_open { seq![Emit::End] } else { seq![] }
}

/// Per-block facts the rewrite reads: whether each block has an OCG and
/// whether it paints an image.
pub open spec fn flags_ok(inp: RewriteInput, has_ocg: Seq<bool>, image: Seq<bool>) -> bool {
    &&& has_ocg.len() == inp.blocks.len()
    &&& image.len() == inp.blocks.len()
    &&& forall|k: int| 0 <= k < inp.blocks.len() ==> #[trigger] has_ocg[k] == (block_ocg(inp.map, k as usize) is Some)
    &&& forall|k: int| 0 <= k < inp.blocks.len() ==> #[trigger] image[k] == block_is_image(inp.blocks, inp.xobjs, k)
}

fn push_opens(out: &mut Vec<Emit>, hit: Option<usize>, has_ocg: &Vec<bool>, image: &Vec<bool>, Ghost(inp): Ghost<RewriteInput>)
    requires
        flags_ok(inp, has_ocg@, image@),
        hit matches Some(i) ==> i < inp.blocks.len(),
    ensures
        final(out)@ == old(out)@ + opens_at(inp, match hit { Some(i) => Some(i as int), None => None }),
{
    reveal(opens_at);
    match hit {
        Some(b) => {
            if has_ocg[b] {
                out.push(Emit::Begin(Marker::Block(b)));
                if image[b] {
                    out.push(Emit::Begin(Marker::Image));
                }
            }
        },
        None => {},
    }
    assert(final(out)@ =~= old(out)@ + opens_at(inp, match hit { Some(i) => Some(i as int), None => None }));
}

fn push_closes(out: &mut Vec<Emit>, hit: Option<usize>, has_ocg: &Vec<bool>, image: &Vec<bool>, Ghost(inp): Ghost<RewriteInput>)
    requires
        flags_ok(inp, has_ocg@, image@),
        hit matches Some(i) ==> i < inp.blocks.len(),
    ensures
        final(out)@ == old(out)@ + closes_at(inp, match hit { Some(i) => Some(i as int), None => None }),
{
    reveal(closes_at);
    match hit {
        Some(b) => {
            if has_ocg[b] {
                if image[b] {
                    out.push(Emit::End);
                }
                out.push(Emit::End);
            }
        },
        None => {},
    }
    assert(final(out)@ =~= old(out)@ + closes_at(inp, match hit { Some(i) => Some(i as int), None => None }));
}

struct Planner {
    depth: usize,
    scopes: Vec<bool>,
    block_open: bool,
    inline_open: bool,
    out: Vec<Emit>,
}

impl Planner {
    spec fn state(&self) -> PlanState {
        PlanState {
            depth: self.depth as int,
            scopes: self.scopes@,
            block_open: self.block_open,
            inline_open: self.inline_open,
            out: self.out@,
        }
    }

    #[verifier::rlimit(80)]
    fn step(
        &mut self,
        ops: &Vec<PdfOp>,
        props: &Vec<OcgProperty>,
        blocks: &Vec<BlockSpan>,
        has_ocg: &Vec<bool>,
        image: &Vec<bool>,
        idx: usize,
        Ghost(inp): Ghost<RewriteInput>,
    )
        requires
            flags_ok(inp, has_ocg@, image@),
            inp.blocks == blocks@,
            inp.props == props@,
            idx < ops@.len(),
            ops@.len() < usize::MAX,
            old(self).depth <= idx,
        ensures
            final(self).state() == plan_step(old(self).state(), ops@, inp, idx as int),
            final(self).depth <= idx + 1,
    {
        let ghost s0 = self.state();
        let op = &ops[idx];
        let k = op_kind(&op.operator);
        let start = find_edge(blocks, BlockEdge::Start, idx);
        let finish = find_edge(blocks, BlockEdge::Finish, idx);
        let split_emc = find_edge(blocks, BlockEdge::SplitEmc, idx);
        let split_bdc = find_edge(blocks, BlockEdge::SplitBdc, idx);
        let entering = k == OpKind::Save && start.is_some();
        let leaving = k == OpKind::Restore && finish.is_some();
        let bricks_here = k == OpKind::BeginMarked && scope_of_bdc(props, &op.operands).0;
        let emc_closes = k == OpKind::EndMarked && self.scopes.len() > 0 && self.scopes[self.scopes.len() - 1];
        let should = self.depth > 0 && !bricks_here && !(self.block_open || entering) && !emc_closes;
        assert(should == step_inline(s0, ops@, inp, idx as int));
        if should && !self.inline_open {
            self.out.push(Emit::Begin(Marker::Inline));
        } else if !should && self.inline_open {
            self.out.push(Emit::End);
        }
        push_opens(&mut self.out, start, has_ocg, image, Ghost(inp));
        push_closes(&mut self.out, split_emc, has_ocg, image, Ghost(inp));
        assert(self.out@ =~= s0.out + step_before(s0, ops@, inp, idx as int));
        self.out.push(Emit::Op(idx));
        push_opens(&mut self.out, split_bdc, has_ocg, image, Ghost(inp));
        push_closes(&mut self.out, finish, has_ocg, image, Ghost(inp));
        assert(self.out@ =~= s0.out + step_before(s0, ops@, inp, idx as int) + seq![Emit::Op(idx)] + step_after(ops@, inp, idx as int));
        if k == OpKind::BeginMarked {
            self.scopes.push(bricks_here);
            if bricks_here {
                self.depth = self.depth + 1;
            }
        } else if k == OpKind::EndMarked && self.scopes.len() > 0 {
            let was = self.scopes[self.scopes.len() - 1];
            self.scopes.pop();
            if was && self.depth > 0 {
                self.depth = self.depth - 1;
            }
        }
        if entering {
            self.block_open = true;
        } else if leaving {
            self.block_open = false;
        }
        self.inline_open = should;
    }
}

/// Plans the rewritten operator stream of a page: the page's operators
/// in order, with the per-block, image and inline `BDC … EMC` markers.
pub fn plan_rewrite(
    ops: &Vec<PdfOp>,
    props: &Vec<OcgProperty>,
    blocks: &Vec<BlockSpan>,
    xobjs: &Vec<XObjectRef>,
    map: &BrickBlockMap,
) -> (r: Vec<Emit>)
    requires
        ops@.len() < usize::MAX,
    ensures
        r@ == rewrite_plan(ops@, RewriteInput { blocks: blocks@, xobjs: xobjs@, map: *map, props: props@ }),
{
    let ghost inp = RewriteInput { blocks: blocks@, xobjs: xobjs@, map: *map, props: props@ };
    let nb = blocks.len();
    let mut has_ocg: Vec<bool> = Vec::new();
    let mut image: Vec<bool> = Vec::new();
    let mut i: usize = 0;
    while i < nb
        invariant
            nb == blocks@.len(),
            i <= nb,
            has_ocg@.len() == i,
            image@.len() == i,
            forall|k: int| 0 <= k < i ==> #[trigger] has_ocg@[k] == (block_ocg(*map, k as usize) is Some),
            forall|k: int| 0 <= k < i ==> #[trigger] image@[k] == block_is_image(blocks@, xobjs@, k),
        decreases nb - i,
    {
        has_ocg.push(ocg_of_block(map, i).is_some());
        let img = match blocks[i].xobject {
            Some(j) => j < xobjs.len() && xobjs[j].is_image,
            None => false,
        };
        image.push(img);
        i = i + 1;
    }
    let mut p = Planner { depth: 0, scopes: Vec::new(), block_open: false, inline_open: false, out: Vec::new() };
    let mut idx: usize = 0;
    while idx < ops.len()
        invariant
            flags_ok(inp, has_ocg@, image@),
            inp == (RewriteInput { blocks: blocks@, xobjs: xobjs@, map: *map, props: props@ }),
            idx <= ops@.len(),
            p.depth <= idx,
            ops@.len() < usize::MAX,
            p.state() == plan(ops@, inp, idx as int),
        decreases ops@.len() - idx,
    {
        p.step(ops, props, blocks, &has_ocg, &image, idx, Ghost(inp));
        idx = idx + 1;
    }
    if p.inline_open {
        p.out.push(Emit::End);
    }
    p.out
}

/// The page operator indices an emitted stream carries, in order.
pub open spec fn op_indices(out: Seq<Emit>) -> Seq<usize>
    decreases out.len(),
{
    if out.len() == 0 {
        seq![]
    } else {
        let rest = op_indices(out.drop_last());
        match out.last() {
            Emit::Op(i) => rest.push(i),
            _ => rest,
        }
    }
}

proof fn lemma_op_indices_concat(a: Seq<Emit>, b: Seq<Emit>)
    ensures
        op_indices(a + b) == op_indices(a) + op_indices(b),
    decreases b.len(),
{
    if b.len() == 0 {
        assert(a + b =~= a);
        assert(op_indices(b) =~= seq![]);
        assert(op_indices(a) + op_indices(b) =~= op_indices(a));
    } else {
        lemma_op_indices_concat(a, b.drop_last());
        assert((a + b).drop_last() =~= a + b.drop_last());
        assert((a + b).last() == b.last());
        match b.last() {
            Emit::Op(i) => {
                assert(op_indices(a) + op_indices(b) =~= (op_indices(a) + op_indices(b.drop_last())).push(i));
            },
            _ => {
                assert(op_indices(a) + op_indices(b) =~= op_indices(a) + op_indices(b.drop_last()));
            },
        }
    }
}

/// A marker sequence carries no operator.
pub open spec fn markers_only(m: Seq<Emit>) -> bool {
    forall|i: int| 0 <= i < m.len() ==> !((#[trigger] m[i]) is Op)
}

proof fn lemma_markers_only(m: Seq<Emit>)
    requires
        markers_only(m),
    ensures
        op_indices(m) == Seq::<usize>::empty(),
    decreases m.len(),
{
    if m.len() > 0 {
        assert(markers_only(m.drop_last())) by {
            assert forall|i: int| 0 <= i < m.drop_last().len() implies !((#[trigger] m.drop_last()[i]) is Op) by {
                assert(m.drop_last()[i] == m[i]);
            }
        }
        lemma_markers_only(m.drop_last());
        assert(!(m[m.len() - 1] is Op));
    }
}

proof fn lemma_step_markers(s: PlanState, ops: Seq<PdfOp>, inp: RewriteInput, idx: int)
    ensures
        markers_only(step_before(s, ops, inp, idx)),
        markers_only(step_after(ops, inp, idx)),
{
    reveal(opens_at);
    reveal(closes_at);
}

proof fn lemma_plan_ops(ops: Seq<PdfOp>, inp: RewriteInput, n: int)
    requires
        0 <= n <= ops.len(),
        ops.len() < usize::MAX,
    ensures
        op_indices(plan(ops, inp, n).out) == Seq::new(n as nat, |i: int| i as usize),
    decreases n,
{
    if n > 0 {
        lemma_plan_ops(ops, inp, n - 1);
        let s = plan(ops, inp, n - 1);
        let idx = n - 1;
        let m1 = step_before(s, ops, inp, idx);
        let m2 = step_after(ops, inp, idx);
        lemma_step_markers(s, ops, inp, idx);
        lemma_markers_only(m1);
        lemma_markers_only(m2);
        let t = plan(ops, inp, n).out;
        assert(t == s.out + m1 + seq![Emit::Op(idx as usize)] + m2);
        lemma_op_indices_concat(s.out, m1);
        lemma_op_indices_concat(s.out + m1, seq![Emit::Op(idx as usize)]);
        lemma_op_indices_concat(s.out + m1 + seq![Emit::Op(idx as usize)], m2);
        assert(op_indices(seq![Emit::Op(idx as usize)]) =~= seq![idx as usize]) by {
            assert(seq![Emit::Op(idx as usize)].drop_last() =~= Seq::<Emit>::empty());
            assert(op_indices(Seq::<Emit>::empty()) =~= Seq::<usize>::empty());
        }
        assert(op_indices(t) =~= Seq::new(n as nat, |i: int| i as usize));
    }
}

/// The rewrite only inserts markers: dropping every inserted `BDC` and
/// `EMC` gives back the page's operators, each once and in order.
pub proof fn law_rewrite_keeps_operators(ops: Seq<PdfOp>, inp: RewriteInput)
    requires
        ops.len() < usize::MAX,
    ensures
        op_indices(rewrite_plan(ops, inp)) == Seq::new(ops.len(), |i: int| i as usize),
{
    lemma_plan_ops(ops, inp, ops.len() as int);
    let s = plan(ops, inp, ops.len() as int);
    let tail: Seq<Emit> = if s.inline_open { seq![Emit::End] } else { seq![] };
    assert(markers_only(tail));
    lemma_markers_only(tail);
    lemma_op_indices_concat(s.out, tail);
    assert(op_indices(s.out) + op_indices(tail) =~= op_indices(s.out));
}

fn append_all(base: &Vec<u64>, extra: &Vec<u64>) -> (r: Vec<u64>)
    ensures
        r@ == base@ + extra@,
{
    let mut r: Vec<u64> = Vec::new();
    let mut i: usize = 0;
    while i < base.len()
        invariant
            i <= base@.len(),
            r@ == base@.take(i as int),
        decreases base@.len() - i,
    {
        r.push(base[i]);
        i = i + 1;
        assert(r@ =~= base@.take(i as int));
    }
    assert(base@.take(i as int) =~= base@);
    let mut j: usize = 0;
    while j < extra.len()
        invariant
            j <= extra@.len(),
            r@ == base@ + extra@.take(j as int),
        decreases extra@.len() - j,
    {
        r.push(extra[j]);
        j = j + 1;
        assert(r@ =~= base@ + extra@.take(j as int));
    }
    assert(extra@.take(j as int) =~= extra@);
    r
}

/// Registers new optional content groups with a document's catalog: they
/// are appended, in the order given, both to the list of all groups and to
/// the default configuration's display order. The entries already there
/// are kept, in their order.
pub fn register_layers(old_ocgs: Vec<u64>, old_order: Vec<u64>, new: Vec<u64>) -> (r: (Vec<u64>, Vec<u64>))
    ensures
        r.0@ == old_ocgs@ + new@,
        r.1@ == old_order@ + new@,
{
    let ocgs = append_all(&old_ocgs, &new);
    let order = append_all(&old_order, &new);
    (ocgs, order)
}

} // verus!
