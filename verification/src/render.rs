//! Pixel scans over rendered layers: where the first opaque column and
//! row lie, the offset between rendered and expected artwork, and the
//! tight bounding box of visible pixels.
use vstd::prelude::*;
use crate::raster::Raster;
use crate::types::Brick;
use crate::text::{chars_or_empty, text_or_empty};
use crate::version::{parse_u64, parse_u64_chars};

verus! {

/// Pixel `(x, y)` counts as opaque for offset detection (alpha above 30).
pub open spec fn opaque(r: &Raster, x: int, y: int) -> bool {
    r.sample(x, y, 3) > 30
}

pub open spec fn col_opaque(r: &Raster, x: int) -> bool {
    exists|y: int| 0 <= y < r.height && #[trigger] opaque(r, x, y)
}

pub open spec fn row_opaque(r: &Raster, y: int) -> bool {
    exists|x: int| 0 <= x < r.width && #[trigger] opaque(r, x, y)
}

/// The leftmost column holding an opaque pixel.
pub open spec fn first_opaque_col(r: &Raster) -> Option<int> {
    if exists|x: int| 0 <= x < r.width && #[trigger] col_opaque(r, x) {
        Some(choose|x: int| 0 <= x < r.width && col_opaque(r, x) && forall|x2: int| 0 <= x2 < x ==> !#[trigger] col_opaque(r, x2))
    } else {
        None
    }
}

/// The topmost row holding an opaque pixel.
pub open spec fn first_opaque_row(r: &Raster) -> Option<int> {
    if exists|y: int| 0 <= y < r.height && #[trigger] row_opaque(r, y) {
        Some(choose|y: int| 0 <= y < r.height && row_opaque(r, y) && forall|y2: int| 0 <= y2 < y ==> !#[trigger] row_opaque(r, y2))
    } else {
        None
    }
}

fn first_col(r: &Raster) -> (c: Option<u32>)
    requires
        r.wf(),
    ensures
        match c {
            Some(x) => x < r.width && col_opaque(r, x as int) && forall|x2: int| 0 <= x2 < x ==> !#[trigger] col_opaque(r, x2),
            None => forall|x: int| 0 <= x < r.width ==> !#[trigger] col_opaque(r, x),
        },
{
    let mut x: u32 = 0;
    while x < r.width
        invariant
            r.wf(),
            x <= r.width,
            forall|x2: int| 0 <= x2 < x ==> !#[trigger] col_opaque(r, x2),
        decreases r.width - x,
    {
        let mut y: u32 = 0;
        while y < r.height
            invariant
                r.wf(),
                x < r.width,
                y <= r.height,
                forall|x2: int| 0 <= x2 < x ==> !#[trigger] col_opaque(r, x2),
                forall|y2: int| 0 <= y2 < y ==> !#[trigger] opaque(r, x as int, y2),
            decreases r.height - y,
        {
            if r.alpha_at(x, y) > 30 {
                assert(opaque(r, x as int, y as int));
                return Some(x);
            }
            y = y + 1;
        }
        x = x + 1;
    }
    None
}

fn first_row(r: &Raster) -> (c: Option<u32>)
    requires
        r.wf(),
    ensures
        match c {
            Some(y) => y < r.height && row_opaque(r, y as int) && forall|y2: int| 0 <= y2 < y ==> !#[trigger] row_opaque(r, y2),
            None => forall|y: int| 0 <= y < r.height ==> !#[trigger] row_opaque(r, y),
        },
{
    let mut y: u32 = 0;
    while y < r.height
        invariant
            r.wf(),
            y <= r.height,
            forall|y2: int| 0 <= y2 < y ==> !#[trigger] row_opaque(r, y2),
        decreases r.height - y,
    {
        let mut x: u32 = 0;
        while x < r.width
            invariant
                r.wf(),
                y < r.height,
                x <= r.width,
                forall|y2: int| 0 <= y2 < y ==> !#[trigger] row_opaque(r, y2),
                forall|x2: int| 0 <= x2 < x ==> !#[trigger] opaque(r, x2, y as int),
            decreases r.width - x,
        {
            if r.alpha_at(x, y) > 30 {
                assert(opaque(r, x as int, y as int));
                return Some(y);
            }
            x = x + 1;
        }
        y = y + 1;
    }
    None
}

/// Offset between where artwork was expected and where the first opaque
/// column and row of a rendered layer lie; drifts of at most one pixel on
/// both axes count as none.
pub open spec fn pdf_offset(r: &Raster, expected_x: int, expected_y: int) -> (int, int) {
    match (first_opaque_col(r), first_opaque_row(r)) {
        (Some(c), Some(w)) => {
            let dx = expected_x - c;
            let dy = expected_y - w;
            if dx > 1 || dx < -1 || dy > 1 || dy < -1 {
                (dx, dy)
            } else {
                (0, 0)
            }
        },
        _ => (0, 0),
    }
}

proof fn lemma_first_col(r: &Raster, x: int)
    requires
        0 <= x < r.width,
        col_opaque(r, x),
        forall|x2: int| 0 <= x2 < x ==> !#[trigger] col_opaque(r, x2),
    ensures
        first_opaque_col(r) == Some(x),
{
    let c = first_opaque_col(r)->0;
    assert(0 <= c < r.width && col_opaque(r, c) && forall|x2: int| 0 <= x2 < c ==> !#[trigger] col_opaque(r, x2));
    if c < x {
        assert(!col_opaque(r, c));
    }
    if x < c {
        assert(!col_opaque(r, x));
    }
}

proof fn lemma_first_row(r: &Raster, y: int)
    requires
        0 <= y < r.height,
        row_opaque(r, y),
        forall|y2: int| 0 <= y2 < y ==> !#[trigger] row_opaque(r, y2),
    ensures
        first_opaque_row(r) == Some(y),
{
    let c = first_opaque_row(r)->0;
    assert(0 <= c < r.height && row_opaque(r, c) && forall|y2: int| 0 <= y2 < c ==> !#[trigger] row_opaque(r, y2));
    if c < y {
        assert(!row_opaque(r, c));
    }
    if y < c {
        assert(!row_opaque(r, y));
    }
}

/// The offset of a rendered bricks layer against the expected top-left of
/// the artwork.
pub fn compute_pdf_offset(bricks_layer: &Raster, expected_min_x: i32, expected_min_y: i32) -> (r: (i32, i32))
    requires
        bricks_layer.wf(),
        bricks_layer.width <= 0x8000_0000,
        bricks_layer.height <= 0x8000_0000,
        first_opaque_col(bricks_layer) matches Some(c) ==> i32::MIN < expected_min_x - c,
        first_opaque_row(bricks_layer) matches Some(w) ==> i32::MIN < expected_min_y - w,
    ensures
        r.0 == pdf_offset(bricks_layer, expected_min_x as int, expected_min_y as int).0,
        r.1 == pdf_offset(bricks_layer, expected_min_x as int, expected_min_y as int).1,
{
    let col = first_col(bricks_layer);
    let row = first_row(bricks_layer);
    proof {
        match col {
            Some(c) => lemma_first_col(bricks_layer, c as int),
            None => {},
        }
        match row {
            Some(w) => lemma_first_row(bricks_layer, w as int),
            None => {},
        }
    }
    match (col, row) {
        (Some(c), Some(w)) => {
            let dx: i32 = expected_min_x - (c as i32);
            let dy: i32 = expected_min_y - (w as i32);
            if dx > 1 || dx < -1 || dy > 1 || dy < -1 {
                (dx, dy)
            } else {
                (0, 0)
            }
        },
        _ => (0, 0),
    }
}

/// The offset is "expected minus found" on each axis, where the found
/// corner is the leftmost column and topmost row holding an opaque pixel.
/// It snaps to zero only when both drifts are at most one pixel; a larger
/// drift on either axis reports both drifts as they are. A layer with no
/// opaque pixel has no offset.
pub proof fn law_offset_is_expected_minus_found(r: &Raster, ex: int, ey: int, c: int, w: int)
    requires
        0 <= c < r.width,
        0 <= w < r.height,
        exists|y: int| 0 <= y < r.height && #[trigger] opaque(r, c, y),
        exists|x: int| 0 <= x < r.width && #[trigger] opaque(r, x, w),
        forall|x: int, y: int| 0 <= x < c && 0 <= y < r.height ==> !#[trigger] opaque(r, x, y),
        forall|x: int, y: int| 0 <= x < r.width && 0 <= y < w ==> !#[trigger] opaque(r, x, y),
    ensures
        abs_i(ex - c) > 1 || abs_i(ey - w) > 1 ==> pdf_offset(r, ex, ey) == (ex - c, ey - w),
        abs_i(ex - c) <= 1 && abs_i(ey - w) <= 1 ==> pdf_offset(r, ex, ey) == (0int, 0int),
{
    assert(col_opaque(r, c));
    assert(row_opaque(r, w));
    assert forall|x2: int| 0 <= x2 < c implies !#[trigger] col_opaque(r, x2) by {
        if col_opaque(r, x2) {
            let y = choose|y: int| 0 <= y < r.height && #[trigger] opaque(r, x2, y);
            assert(!opaque(r, x2, y));
        }
    }
    assert forall|y2: int| 0 <= y2 < w implies !#[trigger] row_opaque(r, y2) by {
        if row_opaque(r, y2) {
            let x = choose|x: int| 0 <= x < r.width && #[trigger] opaque(r, x, y2);
            assert(!opaque(r, x, y2));
        }
    }
    lemma_first_col(r, c);
    lemma_first_row(r, w);
}

/// A layer without any opaque pixel has no offset.
pub proof fn law_offset_of_blank_layer(r: &Raster, ex: int, ey: int)
    requires
        forall|x: int, y: int| 0 <= x < r.width && 0 <= y < r.height ==> !#[trigger] opaque(r, x, y),
    ensures
        pdf_offset(r, ex, ey) == (0int, 0int),
{
    assert forall|x: int| 0 <= x < r.width implies !#[trigger] col_opaque(r, x) by {
        if col_opaque(r, x) {
            let y = choose|y: int| 0 <= y < r.height && #[trigger] opaque(r, x, y);
            assert(!opaque(r, x, y));
        }
    }
}

/// Absolute value.
pub open spec fn abs_i(v: int) -> int {
    if v < 0 { -v } else { v }
}

// ── visible bounding box ────────────────────────────────────────────

/// Pixel `(x, y)` is visible (non-zero alpha).
pub open spec fn visible(r: &Raster, x: int, y: int) -> bool {
    r.sample(x, y, 3) > 0
}

pub open spec fn in_image(r: &Raster, x: int, y: int) -> bool {
    0 <= x < r.width && 0 <= y < r.height
}

/// `(x, y, w, h)` is the tight box around every visible pixel: all of them
/// lie inside it and each of its four sides touches one.
pub open spec fn tight_alpha_box(r: &Raster, b: (u32, u32, u32, u32)) -> bool {
    let (x0, y0, bw, bh) = b;
    &&& bw > 0 && bh > 0
    &&& forall|x: int, y: int| in_image(r, x, y) && #[trigger] visible(r, x, y) ==> x0 <= x < x0 + bw && y0 <= y < y0 + bh
    &&& exists|x: int, y: int| in_image(r, x, y) && #[trigger] visible(r, x, y) && x == x0
    &&& exists|x: int, y: int| in_image(r, x, y) && #[trigger] visible(r, x, y) && y == y0
    &&& exists|x: int, y: int| in_image(r, x, y) && #[trigger] visible(r, x, y) && x == x0 + bw - 1
    &&& exists|x: int, y: int| in_image(r, x, y) && #[trigger] visible(r, x, y) && y == y0 + bh - 1
}

/// Pixel `(x, y)` comes before `(sx, sy)` in row-major order.
pub open spec fn scanned(x: int, y: int, sx: int, sy: int) -> bool {
    y < sy || (y == sy && x < sx)
}

/// The tight bounding box of the visible pixels, or `None` when none is.
pub fn alpha_bbox(img: &Raster) -> (r: Option<(u32, u32, u32, u32)>)
    requires
        img.wf(),
    ensures
        match r {
            Some(b) => tight_alpha_box(img, b),
            None => forall|x: int, y: int| in_image(img, x, y) ==> !#[trigger] visible(img, x, y),
        },
{
    let w = img.width;
    let h = img.height;
    if w == 0 || h == 0 {
        return None;
    }
    let mut min_x: u32 = w;
    let mut min_y: u32 = h;
    let mut max_x: u32 = 0;
    let mut max_y: u32 = 0;
    let ghost mut found = false;
    let mut y: u32 = 0;
    while y < h
        invariant
            img.wf(),
            w == img.width,
            h == img.height,
            y <= h,
            min_x <= w,
            min_y <= h,
            max_x <= w,
            max_y <= h,
            !found ==> min_x == w && min_y == h && max_x == 0 && max_y == 0,
            !found ==> forall|px: int, py: int| in_image(img, px, py) && scanned(px, py, 0, y as int) ==> !#[trigger] visible(img, px, py),
            found ==> min_x < max_x && min_y < max_y,
            forall|px: int, py: int| in_image(img, px, py) && scanned(px, py, 0, y as int) && #[trigger] visible(img, px, py) ==> min_x <= px < max_x && min_y <= py < max_y,
            found ==> exists|px: int, py: int| in_image(img, px, py) && #[trigger] visible(img, px, py) && px == min_x,
            found ==> exists|px: int, py: int| in_image(img, px, py) && #[trigger] visible(img, px, py) && py == min_y,
            found ==> exists|px: int, py: int| in_image(img, px, py) && #[trigger] visible(img, px, py) && px == max_x - 1,
            found ==> exists|px: int, py: int| in_image(img, px, py) && #[trigger] visible(img, px, py) && py == max_y - 1,
        decreases h - y,
    {
        let mut x: u32 = 0;
        while x < w
            invariant
                img.wf(),
                w == img.width,
                h == img.height,
                y < h,
                x <= w,
                min_x <= w,
                min_y <= h,
                max_x <= w,
                max_y <= h,
                !found ==> min_x == w && min_y == h && max_x == 0 && max_y == 0,
                !found ==> forall|px: int, py: int| in_image(img, px, py) && scanned(px, py, x as int, y as int) ==> !#[trigger] visible(img, px, py),
                found ==> min_x < max_x && min_y < max_y,
                forall|px: int, py: int| in_image(img, px, py) && scanned(px, py, x as int, y as int) && #[trigger] visible(img, px, py) ==> min_x <= px < max_x && min_y <= py < max_y,
                found ==> exists|px: int, py: int| in_image(img, px, py) && #[trigger] visible(img, px, py) && px == min_x,
                found ==> exists|px: int, py: int| in_image(img, px, py) && #[trigger] visible(img, px, py) && py == min_y,
                found ==> exists|px: int, py: int| in_image(img, px, py) && #[trigger] visible(img, px, py) && px == max_x - 1,
                found ==> exists|px: int, py: int| in_image(img, px, py) && #[trigger] visible(img, px, py) && py == max_y - 1,
            decreases w - x,
        {
            if img.alpha_at(x, y) > 0 {
                proof {
                    assert(visible(img, x as int, y as int));
                }
                if x < min_x {
                    min_x = x;
                }
                if y < min_y {
                    min_y = y;
                }
                if x + 1 > max_x {
                    max_x = x + 1;
                }
                if y + 1 > max_y {
                    max_y = y + 1;
                }
                proof {
                    found = true;
                }
            }
            x = x + 1;
        }
        y = y + 1;
    }
    if max_x <= min_x || max_y <= min_y {
        None
    } else {
        Some((min_x, min_y, max_x - min_x, max_y - min_y))
    }
}

// ── embedded raster data ────────────────────────────────────────────

/// What the image-header pattern — a six-number matrix `[a b c d e f]`,
/// then width, height and depth, then `Xh` — captures at its leftmost
/// match: the width and height digit runs.
pub uninterp spec fn xh_dims_capture(block: Seq<u8>) -> Option<(Seq<u8>, Seq<u8>)>;

/// `regex::bytes::Regex::captures` with the image-header pattern: groups 1
/// and 2 (width and height).
#[verifier::external_body]
fn capture_xh_dims(block: &[u8]) -> (r: Option<(Vec<u8>, Vec<u8>)>)
    ensures
        match r {
            Some((a, b)) => xh_dims_capture(block@) == Some((a@, b@)),
            None => xh_dims_capture(block@) is None,
        },
{
    let re = regex::bytes::Regex::new(
        r"\[\s*-?\d+(?:\.\d+)?\s+-?\d+(?:\.\d+)?\s+-?\d+(?:\.\d+)?\s+-?\d+(?:\.\d+)?\s+-?\d+(?:\.\d+)?\s+-?\d+(?:\.\d+)?\s*\]\s+(\d+)\s+(\d+)\s+\d+\s+Xh",
    ).expect("static regex pattern is valid");
    re.captures(block).map(|c| (c[1].to_vec(), c[2].to_vec()))
}

/// Where the leftmost match of the data-start pattern — `%%BeginData:`,
/// a byte count, the rest of that line ending in `XI`, then line breaks —
/// ends.
pub uninterp spec fn xi_data_start(block: Seq<u8>) -> Option<int>;

/// `regex::bytes::Regex::find` with the data-start pattern: the end
/// offset of its leftmost match, which lies within the block.
#[verifier::external_body]
fn find_xi_data_start(block: &[u8]) -> (r: Option<usize>)
    ensures
        match r {
            Some(e) => xi_data_start(block@) == Some(e as int) && e <= block@.len(),
            None => xi_data_start(block@) is None,
        },
{
    let re = regex::bytes::Regex::new(r"%%BeginData:\s*\d+[^\r\n]*XI[\r\n]+").expect("static regex pattern is valid");
    re.find(block).map(|m| m.end())
}

/// `usize::from_str` of a byte run that must be UTF-8.
pub open spec fn parse_dim(b: Seq<u8>) -> Option<int> {
    match parse_u64(text_or_empty(b)) {
        Some(v) => if v <= usize::MAX { Some(v as int) } else { None },
        None => None,
    }
}

fn parse_dim_bytes(b: &Vec<u8>) -> (r: Option<usize>)
    ensures
        match r {
            Some(v) => parse_dim(b@) == Some(v as int),
            None => parse_dim(b@) is None,
        },
{
    let cs = chars_or_empty(b.as_slice());
    match parse_u64_chars(&cs) {
        Some(v) => {
            if v <= usize::MAX as u64 {
                Some(v as usize)
            } else {
                None
            }
        },
        None => None,
    }
}

/// The header captures as plain byte strings.
pub open spec fn dims_view(dims: Option<(Vec<u8>, Vec<u8>)>) -> Option<(Seq<u8>, Seq<u8>)> {
    match dims {
        Some((a, b)) => Some((a@, b@)),
        None => None,
    }
}

pub open spec fn start_view(start: Option<usize>) -> Option<int> {
    match start {
        Some(e) => Some(e as int),
        None => None,
    }
}

/// `(width, height, start)` from the header's width and height digits and
/// the data start: both dimensions must parse and be nonzero.
pub open spec fn layout_of(dims: Option<(Seq<u8>, Seq<u8>)>, start: Option<int>) -> Option<(int, int, int)> {
    match dims {
        Some((cw, ch)) => match (parse_dim(cw), parse_dim(ch)) {
            (Some(w), Some(h)) => if w == 0 || h == 0 {
                None
            } else {
                match start {
                    Some(s) => Some((w, h, s)),
                    None => None,
                }
            },
            _ => None,
        },
        None => None,
    }
}

/// `(width, height, start)` of an embedded RGB raster: its nonzero
/// dimensions and where its bytes begin.
pub open spec fn raster_layout(block: Seq<u8>) -> Option<(int, int, int)> {
    layout_of(xh_dims_capture(block), xi_data_start(block))
}

/// A layout's sizes fit the machine: the byte count and its end fit in
/// `usize`, the dimensions in `u32`.
pub open spec fn layout_fits(l: Option<(int, int, int)>) -> bool {
    match l {
        Some((w, h, s)) => s + 3 * w * h <= usize::MAX && 4 * w * h <= usize::MAX && w <= u32::MAX && h <= u32::MAX,
        None => true,
    }
}

pub open spec fn raster_layout_fits(block: Seq<u8>) -> bool {
    layout_fits(raster_layout(block))
}

/// Pixel `p` of an RGB run with white made transparent: channels copied,
/// alpha 0 when all three exceed 248, else 255.
pub open spec fn rgb_pixel_rgba(rgb: Seq<u8>, i: int) -> u8 {
    let p = i / 4;
    let c = i % 4;
    if c < 3 {
        rgb[3 * p + c]
    } else if rgb[3 * p] > 248 && rgb[3 * p + 1] > 248 && rgb[3 * p + 2] > 248 {
        0
    } else {
        255
    }
}

/// The raster a layout reads from a block: its RGB bytes with near-white
/// made transparent, none when the bytes run past the block.
pub open spec fn raster_of(block: Seq<u8>, l: Option<(int, int, int)>) -> Option<(int, int, Seq<u8>)> {
    match l {
        Some((w, h, s)) => if s + 3 * w * h > block.len() {
            None
        } else {
            let rgb = block.subrange(s, s + 3 * w * h);
            Some((w, h, Seq::new((4 * w * h) as nat, |i: int| rgb_pixel_rgba(rgb, i))))
        },
        None => None,
    }
}

/// The embedded raster of a brick's PostScript block.
pub open spec fn embedded_raster(block: Seq<u8>) -> Option<(int, int, Seq<u8>)> {
    raster_of(block, raster_layout(block))
}

/// Reads a brick's embedded raster given what the header pattern captured
/// (the width and height digits) and where the data starts: RGBA, with
/// near-white pixels transparent.
pub fn raster_from_captures(block_data: &[u8], dims: Option<(Vec<u8>, Vec<u8>)>, data_start: Option<usize>) -> (r:
    Option<Raster>)
    requires
        layout_fits(layout_of(dims_view(dims), start_view(data_start))),
    ensures
        match raster_of(block_data@, layout_of(dims_view(dims), start_view(data_start))) {
            Some((w, h, px)) => r matches Some(img) && img.width == w && img.height == h && img.rgba@ == px && img.wf(),
            None => r is None,
        },
{
    let (cw, ch) = match dims {
        Some(c) => c,
        None => return None,
    };
    let w = match parse_dim_bytes(&cw) {
        Some(v) => v,
        None => return None,
    };
    let h = match parse_dim_bytes(&ch) {
        Some(v) => v,
        None => return None,
    };
    if w == 0 || h == 0 {
        return None;
    }
    let start = match data_start {
        Some(e) => e,
        None => return None,
    };
    proof {
        assert(0 <= w * h) by (nonlinear_arith) requires 0 <= w, 0 <= h;
        assert(3 * w * h == (w * h) * 3) by (nonlinear_arith);
        assert(4 * w * h == (w * h) * 4) by (nonlinear_arith);
    }
    let expected: usize = w * h * 3;
    if start + expected > block_data.len() {
        return None;
    }
    let ghost rgb = block_data@.subrange(start as int, start + expected);
    let n: usize = w * h;
    let bl = block_data.len();
    let mut out: Vec<u8> = Vec::new();
    let mut p: usize = 0;
    while p < n
        invariant
            n == w * h,
            bl == block_data@.len(),
            start + 3 * n <= block_data@.len(),
            rgb == block_data@.subrange(start as int, start + 3 * n),
            p <= n,
            out@.len() == 4 * p,
            forall|i: int| 0 <= i < 4 * p ==> #[trigger] out@[i] == rgb_pixel_rgba(rgb, i),
        decreases n - p,
    {
        proof {
            assert(3 * p + 3 <= 3 * n) by (nonlinear_arith) requires p < n;
        }
        let r = block_data[start + 3 * p];
        let g = block_data[start + 3 * p + 1];
        let b = block_data[start + 3 * p + 2];
        let a: u8 = if r > 248 && g > 248 && b > 248 { 0 } else { 255 };
        out.push(r);
        out.push(g);
        out.push(b);
        out.push(a);
        p = p + 1;
        proof {
            assert forall|i: int| 0 <= i < 4 * p implies #[trigger] out@[i] == rgb_pixel_rgba(rgb, i) by {
                if i >= 4 * (p - 1) {
                    assert(i / 4 == p - 1);
                    assert(rgb[3 * (p - 1)] == r && rgb[3 * (p - 1) + 1] == g && rgb[3 * (p - 1) + 2] == b);
                }
            }
        }
    }
    proof {
        assert(out@ =~= Seq::new((4 * w * h) as nat, |i: int| rgb_pixel_rgba(rgb, i)));
        assert(4 * (w as u32 as int) * (h as u32 as int) == 4 * w * h);
    }
    Some(Raster { width: w as u32, height: h as u32, rgba: out })
}

/// Reads the raster embedded in a brick's PostScript block (an `Xh` image
/// header followed by `XI` data) as RGBA, near-white pixels transparent.
pub fn extract_raster_image(block_data: &[u8]) -> (r: Option<Raster>)
    requires
        raster_layout_fits(block_data@),
    ensures
        match embedded_raster(block_data@) {
            Some((w, h, px)) => r matches Some(img) && img.width == w && img.height == h && img.rgba@ == px && img.wf(),
            None => r is None,
        },
{
    let dims = capture_xh_dims(block_data);
    let start = find_xi_data_start(block_data);
    assert(dims_view(dims) == xh_dims_capture(block_data@));
    assert(start_view(start) == xi_data_start(block_data@));
    raster_from_captures(block_data, dims, start)
}

/// Reads an embedded raster whatever the block's sizes: `None` when they
/// do not fit the machine (where the reading would overflow), else what
/// `extract_raster_image` reads.
pub fn try_extract_raster_image(block_data: &[u8]) -> (r: Option<Option<Raster>>)
    ensures
        r is Some <==> raster_layout_fits(block_data@),
        r matches Some(o) ==> match embedded_raster(block_data@) {
            Some((w, h, px)) => o matches Some(img) && img.width == w && img.height == h && img.rgba@ == px,
            None => o is None,
        },
{
    let dims = capture_xh_dims(block_data);
    let start = find_xi_data_start(block_data);
    assert(dims_view(dims) == xh_dims_capture(block_data@));
    assert(start_view(start) == xi_data_start(block_data@));
    if let (Some((cw, ch)), Some(s)) = (&dims, start) {
        if let (Some(w), Some(h)) = (parse_dim_bytes(cw), parse_dim_bytes(ch)) {
            if w != 0 && h != 0 {
                assert(raster_layout(block_data@) == Some((w as int, h as int, s as int)));
                if w as u64 > 0xffff_ffffu64 || h as u64 > 0xffff_ffffu64 {
                    return None;
                }
                proof {
                    assert((w as int) * (h as int) <= 0xffff_ffff * 0xffff_ffff) by (nonlinear_arith)
                        requires
                            0 <= w <= 0xffff_ffff,
                            0 <= h <= 0xffff_ffff,
                    ;
                    assert(0 <= (w as int) * (h as int)) by (nonlinear_arith) requires 0 <= w, 0 <= h;
                    assert(3 * w * h == 3 * ((w as int) * (h as int))) by (nonlinear_arith);
                    assert(4 * w * h == 4 * ((w as int) * (h as int))) by (nonlinear_arith);
                }
                let n: u128 = (w as u128) * (h as u128);
                if (s as u128) + 3 * n > usize::MAX as u128 || 4 * n > usize::MAX as u128 {
                    return None;
                }
            }
        }
    }
    Some(raster_from_captures(block_data, dims, start))
}

// ── covered bricks ──────────────────────────────────────────────────

pub open spec fn min_u(a: int, b: int) -> int {
    if a <= b { a } else { b }
}

/// Opaque pixels (alpha above 30) of `img` in row `y`, columns `[x0, x)`.
pub open spec fn row_opaque_count(img: Raster, x0: int, x: int, y: int) -> nat
    decreases x - x0,
{
    if x <= x0 {
        0
    } else {
        row_opaque_count(img, x0, x - 1, y) + if img.sample(x - 1, y, 3) > 30 { 1nat } else { 0nat }
    }
}

/// Opaque pixels of `img` in rows `[y0, y)`, columns `[x0, x1)`.
pub open spec fn opaque_count(img: Raster, x0: int, x1: int, y0: int, y: int) -> nat
    decreases y - y0,
{
    if y <= y0 {
        0
    } else {
        opaque_count(img, x0, x1, y0, y - 1) + row_opaque_count(img, x0, x1, y - 1)
    }
}

/// Pixel `(x, y)` is opaque in `small`, lies in the box `o`, and is opaque
/// in `big` too.
pub open spec fn shared_opaque(small: Raster, big: Raster, o: (int, int, int, int), x: int, y: int) -> bool {
    &&& small.sample(x, y, 3) > 30
    &&& o.0 <= x < o.2 && o.1 <= y < o.3
    &&& x < big.width && y < big.height && big.sample(x, y, 3) > 30
}

pub open spec fn row_shared_count(small: Raster, big: Raster, o: (int, int, int, int), x0: int, x: int, y: int) -> nat
    decreases x - x0,
{
    if x <= x0 {
        0
    } else {
        row_shared_count(small, big, o, x0, x - 1, y) + if shared_opaque(small, big, o, x - 1, y) { 1nat } else { 0nat }
    }
}

pub open spec fn shared_count(small: Raster, big: Raster, o: (int, int, int, int), x0: int, x1: int, y0: int, y: int) -> nat
    decreases y - y0,
{
    if y <= y0 {
        0
    } else {
        shared_count(small, big, o, x0, x1, y0, y - 1) + row_shared_count(small, big, o, x0, x1, y - 1)
    }
}

proof fn lemma_row_counts_bounded(small: Raster, big: Raster, o: (int, int, int, int), x0: int, x: int, y: int)
    requires
        x0 <= x,
    ensures
        row_shared_count(small, big, o, x0, x, y) <= row_opaque_count(small, x0, x, y) <= x - x0,
    decreases x - x0,
{
    if x > x0 {
        lemma_row_counts_bounded(small, big, o, x0, x - 1, y);
    }
}

proof fn lemma_counts_bounded(small: Raster, big: Raster, o: (int, int, int, int), x0: int, x1: int, y0: int, y: int)
    requires
        x0 <= x1,
        y0 <= y,
    ensures
        shared_count(small, big, o, x0, x1, y0, y) <= opaque_count(small, x0, x1, y0, y) <= (x1 - x0) * (y - y0),
    decreases y - y0,
{
    if y > y0 {
        lemma_counts_bounded(small, big, o, x0, x1, y0, y - 1);
        lemma_row_counts_bounded(small, big, o, x0, x1, y - 1);
        assert((x1 - x0) * (y - 1 - y0) + (x1 - x0) == (x1 - x0) * (y - y0)) by (nonlinear_arith);
    }
}

/// `v` clamped to `[0, hi]`.
pub open spec fn clamp_to(v: int, hi: int) -> int {
    if v < 0 {
        0
    } else if v > hi {
        hi
    } else {
        v
    }
}

/// The region a coverage test scans: the smaller brick's box clipped to its
/// image, as `(x0, x1, y0, y1)` in pixel coordinates.
pub open spec fn scan_region(small: Brick, img: Raster) -> (int, int, int, int) {
    let x0 = clamp_to(small.x as int, img.width as int);
    let y0 = clamp_to(small.y as int, img.height as int);
    let x1 = clamp_to(small.x + small.width, img.width as int);
    let y1 = clamp_to(small.y + small.height, img.height as int);
    (x0, if x1 < x0 { x0 } else { x1 }, y0, if y1 < y0 { y0 } else { y1 })
}

/// The overlap box of two bricks, `(x0, y0, x1, y1)` in pixel coordinates.
pub open spec fn overlap_box(small: Brick, big: Brick) -> (int, int, int, int) {
    (
        if small.x >= big.x { small.x as int } else { big.x as int },
        if small.y >= big.y { small.y as int } else { big.y as int },
        if small.x + small.width <= big.x + big.width { small.x + small.width } else { big.x + big.width },
        if small.y + small.height <= big.y + big.height { small.y + small.height } else { big.y + big.height },
    )
}

/// `(opaque pixels of the smaller brick, those also opaque in the larger)`.
pub open spec fn coverage_counts(small: Brick, big: Brick, img_s: Raster, img_b: Raster) -> (nat, nat) {
    let r = scan_region(small, img_s);
    (opaque_count(img_s, r.0, r.1, r.2, r.3), shared_count(img_s, img_b, overlap_box(small, big), r.0, r.1, r.2, r.3))
}

/// The smaller brick is hidden by the larger: it has opaque pixels and at
/// least 80% of them are opaque in the larger brick's image.
pub open spec fn hidden(total: nat, shared: nat) -> bool {
    total > 0 && 5 * shared >= 4 * total
}

fn count_coverage(small: &Brick, big: &Brick, img_s: &Raster, img_b: &Raster) -> (r: (u64, u64))
    requires
        small.right_fits(),
        small.bottom_fits(),
        big.right_fits(),
        big.bottom_fits(),
        img_s.wf(),
        img_b.wf(),
    ensures
        r.0 == coverage_counts(*small, *big, *img_s, *img_b).0,
        r.1 == coverage_counts(*small, *big, *img_s, *img_b).1,
{
    let ghost reg = scan_region(*small, *img_s);
    let ghost o = overlap_box(*small, *big);
    let right: i32 = small.right();
    let bottom: i32 = small.bottom();
    let iw = img_s.width as i64;
    let ih = img_s.height as i64;
    let sx64: i64 = if (small.x as i64) < 0 { 0 } else if (small.x as i64) > iw { iw } else { small.x as i64 };
    let sy64: i64 = if (small.y as i64) < 0 { 0 } else if (small.y as i64) > ih { ih } else { small.y as i64 };
    let mut ex64: i64 = if (right as i64) < 0 { 0 } else if (right as i64) > iw { iw } else { right as i64 };
    if ex64 < sx64 {
        ex64 = sx64;
    }
    let mut ey64: i64 = if (bottom as i64) < 0 { 0 } else if (bottom as i64) > ih { ih } else { bottom as i64 };
    if ey64 < sy64 {
        ey64 = sy64;
    }
    let sx = sx64 as u32;
    let sy = sy64 as u32;
    let ex = ex64 as u32;
    let ey = ey64 as u32;
    let ox0: i64 = if small.x >= big.x { small.x as i64 } else { big.x as i64 };
    let oy0: i64 = if small.y >= big.y { small.y as i64 } else { big.y as i64 };
    let br = big.right();
    let bb = big.bottom();
    let ox1: i64 = if right <= br { right as i64 } else { br as i64 };
    let oy1: i64 = if bottom <= bb { bottom as i64 } else { bb as i64 };
    assert(reg == (sx as int, ex as int, sy as int, ey as int));
    assert(o == (ox0 as int, oy0 as int, ox1 as int, oy1 as int));
    proof {
        assert((ex - sx) * (ey - sy) <= (img_s.width as int) * (img_s.height as int)) by (nonlinear_arith)
            requires
                0 <= ex - sx <= img_s.width,
                0 <= ey - sy <= img_s.height,
        ;
        assert(4 * ((img_s.width as int) * (img_s.height as int)) == 4 * (img_s.width as int) * (img_s.height as int)) by (nonlinear_arith);
        assert(4 * (img_s.width as int) * (img_s.height as int) == img_s.rgba@.len());
    }
    let ghost cap = (ex - sx) * (ey - sy);
    let n_bytes = img_s.rgba.len();
    let mut total: u64 = 0;
    let mut shared: u64 = 0;
    let mut y: u32 = sy;
    while y < ey
        invariant
            img_s.wf(),
            img_b.wf(),
            n_bytes == img_s.rgba@.len(),
            cap == (ex - sx) * (ey - sy),
            4 * cap <= n_bytes,
            sx <= ex,
            ex > sx ==> ex <= img_s.width,
            sy <= y <= ey,
            ey > sy ==> ey <= img_s.height,
            o == (ox0 as int, oy0 as int, ox1 as int, oy1 as int),
            total == opaque_count(*img_s, sx as int, ex as int, sy as int, y as int),
            shared == shared_count(*img_s, *img_b, o, sx as int, ex as int, sy as int, y as int),
            shared <= total,
        decreases ey - y,
    {
        proof {
            lemma_counts_bounded(*img_s, *img_b, o, sx as int, ex as int, sy as int, y as int);
            assert((ex - sx) * (y - sy) + (ex - sx) <= cap) by (nonlinear_arith)
                requires
                    cap == (ex - sx) * (ey - sy),
                    y < ey,
                    sx <= ex,
            ;
        }
        let ghost t0 = total;
        let ghost s0 = shared;
        let mut x: u32 = sx;
        while x < ex
            invariant
                img_s.wf(),
                img_b.wf(),
                sx <= x <= ex,
                ex > sx ==> ex <= img_s.width,
                sy <= y < ey <= img_s.height,
                o == (ox0 as int, oy0 as int, ox1 as int, oy1 as int),
                t0 + (ex - sx) <= cap,
                4 * cap <= n_bytes,
                n_bytes == img_s.rgba@.len(),
                total == t0 + row_opaque_count(*img_s, sx as int, x as int, y as int),
                shared == s0 + row_shared_count(*img_s, *img_b, o, sx as int, x as int, y as int),
                s0 <= t0,
                shared <= total,
            decreases ex - x,
        {
            proof {
                lemma_row_counts_bounded(*img_s, *img_b, o, sx as int, x as int, y as int);
            }
            if img_s.alpha_at(x, y) > 30 {
                total = total + 1;
                if (x as i64) >= ox0 && (x as i64) < ox1 && (y as i64) >= oy0 && (y as i64) < oy1 {
                    if x < img_b.width && y < img_b.height && img_b.alpha_at(x, y) > 30 {
                        shared = shared + 1;
                    }
                }
            }
            x = x + 1;
        }
        y = y + 1;
    }
    (total, shared)
}

/// Whether brick `k` has been found covered: a brick counts as covered once
/// any brick with its id is.
pub open spec fn cover_id(bricks: Seq<Brick>, cov: Seq<bool>, s: int) -> Seq<bool> {
    Seq::new(cov.len(), |t: int| cov[t] || bricks[t].id@ == bricks[s].id@)
}

/// The boxes of two bricks overlap.
pub open spec fn boxes_overlap(a: Brick, b: Brick) -> bool {
    !(a.x >= b.spec_right() || b.x >= a.spec_right() || a.y >= b.spec_bottom() || b.y >= a.spec_bottom())
}

pub open spec fn area_of(b: Brick) -> int {
    b.width * b.height
}

/// One pair `(i, j)` of the coverage scan: when their boxes overlap and
/// both have images, the smaller brick (by box area, `i` on ties) is
/// covered when hidden by the other and not protected.
pub open spec fn pair_step(bricks: Seq<Brick>, images: Seq<Option<Raster>>, protected: Seq<bool>, cov: Seq<bool>, i: int, j: int) -> Seq<bool> {
    let a = bricks[i];
    let b = bricks[j];
    if !boxes_overlap(a, b) {
        cov
    } else {
        let (s, g) = if area_of(a) <= area_of(b) { (i, j) } else { (j, i) };
        match (images[s], images[g]) {
            (Some(is), Some(ig)) => {
                let (total, shared) = coverage_counts(bricks[s], bricks[g], is, ig);
                if hidden(total, shared) && !protected[s] {
                    cover_id(bricks, cov, s)
                } else {
                    cov
                }
            },
            _ => cov,
        }
    }
}

/// Coverage after brick `i` has been compared with bricks `i+1 .. j`.
pub open spec fn scan_inner(bricks: Seq<Brick>, images: Seq<Option<Raster>>, protected: Seq<bool>, cov: Seq<bool>, i: int, j: int) -> Seq<bool>
    decreases j - i,
{
    if j <= i + 1 {
        cov
    } else {
        let c = scan_inner(bricks, images, protected, cov, i, j - 1);
        if c[j - 1] {
            c
        } else {
            pair_step(bricks, images, protected, c, i, j - 1)
        }
    }
}

/// Coverage after the first `i` bricks have been compared with the later
/// ones; a brick already covered when its turn comes is skipped.
pub open spec fn scan_outer(bricks: Seq<Brick>, images: Seq<Option<Raster>>, protected: Seq<bool>, i: int) -> Seq<bool>
    decreases i,
{
    if i <= 0 {
        Seq::new(bricks.len(), |t: int| false)
    } else {
        let c = scan_outer(bricks, images, protected, i - 1);
        if c[i - 1] {
            c
        } else {
            scan_inner(bricks, images, protected, c, i - 1, bricks.len() as int)
        }
    }
}

/// Inputs a coverage scan can run on: one image slot and one protection
/// flag per brick, valid images, and box edges that fit `i32`.
pub open spec fn coverage_inputs_ok(bricks: Seq<Brick>, images: Seq<Option<Raster>>, protected: Seq<bool>) -> bool {
    &&& images.len() == bricks.len()
    &&& protected.len() == bricks.len()
    &&& forall|k: int| 0 <= k < bricks.len() ==> (#[trigger] bricks[k]).right_fits() && bricks[k].bottom_fits()
    &&& forall|k: int| 0 <= k < images.len() ==> (#[trigger] images[k] matches Some(img) ==> img.wf())
}

fn mark_covered(bricks: &Vec<Brick>, cov: &Vec<bool>, s: usize) -> (r: Vec<bool>)
    requires
        s < bricks@.len(),
        cov@.len() == bricks@.len(),
    ensures
        r@ == cover_id(bricks@, cov@, s as int),
{
    let mut r: Vec<bool> = Vec::new();
    let mut t: usize = 0;
    while t < cov.len()
        invariant
            s < bricks@.len(),
            cov@.len() == bricks@.len(),
            t <= cov@.len(),
            r@ == cover_id(bricks@, cov@, s as int).take(t as int),
        decreases cov@.len() - t,
    {
        let same = bricks[t].id == bricks[s].id;
        r.push(cov[t] || same);
        t = t + 1;
        assert(r@ =~= cover_id(bricks@, cov@, s as int).take(t as int));
    }
    assert(cover_id(bricks@, cov@, s as int).take(t as int) =~= cover_id(bricks@, cov@, s as int));
    r
}

/// Flags the bricks hidden behind another brick: for every overlapping
/// pair with images, the smaller one is covered when it has opaque pixels
/// and at least 80% of them are also opaque in the larger one, unless it
/// is protected. Pixels are counted inside the smaller brick's box clipped
/// to its image, so a box that reaches past the canvas on any side is
/// scanned where it meets the canvas. Flags go by brick id.
pub fn find_covered_bricks(bricks: &Vec<Brick>, images: &Vec<Option<Raster>>, protected: &Vec<bool>) -> (r: Vec<bool>)
    requires
        coverage_inputs_ok(bricks@, images@, protected@),
    ensures
        r@ == scan_outer(bricks@, images@, protected@, bricks@.len() as int),
{
    let n = bricks.len();
    let mut cov: Vec<bool> = Vec::new();
    let mut k: usize = 0;
    while k < n
        invariant
            n == bricks@.len(),
            k <= n,
            cov@ == Seq::new(k as nat, |t: int| false),
        decreases n - k,
    {
        cov.push(false);
        k = k + 1;
        assert(cov@ =~= Seq::new(k as nat, |t: int| false));
    }
    let mut i: usize = 0;
    while i < n
        invariant
            coverage_inputs_ok(bricks@, images@, protected@),
            n == bricks@.len(),
            i <= n,
            cov@ == scan_outer(bricks@, images@, protected@, i as int),
            cov@.len() == n,
        decreases n - i,
    {
        if !cov[i] {
            let ghost c0 = cov@;
            let mut j: usize = i + 1;
            while j < n
                invariant
                    coverage_inputs_ok(bricks@, images@, protected@),
                    n == bricks@.len(),
                    i < n,
                    i + 1 <= j <= n,
                    cov@ == scan_inner(bricks@, images@, protected@, c0, i as int, j as int),
                    cov@.len() == n,
                decreases n - j,
            {
                if !cov[j] {
                    let a = &bricks[i];
                    let b = &bricks[j];
                    assert(bricks@[i as int].right_fits() && bricks@[i as int].bottom_fits());
                    assert(bricks@[j as int].right_fits() && bricks@[j as int].bottom_fits());
                    let overlap = !(a.x >= b.right() || b.x >= a.right() || a.y >= b.bottom() || b.y >= a.bottom());
                    if overlap {
                        let (s, g) = if a.area() <= b.area() { (i, j) } else { (j, i) };
                        match (&images[s], &images[g]) {
                            (Some(is), Some(ig)) => {
                                assert(images@[s as int] matches Some(im) ==> im.wf());
                                assert(images@[g as int] matches Some(im) ==> im.wf());
                                let (total, shared) = count_coverage(&bricks[s], &bricks[g], is, ig);
                                if total > 0 && 5 * (shared as u128) >= 4 * (total as u128)
                                    && !protected[s] {
                                    cov = mark_covered(bricks, &cov, s);
                                } else {
                                    proof {
                                        lemma_counts_bounded(*is, *ig, overlap_box(bricks@[s as int], bricks@[g as int]),
                                            scan_region(bricks@[s as int], *is).0, scan_region(bricks@[s as int], *is).1,
                                            scan_region(bricks@[s as int], *is).2, scan_region(bricks@[s as int], *is).3);
                                    }
                                }
                            },
                            _ => {},
                        }
                    }
                }
                j = j + 1;
            }
        }
        i = i + 1;
    }
    cov
}

/// Bricks sharing an id share their protection.
pub open spec fn protection_by_id(bricks: Seq<Brick>, protected: Seq<bool>) -> bool {
    forall|a: int, b: int|
        0 <= a < bricks.len() && 0 <= b < bricks.len() && (#[trigger] bricks[a]).id@ == (#[trigger] bricks[b]).id@
            ==> protected[a] == protected[b]
}

pub open spec fn spares_protected(protected: Seq<bool>, cov: Seq<bool>) -> bool {
    forall|k: int| 0 <= k < cov.len() && #[trigger] protected[k] ==> !cov[k]
}

proof fn lemma_pair_spares(
    bricks: Seq<Brick>,
    images: Seq<Option<Raster>>,
    protected: Seq<bool>,
    cov: Seq<bool>,
    i: int,
    j: int,
)
    requires
        protection_by_id(bricks, protected),
        protected.len() == bricks.len(),
        cov.len() == bricks.len(),
        0 <= i < bricks.len(),
        0 <= j < bricks.len(),
        spares_protected(protected, cov),
    ensures
        spares_protected(protected, pair_step(bricks, images, protected, cov, i, j)),
        pair_step(bricks, images, protected, cov, i, j).len() == bricks.len(),
{
    let a = bricks[i];
    let b = bricks[j];
    if boxes_overlap(a, b) {
        let (s, g) = if area_of(a) <= area_of(b) { (i, j) } else { (j, i) };
        let c = cover_id(bricks, cov, s);
        if !protected[s] {
            assert forall|k: int| 0 <= k < c.len() && #[trigger] protected[k] implies !c[k] by {
                if bricks[k].id@ == bricks[s].id@ {
                    assert(protected[k] == protected[s]);
                }
            }
        }
    }
}

proof fn lemma_inner_spares(
    bricks: Seq<Brick>,
    images: Seq<Option<Raster>>,
    protected: Seq<bool>,
    cov: Seq<bool>,
    i: int,
    j: int,
)
    requires
        protection_by_id(bricks, protected),
        protected.len() == bricks.len(),
        cov.len() == bricks.len(),
        0 <= i < bricks.len(),
        j <= bricks.len(),
        spares_protected(protected, cov),
    ensures
        spares_protected(protected, scan_inner(bricks, images, protected, cov, i, j)),
        scan_inner(bricks, images, protected, cov, i, j).len() == bricks.len(),
    decreases j - i,
{
    if j > i + 1 {
        lemma_inner_spares(bricks, images, protected, cov, i, j - 1);
        let c = scan_inner(bricks, images, protected, cov, i, j - 1);
        if !c[j - 1] {
            lemma_pair_spares(bricks, images, protected, c, i, j - 1);
        }
    }
}

proof fn lemma_outer_spares(bricks: Seq<Brick>, images: Seq<Option<Raster>>, protected: Seq<bool>, i: int)
    requires
        protection_by_id(bricks, protected),
        protected.len() == bricks.len(),
        i <= bricks.len(),
    ensures
        spares_protected(protected, scan_outer(bricks, images, protected, i)),
        scan_outer(bricks, images, protected, i).len() == bricks.len(),
    decreases i,
{
    if i > 0 {
        lemma_outer_spares(bricks, images, protected, i - 1);
        let c = scan_outer(bricks, images, protected, i - 1);
        if !c[i - 1] {
            lemma_inner_spares(bricks, images, protected, c, i - 1, bricks.len() as int);
        }
    }
}

/// A protected brick is never flagged as covered, whatever hides it, as
/// long as bricks that share an id share their protection.
pub proof fn law_protected_never_covered(bricks: Seq<Brick>, images: Seq<Option<Raster>>, protected: Seq<bool>)
    requires
        protected.len() == bricks.len(),
        protection_by_id(bricks, protected),
    ensures
        forall|k: int|
            0 <= k < bricks.len() && #[trigger] protected[k] ==> !scan_outer(
                bricks,
                images,
                protected,
                bricks.len() as int,
            )[k],
{
    lemma_outer_spares(bricks, images, protected, bricks.len() as int);
}

} // verus!
