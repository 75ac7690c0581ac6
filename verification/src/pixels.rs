//! Pixel-level operations for extracted raster bricks: PNG-predictor row
//! reconstruction, source-over blending, palette expansion and RGBA
//! assembly from colour planes plus a soft-mask alpha plane.
use vstd::prelude::*;

verus! {

/// Why PNG-predictor reconstruction failed.
#[derive(Debug, PartialEq, Eq)]
pub enum UnfilterError {
    /// The input length is not a multiple of `row_bytes + 1`.
    LengthNotMultipleOfStride,
    /// A row carries a filter tag other than 0..=4 (the tag is given).
    UnknownFilterTag(u8),
}

pub open spec fn wrap_u8(v: int) -> u8 {
    (v % 256) as u8
}

pub open spec fn abs_int(v: int) -> int {
    if v < 0 { -v } else { v }
}

/// The Paeth predictor: whichever of left `a`, up `b`, upper-left `c` is
/// closest to `a + b - c`, ties broken in that order.
pub open spec fn paeth(a: int, b: int, c: int) -> int {
    let p = a + b - c;
    let pa = abs_int(p - a);
    let pb = abs_int(p - b);
    let pc = abs_int(p - c);
    if pa <= pb && pa <= pc {
        a
    } else if pb <= pc {
        b
    } else {
        c
    }
}

/// Filter tag of row `r`.
pub open spec fn row_tag(raw: Seq<u8>, rb: int, r: int) -> u8 {
    raw[r * (rb + 1)]
}

/// Reconstructed byte at output position `pos` (row `pos / rb`, column
/// `pos % rb`), with a one-byte left offset for Sub, Average and Paeth.
pub open spec fn recon(raw: Seq<u8>, rb: int, pos: int) -> u8
    decreases pos,
{
    if rb <= 0 || pos < 0 {
        0
    } else {
        proof {
            lemma_recon_measure(pos, rb);
        }
        let r = pos / rb;
        let i = pos % rb;
        let tag = row_tag(raw, rb, r);
        let x = raw[r * (rb + 1) + 1 + i] as int;
        let a: int = if i >= 1 { recon(raw, rb, pos - 1) as int } else { 0 };
        let b: int = if r >= 1 { recon(raw, rb, pos - rb) as int } else { 0 };
        let c: int = if r >= 1 && i >= 1 { recon(raw, rb, pos - rb - 1) as int } else { 0 };
        if tag == 0 {
            x as u8
        } else if tag == 1 {
            wrap_u8(x + a)
        } else if tag == 2 {
            wrap_u8(x + b)
        } else if tag == 3 {
            wrap_u8(x + (a + b) / 2)
        } else if tag == 4 {
            wrap_u8(x + paeth(a, b, c))
        } else {
            0
        }
    }
}

/// Row positions stay in step with the row length during reconstruction.
pub proof fn lemma_recon_measure(pos: int, rb: int)
    requires
        rb > 0,
        pos >= 0,
    ensures
        0 <= pos % rb < rb,
        pos / rb >= 0,
        pos % rb >= 1 ==> pos - 1 >= 0,
        pos / rb >= 1 ==> pos - rb >= 0,
        pos / rb >= 1 && pos % rb >= 1 ==> pos - rb - 1 >= 0,
{
    vstd::arithmetic::div_mod::lemma_fundamental_div_mod(pos, rb);
    vstd::arithmetic::div_mod::lemma_mod_bound(pos, rb);
    vstd::arithmetic::div_mod::lemma_div_pos_is_pos(pos, rb);
    assert(pos / rb >= 1 ==> rb * (pos / rb) >= rb) by (nonlinear_arith)
        requires
            rb > 0,
    ;
}

/// The first row (from `r` on) whose tag is not 0..=4, as an error.
pub open spec fn first_bad_tag(raw: Seq<u8>, rb: int, r: int, rows: int) -> Option<UnfilterError>
    decreases rows - r,
{
    if r < 0 || r >= rows {
        None
    } else if row_tag(raw, rb, r) > 4 {
        Some(UnfilterError::UnknownFilterTag(row_tag(raw, rb, r)))
    } else {
        first_bad_tag(raw, rb, r + 1, rows)
    }
}

pub open spec fn unfilter_error(raw: Seq<u8>, rb: int) -> Option<UnfilterError> {
    if (raw.len() as int) % (rb + 1) != 0 {
        Some(UnfilterError::LengthNotMultipleOfStride)
    } else {
        first_bad_tag(raw, rb, 0, (raw.len() as int) / (rb + 1))
    }
}

/// The reconstructed image: `rb` bytes per row, one row per input row.
pub open spec fn unfiltered(raw: Seq<u8>, rb: int) -> Seq<u8> {
    Seq::new((rb * ((raw.len() as int) / (rb + 1))) as nat, |k: int| recon(raw, rb, k))
}

proof fn lemma_row_col(rb: int, r: int, i: int)
    requires
        rb > 0,
        r >= 0,
        0 <= i < rb,
    ensures
        (r * rb + i) / rb == r,
        (r * rb + i) % rb == i,
{
    vstd::arithmetic::div_mod::lemma_fundamental_div_mod_converse(r * rb + i, rb, r, i);
}

proof fn lemma_row_bound(rb: int, stride: int, r: int, rows: int, i: int)
    requires
        rb >= 0,
        stride == rb + 1,
        0 <= r < rows,
        0 <= i <= rb,
    ensures
        r * stride + i <= rows * stride,
        r * rb + i <= rows * rb,
        r * rb + rb <= rows * rb,
        r * stride + rb < rows * stride,
        r >= 1 ==> r * rb >= rb,
{
    assert(r >= 1 ==> r * rb >= rb) by (nonlinear_arith)
        requires
            rb >= 0,
    ;
    assert(r * stride + rb + 1 <= rows * stride) by (nonlinear_arith)
        requires
            rb >= 0,
            stride == rb + 1,
            0 <= r < rows,
    ;
    assert(r * rb + rb <= rows * rb) by (nonlinear_arith)
        requires
            rb >= 0,
            0 <= r < rows,
    ;
}

/// Reverses PNG row filtering. Input is `(1 + row_bytes)` bytes per row
/// (a filter tag, then the filtered row); output is `row_bytes` bytes per
/// row. Filters: 0 None, 1 Sub, 2 Up, 3 Average, 4 Paeth.
#[verifier::rlimit(80)]
pub fn unfilter_png(raw: &[u8], row_bytes: usize) -> (r: Result<Vec<u8>, UnfilterError>)
    requires
        row_bytes < usize::MAX,
    ensures
        match r {
            Ok(out) => unfilter_error(raw@, row_bytes as int) is None && out@ == unfiltered(
                raw@,
                row_bytes as int,
            ),
            Err(e) => unfilter_error(raw@, row_bytes as int) == Some(e),
        },
{
    let stride = row_bytes + 1;
    let n = raw.len();
    if n % stride != 0 {
        return Err(UnfilterError::LengthNotMultipleOfStride);
    }
    let rows = n / stride;
    let ghost rb = row_bytes as int;
    proof {
        vstd::arithmetic::div_mod::lemma_fundamental_div_mod(n as int, stride as int);
        assert(n == rows * stride) by (nonlinear_arith)
            requires
                n == stride * rows + 0,
        ;
        assert(rows * rb <= rows * stride) by (nonlinear_arith)
            requires
                rows >= 0,
                rb >= 0,
                stride == rb + 1,
        ;
    }
    let total: usize = rows * row_bytes;
    let mut out: Vec<u8> = Vec::new();
    let mut z: usize = 0;
    while z < total
        invariant
            z <= total,
            out@.len() == z,
        decreases total - z,
    {
        out.push(0u8);
        z = z + 1;
    }
    let mut r: usize = 0;
    while r < rows
        invariant
            stride == row_bytes + 1,
            rb == row_bytes as int,
            rows == (raw@.len() as int) / (stride as int),
            n == raw@.len(),
            n == rows * stride,
            (raw@.len() as int) % (rb + 1) == 0,
            total == rows * row_bytes,
            r <= rows,
            out@.len() == total,
            forall|k: int| 0 <= k < r * rb ==> out@[k] == recon(raw@, rb, k),
            first_bad_tag(raw@, rb, 0, rows as int) == first_bad_tag(raw@, rb, r as int, rows as int),
        decreases rows - r,
    {
        proof {
            lemma_row_bound(rb, stride as int, r as int, rows as int, 0);
        }
        let base = r * stride;
        let tag = raw[base];
        assert(tag == row_tag(raw@, rb, r as int));
        if tag > 4 {
            assert(first_bad_tag(raw@, rb, r as int, rows as int) == Some(
                UnfilterError::UnknownFilterTag(tag),
            ));
            return Err(UnfilterError::UnknownFilterTag(tag));
        }
        let out_start = r * row_bytes;
        let mut i: usize = 0;
        while i < row_bytes
            invariant
                stride == row_bytes + 1,
                rb == row_bytes as int,
                rb > 0 ==> 0 <= r,
                r < rows,
                n == raw@.len(),
                n == rows * stride,
                total == rows * row_bytes,
                base == r * stride,
                out_start == r * row_bytes,
                tag == row_tag(raw@, rb, r as int),
                tag <= 4,
                i <= row_bytes,
                out@.len() == total,
                forall|k: int| 0 <= k < r * rb + i ==> out@[k] == recon(raw@, rb, k),
            decreases row_bytes - i,
        {
            proof {
                lemma_row_bound(rb, stride as int, r as int, rows as int, i as int);
                lemma_row_col(rb, r as int, i as int);
            }
            let pos = out_start + i;
            let x = raw[base + 1 + i];
            let a: u8 = if i >= 1 {
                out[pos - 1]
            } else {
                0
            };
            let b: u8 = if r >= 1 {
                out[pos - row_bytes]
            } else {
                0
            };
            let c: u8 = if r >= 1 && i >= 1 {
                out[pos - row_bytes - 1]
            } else {
                0
            };
            proof {
                if r >= 1 {
                    assert(pos - rb < r * rb + i);
                }
            }
            let v: u8 = if tag == 0 {
                x
            } else if tag == 1 {
                ((x as u16 + a as u16) % 256) as u8
            } else if tag == 2 {
                ((x as u16 + b as u16) % 256) as u8
            } else if tag == 3 {
                ((x as u16 + (a as u16 + b as u16) / 2) % 256) as u8
            } else {
                let ai = a as i32;
                let bi = b as i32;
                let ci = c as i32;
                let p = ai + bi - ci;
                let pa = if p - ai < 0 {
                    ai - p
                } else {
                    p - ai
                };
                let pb = if p - bi < 0 {
                    bi - p
                } else {
                    p - bi
                };
                let pc = if p - ci < 0 {
                    ci - p
                } else {
                    p - ci
                };
                let pr: i32 = if pa <= pb && pa <= pc {
                    ai
                } else if pb <= pc {
                    bi
                } else {
                    ci
                };
                ((x as i32 + pr) % 256) as u8
            };
            assert(v == recon(raw@, rb, pos as int));
            out.set(pos, v);
            i = i + 1;
        }
        r = r + 1;
        proof {
            assert((r - 1) * rb + rb == r * rb) by (nonlinear_arith);
        }
    }
    proof {
        assert(rows * rb == rb * rows) by (nonlinear_arith);
        assert((raw@.len() as int) / (rb + 1) == rows);
        assert(out@ =~= unfiltered(raw@, rb));
    }
    Ok(out)
}

// ── compositing ─────────────────────────────────────────────────────

/// `round((num) / 255)` for a non-negative numerator, ties up.
pub open spec fn div255_round(num: int) -> int {
    (2 * num + 255) / 510
}

/// Source-over colour channel: `src·a/255 + dst·(1 − a/255)`, rounded.
pub open spec fn blend_channel(s: u8, d: u8, a: u8) -> u8 {
    div255_round(s * a + d * (255 - a)) as u8
}

/// Source-over alpha: `a + dst_a·(1 − a/255)`, rounded.
pub open spec fn blend_alpha(da: u8, a: u8) -> u8 {
    div255_round(255 * a + da * (255 - a)) as u8
}

proof fn lemma_blend_bound(s: int, d: int, a: int)
    requires
        0 <= s <= 255,
        0 <= d <= 255,
        0 <= a <= 255,
    ensures
        0 <= s * a + d * (255 - a) <= 255 * 255,
        0 <= div255_round(s * a + d * (255 - a)) <= 255,
{
    assert(0 <= s * a + d * (255 - a) <= 255 * 255) by (nonlinear_arith)
        requires
            0 <= s <= 255,
            0 <= d <= 255,
            0 <= a <= 255,
    ;
}

fn blend_one(s: u8, d: u8, a: u8) -> (r: u8)
    ensures
        r == blend_channel(s, d, a),
{
    proof {
        lemma_blend_bound(s as int, d as int, a as int);
    }
    let num: u32 = (s as u32) * (a as u32) + (d as u32) * (255 - a as u32);
    ((2 * num + 255) / 510) as u8
}

/// Source-over blend of `src` onto the pixel `dst`, both RGBA. Each colour
/// channel becomes `round(src·α + dst·(1 − α))` and the alpha
/// `round(255·(α + dst_α·(1 − α)))`, with `α = src_a / 255`.
pub fn blend_src_over(dst: &mut [u8; 4], src: [u8; 4])
    ensures
        final(dst)@ == seq![
            blend_channel(src@[0], old(dst)@[0], src@[3]),
            blend_channel(src@[1], old(dst)@[1], src@[3]),
            blend_channel(src@[2], old(dst)@[2], src@[3]),
            blend_alpha(old(dst)@[3], src@[3]),
        ],
{
    let a = src[3];
    let r = blend_one(src[0], dst[0], a);
    let g = blend_one(src[1], dst[1], a);
    let b = blend_one(src[2], dst[2], a);
    let alpha = blend_one(255, dst[3], a);
    *dst = [r, g, b, alpha];
    assert(final(dst)@ =~= seq![r, g, b, alpha]);
}

// ── laws ────────────────────────────────────────────────────────────

/// A row filtered with None (tag 0) is copied through unchanged.
pub proof fn law_filter_none_passes_through(raw: Seq<u8>, rb: int, r: int, i: int)
    requires
        rb > 0,
        0 <= r,
        0 <= i < rb,
        r * (rb + 1) + rb < raw.len(),
        row_tag(raw, rb, r) == 0,
    ensures
        recon(raw, rb, r * rb + i) == raw[r * (rb + 1) + 1 + i],
{
    lemma_row_col(rb, r, i);
}

/// A row filtered with Up (tag 2) adds the reconstructed byte above it,
/// modulo 256; on the first row "above" is zero.
pub proof fn law_filter_up_adds_previous_row(raw: Seq<u8>, rb: int, r: int, i: int)
    requires
        rb > 0,
        0 <= r,
        0 <= i < rb,
        r * (rb + 1) + rb < raw.len(),
        row_tag(raw, rb, r) == 2,
    ensures
        recon(raw, rb, r * rb + i) == wrap_u8(
            raw[r * (rb + 1) + 1 + i] + if r >= 1 { recon(raw, rb, (r - 1) * rb + i) as int } else { 0 },
        ),
{
    lemma_row_col(rb, r, i);
    assert(r * rb + i - rb == (r - 1) * rb + i) by (nonlinear_arith);
}

/// A row filtered with Sub (tag 1) accumulates along the row: each byte
/// adds the reconstructed byte to its left, modulo 256.
pub proof fn law_filter_sub_adds_left(raw: Seq<u8>, rb: int, r: int, i: int)
    requires
        rb > 0,
        0 <= r,
        0 <= i < rb,
        r * (rb + 1) + rb < raw.len(),
        row_tag(raw, rb, r) == 1,
    ensures
        recon(raw, rb, r * rb + i) == wrap_u8(
            raw[r * (rb + 1) + 1 + i] + if i >= 1 { recon(raw, rb, r * rb + i - 1) as int } else { 0 },
        ),
{
    lemma_row_col(rb, r, i);
}

/// A row filtered with Average (tag 3) adds, modulo 256, the mean of the
/// reconstructed left and upper bytes rounded down (zero where outside the
/// image).
pub proof fn law_filter_average_adds_floor_mean(raw: Seq<u8>, rb: int, r: int, i: int, a: int, b: int, m: int)
    requires
        rb > 0,
        0 <= r,
        0 <= i < rb,
        r * (rb + 1) + rb < raw.len(),
        row_tag(raw, rb, r) == 3,
        a == if i >= 1 { recon(raw, rb, r * rb + i - 1) as int } else { 0 },
        b == if r >= 1 { recon(raw, rb, (r - 1) * rb + i) as int } else { 0 },
        2 * m <= a + b < 2 * m + 2,
    ensures
        recon(raw, rb, r * rb + i) == wrap_u8(raw[r * (rb + 1) + 1 + i] + m),
{
    lemma_row_col(rb, r, i);
    assert(r * rb + i - rb == (r - 1) * rb + i) by (nonlinear_arith);
    assert((a + b) / 2 == m);
}

/// A row filtered with Paeth (tag 4) adds, modulo 256, whichever of the
/// reconstructed left byte `a`, upper byte `b` and upper-left byte `c`
/// (zero where outside the image) lies nearest to `a + b - c`; a tie goes
/// to `a`, then to `b`.
pub proof fn law_filter_paeth_adds_nearest_neighbour(raw: Seq<u8>, rb: int, r: int, i: int, a: int, b: int, c: int)
    requires
        rb > 0,
        0 <= r,
        0 <= i < rb,
        r * (rb + 1) + rb < raw.len(),
        row_tag(raw, rb, r) == 4,
        a == if i >= 1 { recon(raw, rb, r * rb + i - 1) as int } else { 0 },
        b == if r >= 1 { recon(raw, rb, (r - 1) * rb + i) as int } else { 0 },
        c == if r >= 1 && i >= 1 { recon(raw, rb, (r - 1) * rb + i - 1) as int } else { 0 },
    ensures
        ({
            let x = raw[r * (rb + 1) + 1 + i] as int;
            let da = abs_int(b - c);
            let db = abs_int(a - c);
            let dc = abs_int(a + b - 2 * c);
            &&& da <= db && da <= dc ==> recon(raw, rb, r * rb + i) == wrap_u8(x + a)
            &&& db < da && db <= dc ==> recon(raw, rb, r * rb + i) == wrap_u8(x + b)
            &&& dc < da && dc < db ==> recon(raw, rb, r * rb + i) == wrap_u8(x + c)
        }),
{
    lemma_row_col(rb, r, i);
    assert(r * rb + i - rb == (r - 1) * rb + i) by (nonlinear_arith);
}

/// An opaque source replaces the destination pixel entirely.
pub proof fn law_blend_opaque_source_wins(s: u8, d: u8, da: u8)
    ensures
        blend_channel(s, d, 255) == s,
        blend_alpha(da, 255) == 255,
{
    assert(div255_round(s * 255 + d * 0) == s as int) by (nonlinear_arith);
}

/// A fully transparent source leaves the destination pixel unchanged.
pub proof fn law_blend_transparent_source_keeps_dst(s: u8, d: u8, da: u8)
    ensures
        blend_channel(s, d, 0) == d,
        blend_alpha(da, 0) == da,
{
    assert(div255_round(s * 0 + d * 255) == d as int) by (nonlinear_arith);
    assert(div255_round(255 * 0 + da * 255) == da as int) by (nonlinear_arith);
}

/// Blending never leaves the range between source and destination.
pub proof fn law_blend_between(s: u8, d: u8, a: u8)
    ensures
        (s <= d ==> s <= blend_channel(s, d, a) <= d),
        (d <= s ==> d <= blend_channel(s, d, a) <= s),
{
    let num = s * a + d * (255 - a);
    assert(s <= d ==> 255 * s <= num <= 255 * d) by (nonlinear_arith)
        requires
            num == s * a + d * (255 - a),
            0 <= a <= 255,
    ;
    assert(d <= s ==> 255 * d <= num <= 255 * s) by (nonlinear_arith)
        requires
            num == s * a + d * (255 - a),
            0 <= a <= 255,
    ;
}

} // verus!
