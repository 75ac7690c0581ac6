//! PSD (Adobe Photoshop) encoder.
//!
//! Writes a version-1 PSD: header, empty colour-mode and image-resource
//! sections, a layer & mask block (one RGBA layer per `PsdLayer`, blend
//! mode "normal", opacity 255, no mask), then the flat merged preview.
//! Channel data is raw (no RLE). Big-endian throughout; the layer-info
//! length is rounded up to a multiple of 2 and each layer name is a Pascal
//! string whose whole field is padded to a multiple of 4 bytes.
use vstd::prelude::*;
use crate::raster::Raster;

verus! {

/// Largest canvas side a version-1 PSD may have.
pub const PSD_MAX_SIDE: u32 = 30000;

/// One PSD layer: a name, a `(top, left, bottom, right)` canvas rectangle
/// and an image whose size equals the rectangle's.
pub struct PsdLayer {
    pub name: String,
    pub rect: (u32, u32, u32, u32),
    pub image: Raster,
}

/// Why a PSD could not be written.
#[derive(Debug, PartialEq, Eq)]
pub enum PsdError {
    /// Canvas width or height is zero.
    ZeroDimension,
    /// Canvas side exceeds the PSD v1 limit.
    CanvasTooLarge,
    /// The merged preview's size differs from the canvas.
    MergedSizeMismatch,
    /// Layer `i` has `bottom <= top` or `right <= left`.
    DegenerateRect(usize),
    /// Layer `i` extends past the canvas.
    RectOutsideCanvas(usize),
    /// Layer `i`'s image size differs from its rectangle.
    ImageSizeMismatch(usize),
}

// ── byte-level encodings ────────────────────────────────────────────

pub open spec fn be_u16(v: u16) -> Seq<u8> {
    seq![(v / 256) as u8, (v % 256) as u8]
}

pub open spec fn be_u32(v: u32) -> Seq<u8> {
    seq![
        (v / 0x100_0000) as u8,
        ((v / 0x1_0000) % 256) as u8,
        ((v / 256) % 256) as u8,
        (v % 256) as u8,
    ]
}

/// Two's-complement big-endian encoding of an `i16`.
pub open spec fn be_i16(v: i16) -> Seq<u8> {
    be_u16((if v < 0 { v + 0x1_0000 } else { v as int }) as u16)
}

pub open spec fn zeros(n: nat) -> Seq<u8> {
    Seq::new(n, |i: int| 0u8)
}

/// Pascal string padded to 4: length byte (at most 255), that many bytes
/// of the name, then zeros until the field length is a multiple of 4.
pub open spec fn pascal4(name: Seq<u8>) -> Seq<u8> {
    let len = if name.len() < 255 { name.len() } else { 255nat };
    let total = 1 + len;
    let pad = ((4 - total % 4) % 4) as nat;
    seq![len as u8] + name.take(len as int) + zeros(pad)
}

/// The bytes of every fourth element starting at `c` (one channel plane
/// of an interleaved RGBA buffer).
pub open spec fn plane(raw: Seq<u8>, c: int) -> Seq<u8> {
    Seq::new(((raw.len() - c + 3) / 4) as nat, |i: int| raw[4 * i + c])
}

pub open spec fn header(w: u32, h: u32) -> Seq<u8> {
    seq![0x38u8, 0x42u8, 0x50u8, 0x53u8] + be_u16(1) + zeros(6) + be_u16(4) + be_u32(h) + be_u32(w)
        + be_u16(8) + be_u16(3)
}

pub open spec fn name_bytes(l: PsdLayer) -> Seq<u8> {
    vstd::utf8::encode_utf8(l.name@)
}

/// Size in bytes of one channel block of a layer: compression tag plus plane.
pub open spec fn channel_bytes(l: PsdLayer) -> u32 {
    (2 + (l.rect.3 - l.rect.1) * (l.rect.2 - l.rect.0)) as u32
}

pub open spec fn layer_extra(l: PsdLayer) -> Seq<u8> {
    be_u32(0) + be_u32(0) + pascal4(name_bytes(l))
}

pub open spec fn record_rect(l: PsdLayer) -> Seq<u8> {
    be_u32(l.rect.0) + be_u32(l.rect.1) + be_u32(l.rect.2) + be_u32(l.rect.3) + be_u16(4)
}

/// Channel-info table: ids R=0, G=1, B=2, alpha=-1, each with its byte size.
pub open spec fn record_channel_info(cb: u32) -> Seq<u8> {
    be_i16(0) + be_u32(cb) + be_i16(1) + be_u32(cb) + be_i16(2) + be_u32(cb) + be_i16(-1i16)
        + be_u32(cb)
}

/// Blend signature `8BIM`, blend key `norm`, opacity 255, clipping 0,
/// flags 0, filler 0.
pub open spec fn record_blend() -> Seq<u8> {
    seq![0x38u8, 0x42u8, 0x49u8, 0x4du8, 0x6eu8, 0x6fu8, 0x72u8, 0x6du8, 255u8, 0u8, 0u8, 0u8]
}

pub open spec fn layer_record(l: PsdLayer) -> Seq<u8> {
    record_rect(l) + record_channel_info(channel_bytes(l)) + record_blend() + be_u32(
        layer_extra(l).len() as u32,
    ) + layer_extra(l)
}

pub open spec fn layer_channels(raw: Seq<u8>) -> Seq<u8> {
    be_u16(0) + plane(raw, 0) + be_u16(0) + plane(raw, 1) + be_u16(0) + plane(raw, 2) + be_u16(0)
        + plane(raw, 3)
}

pub open spec fn records(layers: Seq<PsdLayer>) -> Seq<u8>
    decreases layers.len(),
{
    if layers.len() == 0 {
        seq![]
    } else {
        records(layers.drop_last()) + layer_record(layers.last())
    }
}

pub open spec fn channel_data(layers: Seq<PsdLayer>) -> Seq<u8>
    decreases layers.len(),
{
    if layers.len() == 0 {
        seq![]
    } else {
        channel_data(layers.drop_last()) + layer_channels(layers.last().image.rgba@)
    }
}

/// Layer-info subsection before padding: count, records, channel data.
pub open spec fn layer_info_raw(layers: Seq<PsdLayer>) -> Seq<u8> {
    be_u16((layers.len() % 0x1_0000) as u16) + records(layers) + channel_data(layers)
}

/// Layer-info subsection padded to an even length.
pub open spec fn layer_info(layers: Seq<PsdLayer>) -> Seq<u8> {
    let raw = layer_info_raw(layers);
    if raw.len() % 2 != 0 {
        raw.push(0u8)
    } else {
        raw
    }
}

pub open spec fn wrap32(n: int) -> u32 {
    (n % 0x1_0000_0000) as u32
}

/// Layer & mask section: section length, layer-info length, layer info,
/// and an empty global-mask block.
pub open spec fn layer_and_mask(layers: Seq<PsdLayer>) -> Seq<u8> {
    let li = layer_info(layers);
    be_u32(wrap32(4 + li.len() as int + 4)) + be_u32(wrap32(li.len() as int)) + li + be_u32(0)
}

pub open spec fn merged_block(raw: Seq<u8>) -> Seq<u8> {
    be_u16(0) + plane(raw, 0) + plane(raw, 1) + plane(raw, 2) + plane(raw, 3)
}

/// The whole PSD file.
pub open spec fn psd_bytes(w: u32, h: u32, layers: Seq<PsdLayer>, merged: Raster) -> Seq<u8> {
    header(w, h) + be_u32(0) + be_u32(0) + layer_and_mask(layers) + merged_block(merged.rgba@)
}

/// Validation of a single layer, in the order the encoder checks.
pub open spec fn layer_error(l: PsdLayer, i: int, cw: u32, ch: u32) -> Option<PsdError> {
    let (t, le, b, r) = l.rect;
    if b <= t || r <= le {
        Some(PsdError::DegenerateRect(i as usize))
    } else if r > cw || b > ch {
        Some(PsdError::RectOutsideCanvas(i as usize))
    } else if l.image.width != r - le || l.image.height != b - t {
        Some(PsdError::ImageSizeMismatch(i as usize))
    } else {
        None
    }
}

/// The first failing layer at index `i` or later.
pub open spec fn first_layer_error(layers: Seq<PsdLayer>, i: int, cw: u32, ch: u32) -> Option<
    PsdError,
>
    decreases layers.len() - i,
{
    if i < 0 || i >= layers.len() {
        None
    } else {
        match layer_error(layers[i], i, cw, ch) {
            Some(e) => Some(e),
            None => first_layer_error(layers, i + 1, cw, ch),
        }
    }
}

/// The error `write_psd` reports, if any.
pub open spec fn psd_error(cw: u32, ch: u32, layers: Seq<PsdLayer>, merged: Raster) -> Option<
    PsdError,
> {
    if cw == 0 || ch == 0 {
        Some(PsdError::ZeroDimension)
    } else if cw > PSD_MAX_SIDE || ch > PSD_MAX_SIDE {
        Some(PsdError::CanvasTooLarge)
    } else if merged.width != cw || merged.height != ch {
        Some(PsdError::MergedSizeMismatch)
    } else {
        first_layer_error(layers, 0, cw, ch)
    }
}

// ── primitive writers ───────────────────────────────────────────────

/// Appends `v` big-endian.
pub fn write_be_u16(out: &mut Vec<u8>, v: u16)
    ensures
        final(out)@ == old(out)@ + be_u16(v),
{
    out.push((v / 256) as u8);
    out.push((v % 256) as u8);
    assert(final(out)@ =~= old(out)@ + be_u16(v));
}

/// Appends `v` big-endian.
pub fn write_be_u32(out: &mut Vec<u8>, v: u32)
    ensures
        final(out)@ == old(out)@ + be_u32(v),
{
    out.push((v / 0x100_0000) as u8);
    out.push(((v / 0x1_0000) % 256) as u8);
    out.push(((v / 256) % 256) as u8);
    out.push((v % 256) as u8);
    assert(final(out)@ =~= old(out)@ + be_u32(v));
}

/// Appends `v` big-endian, two's complement.
pub fn write_be_i16(out: &mut Vec<u8>, v: i16)
    ensures
        final(out)@ == old(out)@ + be_i16(v),
{
    let u: u16 = if v < 0 {
        (v as i32 + 0x1_0000) as u16
    } else {
        v as u16
    };
    write_be_u16(out, u);
}

fn write_bytes(out: &mut Vec<u8>, bytes: &[u8])
    ensures
        final(out)@ == old(out)@ + bytes@,
{
    let ghost start = out@;
    let mut i: usize = 0;
    while i < bytes.len()
        invariant
            i <= bytes@.len(),
            out@ == start + bytes@.take(i as int),
        decreases bytes@.len() - i,
    {
        out.push(bytes[i]);
        i = i + 1;
        assert(out@ =~= start + bytes@.take(i as int));
    }
    assert(bytes@.take(i as int) =~= bytes@);
}

fn write_zeros(out: &mut Vec<u8>, n: usize)
    ensures
        final(out)@ == old(out)@ + zeros(n as nat),
{
    let ghost start = out@;
    let mut i: usize = 0;
    while i < n
        invariant
            i <= n,
            out@ == start + zeros(i as nat),
        decreases n - i,
    {
        out.push(0u8);
        i = i + 1;
        assert(out@ =~= start + zeros(i as nat));
    }
}

/// Appends the UTF-8 of `s` as a Pascal string padded to a multiple of 4.
pub fn write_pascal_string_padded4(out: &mut Vec<u8>, s: &str)
    ensures
        final(out)@ == old(out)@ + pascal4(vstd::utf8::encode_utf8(s@)),
{
    let raw = s.as_bytes();
    let len: usize = if raw.len() < 255 {
        raw.len()
    } else {
        255
    };
    let ghost start = out@;
    out.push(len as u8);
    let mut i: usize = 0;
    while i < len
        invariant
            len <= raw@.len(),
            i <= len,
            out@ == start + seq![len as u8] + raw@.take(i as int),
        decreases len - i,
    {
        out.push(raw[i]);
        i = i + 1;
        assert(out@ =~= start + seq![len as u8] + raw@.take(i as int));
    }
    let total = 1 + len;
    let pad = (4 - (total % 4)) % 4;
    write_zeros(out, pad);
    assert(raw@ == vstd::utf8::encode_utf8(s@));
    assert(out@ =~= start + pascal4(vstd::utf8::encode_utf8(s@)));
}

/// Appends one channel plane (`raw[c], raw[c + 4], ...`).
fn write_plane(out: &mut Vec<u8>, raw: &Vec<u8>, c: usize)
    requires
        c < 4,
    ensures
        final(out)@ == old(out)@ + plane(raw@, c as int),
{
    let ghost start = out@;
    let ghost p = plane(raw@, c as int);
    let n = raw.len();
    let mut i: usize = c;
    let mut k: usize = 0;
    while i < n
        invariant
            c < 4,
            n == raw@.len(),
            i < n ==> i == 4 * k + c && k < p.len(),
            i >= n ==> k == p.len(),
            p == plane(raw@, c as int),
            out@ == start + p.take(k as int),
        decreases n - i,
    {
        out.push(raw[i]);
        assert(p[k as int] == raw@[4 * k + c]);
        k = k + 1;
        assert(out@ =~= start + p.take(k as int));
        if n - i > 4 {
            i = i + 4;
        } else {
            i = n;
        }
    }
    assert(p.take(k as int) =~= p);
}

// ── section writers ─────────────────────────────────────────────────

/// Appends the PSD file header for a `w × h` RGBA canvas.
pub fn write_header(out: &mut Vec<u8>, w: u32, h: u32)
    ensures
        final(out)@ == old(out)@ + header(w, h),
{
    let ghost start = out@;
    out.push(0x38u8);
    out.push(0x42u8);
    out.push(0x50u8);
    out.push(0x53u8);
    write_be_u16(out, 1);
    write_zeros(out, 6);
    write_be_u16(out, 4);
    write_be_u32(out, h);
    write_be_u32(out, w);
    write_be_u16(out, 8);
    write_be_u16(out, 3);
    assert(out@ =~= start + header(w, h));
}

fn write_layer_channels(out: &mut Vec<u8>, raw: &Vec<u8>)
    ensures
        final(out)@ == old(out)@ + layer_channels(raw@),
{
    let ghost start = out@;
    write_be_u16(out, 0);
    write_plane(out, raw, 0);
    write_be_u16(out, 0);
    write_plane(out, raw, 1);
    write_be_u16(out, 0);
    write_plane(out, raw, 2);
    write_be_u16(out, 0);
    write_plane(out, raw, 3);
    assert(out@ =~= start + layer_channels(raw@));
}

/// Rectangle sides are consistent with a validated layer.
pub open spec fn layer_ok(l: PsdLayer) -> bool {
    &&& l.rect.2 > l.rect.0
    &&& l.rect.3 > l.rect.1
    &&& l.rect.3 <= PSD_MAX_SIDE
    &&& l.rect.2 <= PSD_MAX_SIDE
}

fn write_record_rect(out: &mut Vec<u8>, l: &PsdLayer)
    ensures
        final(out)@ == old(out)@ + record_rect(*l),
{
    let ghost start = out@;
    write_be_u32(out, l.rect.0);
    write_be_u32(out, l.rect.1);
    write_be_u32(out, l.rect.2);
    write_be_u32(out, l.rect.3);
    write_be_u16(out, 4);
    assert(out@ =~= start + record_rect(*l));
}

fn write_record_channel_info(out: &mut Vec<u8>, cb: u32)
    ensures
        final(out)@ == old(out)@ + record_channel_info(cb),
{
    let ghost start = out@;
    write_be_i16(out, 0);
    write_be_u32(out, cb);
    write_be_i16(out, 1);
    write_be_u32(out, cb);
    write_be_i16(out, 2);
    write_be_u32(out, cb);
    write_be_i16(out, -1);
    write_be_u32(out, cb);
    assert(out@ =~= start + record_channel_info(cb));
}

fn write_record_blend(out: &mut Vec<u8>)
    ensures
        final(out)@ == old(out)@ + record_blend(),
{
    let ghost start = out@;
    out.push(0x38u8);
    out.push(0x42u8);
    out.push(0x49u8);
    out.push(0x4du8);
    out.push(0x6eu8);
    out.push(0x6fu8);
    out.push(0x72u8);
    out.push(0x6du8);
    out.push(255u8);
    out.push(0u8);
    out.push(0u8);
    out.push(0u8);
    assert(out@ =~= start + record_blend());
}

fn write_layer_record(out: &mut Vec<u8>, l: &PsdLayer)
    requires
        layer_ok(*l),
    ensures
        final(out)@ == old(out)@ + layer_record(*l),
{
    let ghost start = out@;
    let (top, left, bottom, right) = l.rect;
    let lw: u64 = (right - left) as u64;
    let lh: u64 = (bottom - top) as u64;
    proof {
        assert(lw * lh <= 30000 * 30000) by (nonlinear_arith)
            requires
                lw <= 30000,
                lh <= 30000,
        ;
    }
    let cb: u32 = (2 + lw * lh) as u32;
    assert(cb == channel_bytes(*l));
    write_record_rect(out, l);
    write_record_channel_info(out, cb);
    write_record_blend(out);
    let mut extra: Vec<u8> = Vec::new();
    write_be_u32(&mut extra, 0);
    write_be_u32(&mut extra, 0);
    write_pascal_string_padded4(&mut extra, l.name.as_str());
    assert(extra@ =~= layer_extra(*l));
    let elen = extra.len();
    proof {
        assert(pascal4(name_bytes(*l)).len() <= 1 + 255 + 3);
    }
    let ghost mid = out@;
    write_be_u32(out, elen as u32);
    write_bytes(out, extra.as_slice());
    assert(out@ =~= start + layer_record(*l));
}

pub open spec fn all_layers_ok(layers: Seq<PsdLayer>) -> bool {
    forall|i: int| 0 <= i < layers.len() ==> #[trigger] layer_ok(layers[i])
}

#[verifier::rlimit(60)]
fn write_layer_and_mask_info(out: &mut Vec<u8>, layers: &Vec<PsdLayer>)
    requires
        all_layers_ok(layers@),
    ensures
        final(out)@ == old(out)@ + layer_and_mask(layers@),
{
    let mut li: Vec<u8> = Vec::new();
    write_be_u16(&mut li, (layers.len() % 0x1_0000) as u16);
    let mut i: usize = 0;
    while i < layers.len()
        invariant
            i <= layers@.len(),
            all_layers_ok(layers@),
            li@ == be_u16((layers@.len() % 0x1_0000) as u16) + records(layers@.take(i as int)),
        decreases layers@.len() - i,
    {
        assert(layer_ok(layers@[i as int]));
        let ghost before = li@;
        write_layer_record(&mut li, &layers[i]);
        proof {
            let t = layers@.take(i + 1);
            assert(t.drop_last() =~= layers@.take(i as int));
            assert(t.last() == layers@[i as int]);
            assert(records(t) == records(layers@.take(i as int)) + layer_record(layers@[i as int]));
        }
        i = i + 1;
        assert(li@ =~= be_u16((layers@.len() % 0x1_0000) as u16) + records(
            layers@.take(i as int),
        ));
    }
    assert(layers@.take(i as int) =~= layers@);
    let ghost after_records = li@;
    let mut j: usize = 0;
    while j < layers.len()
        invariant
            j <= layers@.len(),
            li@ == after_records + channel_data(layers@.take(j as int)),
        decreases layers@.len() - j,
    {
        write_layer_channels(&mut li, &layers[j].image.rgba);
        j = j + 1;
        assert(layers@.take(j as int).drop_last() =~= layers@.take(j - 1));
        assert(li@ =~= after_records + channel_data(layers@.take(j as int)));
    }
    assert(layers@.take(j as int) =~= layers@);
    assert(li@ =~= layer_info_raw(layers@));
    if li.len() % 2 != 0 {
        li.push(0u8);
    }
    assert(li@ =~= layer_info(layers@));
    let n: u64 = (li.len() as u64) % 0x1_0000_0000;
    proof {
        vstd::arithmetic::div_mod::lemma_add_mod_noop(li@.len() as int, 8, 0x1_0000_0000);
    }
    let section_len: u32 = ((n + 8) % 0x1_0000_0000) as u32;
    let ghost start = out@;
    write_be_u32(out, section_len);
    write_be_u32(out, n as u32);
    write_bytes(out, li.as_slice());
    write_be_u32(out, 0);
    assert(out@ =~= start + layer_and_mask(layers@));
}

fn write_merged_image(out: &mut Vec<u8>, img: &Raster)
    ensures
        final(out)@ == old(out)@ + merged_block(img.rgba@),
{
    let ghost start = out@;
    write_be_u16(out, 0);
    write_plane(out, &img.rgba, 0);
    write_plane(out, &img.rgba, 1);
    write_plane(out, &img.rgba, 2);
    write_plane(out, &img.rgba, 3);
    assert(out@ =~= start + merged_block(img.rgba@));
}

proof fn lemma_no_first_error_all_ok(layers: Seq<PsdLayer>, i: int, cw: u32, ch: u32)
    requires
        0 <= i,
        cw <= PSD_MAX_SIDE,
        ch <= PSD_MAX_SIDE,
        first_layer_error(layers, i, cw, ch) is None,
    ensures
        forall|k: int| i <= k < layers.len() ==> #[trigger] layer_ok(layers[k]) && layer_error(
            layers[k],
            k,
            cw,
            ch,
        ) is None,
    decreases layers.len() - i,
{
    if i < layers.len() {
        lemma_no_first_error_all_ok(layers, i + 1, cw, ch);
    }
}

/// Encodes a PSD file. `merged` is the flat preview stored after the layer
/// block. Returns the encoding error, checked in this order: zero canvas,
/// canvas over the v1 limit, merged size, then the first bad layer.
pub fn write_psd(canvas_width: u32, canvas_height: u32, layers: &Vec<PsdLayer>, merged: &Raster) -> (r:
    Result<Vec<u8>, PsdError>)
    ensures
        match r {
            Ok(bytes) => psd_error(canvas_width, canvas_height, layers@, *merged) is None
                && bytes@ == psd_bytes(canvas_width, canvas_height, layers@, *merged),
            Err(e) => psd_error(canvas_width, canvas_height, layers@, *merged) == Some(e),
        },
{
    if canvas_width == 0 || canvas_height == 0 {
        return Err(PsdError::ZeroDimension);
    }
    if canvas_width > PSD_MAX_SIDE || canvas_height > PSD_MAX_SIDE {
        return Err(PsdError::CanvasTooLarge);
    }
    if merged.width != canvas_width || merged.height != canvas_height {
        return Err(PsdError::MergedSizeMismatch);
    }
    let mut i: usize = 0;
    while i < layers.len()
        invariant
            i <= layers@.len(),
            0 < canvas_width <= PSD_MAX_SIDE,
            0 < canvas_height <= PSD_MAX_SIDE,
            merged.width == canvas_width,
            merged.height == canvas_height,
            first_layer_error(layers@, 0, canvas_width, canvas_height) == first_layer_error(
                layers@,
                i as int,
                canvas_width,
                canvas_height,
            ),
        decreases layers@.len() - i,
    {
        let layer = &layers[i];
        let (t, l, b, r) = layer.rect;
        assert(first_layer_error(layers@, i as int, canvas_width, canvas_height) == match layer_error(
            layers@[i as int],
            i as int,
            canvas_width,
            canvas_height,
        ) {
            Some(e) => Some(e),
            None => first_layer_error(layers@, i + 1, canvas_width, canvas_height),
        });
        assert(layers@[i as int].rect == (t, l, b, r));
        if b <= t || r <= l {
            assert(layer_error(layers@[i as int], i as int, canvas_width, canvas_height) == Some(
                PsdError::DegenerateRect(i),
            ));
            return Err(PsdError::DegenerateRect(i));
        }
        if r > canvas_width || b > canvas_height {
            assert(layer_error(layers@[i as int], i as int, canvas_width, canvas_height) == Some(
                PsdError::RectOutsideCanvas(i),
            ));
            return Err(PsdError::RectOutsideCanvas(i));
        }
        if layer.image.width != r - l || layer.image.height != b - t {
            return Err(PsdError::ImageSizeMismatch(i));
        }
        i = i + 1;
    }
    proof {
        lemma_no_first_error_all_ok(layers@, 0, canvas_width, canvas_height);
    }
    let mut out: Vec<u8> = Vec::new();
    write_header(&mut out, canvas_width, canvas_height);
    write_be_u32(&mut out, 0);
    write_be_u32(&mut out, 0);
    write_layer_and_mask_info(&mut out, layers);
    write_merged_image(&mut out, merged);
    assert(out@ =~= psd_bytes(canvas_width, canvas_height, layers@, *merged));
    Ok(out)
}

// ── format laws ─────────────────────────────────────────────────────

/// Every PSD starts with the 26-byte header: signature `8BPS`, version 1,
/// six reserved zeros, 4 channels, height, width, depth 8, RGB mode.
pub proof fn law_psd_starts_with_header(w: u32, h: u32, layers: Seq<PsdLayer>, merged: Raster)
    ensures
        psd_bytes(w, h, layers, merged).len() >= 26,
        psd_bytes(w, h, layers, merged).subrange(0, 26) == header(w, h),
        header(w, h).subrange(0, 4) == seq![0x38u8, 0x42u8, 0x50u8, 0x53u8],
        header(w, h).subrange(4, 6) == be_u16(1),
        header(w, h).subrange(12, 14) == be_u16(4),
        header(w, h).subrange(14, 18) == be_u32(h),
        header(w, h).subrange(18, 22) == be_u32(w),
        header(w, h).subrange(22, 24) == be_u16(8),
        header(w, h).subrange(24, 26) == be_u16(3),
{
    let all = psd_bytes(w, h, layers, merged);
    assert(header(w, h).len() == 26);
    assert(all.subrange(0, 26) =~= header(w, h));
    assert(header(w, h).subrange(0, 4) =~= seq![0x38u8, 0x42u8, 0x50u8, 0x53u8]);
    assert(header(w, h).subrange(4, 6) =~= be_u16(1));
    assert(header(w, h).subrange(12, 14) =~= be_u16(4));
    assert(header(w, h).subrange(14, 18) =~= be_u32(h));
    assert(header(w, h).subrange(18, 22) =~= be_u32(w));
    assert(header(w, h).subrange(22, 24) =~= be_u16(8));
    assert(header(w, h).subrange(24, 26) =~= be_u16(3));
}

/// The layer-info length is rounded up to a multiple of 2.
pub proof fn law_layer_info_even(layers: Seq<PsdLayer>)
    ensures
        layer_info(layers).len() % 2 == 0,
        layer_info(layers).len() >= layer_info_raw(layers).len(),
        layer_info(layers).subrange(0, layer_info_raw(layers).len() as int) == layer_info_raw(
            layers,
        ),
{
    assert(layer_info(layers).subrange(0, layer_info_raw(layers).len() as int)
        =~= layer_info_raw(layers));
}

/// A Pascal name field is a multiple of 4 bytes long; its first byte is
/// the stored length (the name's length capped at 255) and the name's
/// leading bytes follow it.
pub proof fn law_pascal4_field(name: Seq<u8>)
    ensures
        pascal4(name).len() % 4 == 0,
        pascal4(name)[0] as int == if name.len() < 255 { name.len() as int } else { 255 },
        pascal4(name).subrange(1, 1 + pascal4(name)[0] as int) == name.take(
            pascal4(name)[0] as int,
        ),
{
    let len: nat = if name.len() < 255 { name.len() } else { 255nat };
    assert(pascal4(name).subrange(1, 1 + len as int) =~= name.take(len as int));
}

/// Channels are written as planes: entry `i` of plane `c` is byte
/// `4 * i + c` of the interleaved RGBA buffer, and a `w × h` image yields
/// planes of `w * h` bytes.
pub proof fn law_plane_deinterleaves(img: Raster, c: int, i: int)
    requires
        img.wf(),
        0 <= c < 4,
        0 <= i < (img.width as int) * (img.height as int),
    ensures
        plane(img.rgba@, c).len() == (img.width as int) * (img.height as int),
        plane(img.rgba@, c)[i] == img.rgba@[4 * i + c],
{
    let n = (img.width as int) * (img.height as int);
    assert(img.rgba@.len() == 4 * n) by (nonlinear_arith)
        requires
            img.rgba@.len() == 4 * (img.width as int) * (img.height as int),
            n == (img.width as int) * (img.height as int),
    ;
}

/// With no layers the layer & mask section length is 10: the layer-info
/// length field, a two-byte zero layer count, and the global-mask length.
pub proof fn law_empty_layer_section(w: u32, h: u32, merged: Raster)
    ensures
        psd_bytes(w, h, Seq::empty(), merged).subrange(34, 38) == be_u32(10),
        layer_info(Seq::<PsdLayer>::empty()) == be_u16(0),
{
    let layers = Seq::<PsdLayer>::empty();
    assert(records(layers) =~= Seq::<u8>::empty());
    assert(channel_data(layers) =~= Seq::<u8>::empty());
    assert(layer_info_raw(layers) =~= be_u16(0));
    assert(layer_info(layers) =~= be_u16(0));
    assert(psd_bytes(w, h, layers, merged).subrange(34, 38) =~= be_u32(10));
}

/// The two-byte channel id PSD gives RGBA component `c`: red 0, green 1,
/// blue 2, and -1 (`FF FF`) for the transparency mask.
pub open spec fn channel_id_bytes(c: int) -> Seq<u8> {
    if c == 3 {
        seq![0xffu8, 0xffu8]
    } else {
        seq![0u8, c as u8]
    }
}

proof fn lemma_second_of_five(a: Seq<u8>, b: Seq<u8>, c: Seq<u8>, d: Seq<u8>, e: Seq<u8>)
    ensures
        (a + b + c + d + e).len() >= a.len() + b.len(),
        (a + b + c + d + e).subrange(a.len() as int, (a.len() + b.len()) as int) == b,
{
    assert((a + b + c + d + e).subrange(a.len() as int, (a.len() + b.len()) as int) =~= b);
}

proof fn lemma_record_holds_channel_info(l: PsdLayer)
    ensures
        layer_record(l).len() >= 42,
        layer_record(l).subrange(18, 42) == record_channel_info(channel_bytes(l)),
{
    let info = record_channel_info(channel_bytes(l));
    let rect = record_rect(l);
    assert(be_i16(0).len() == 2 && be_i16(1).len() == 2 && be_i16(2).len() == 2 && be_i16(-1i16).len() == 2);
    assert(be_u32(channel_bytes(l)).len() == 4);
    assert(rect.len() == 18);
    assert(info.len() == 24);
    lemma_second_of_five(rect, info, record_blend(), be_u32(layer_extra(l).len() as u32), layer_extra(l));
}

proof fn lemma_channel_info_entry(cb: u32, c: int)
    requires
        0 <= c < 4,
    ensures
        record_channel_info(cb).subrange(6 * c, 6 * c + 2) == channel_id_bytes(c),
        record_channel_info(cb).subrange(6 * c + 2, 6 * c + 6) == be_u32(cb),
{
    let info = record_channel_info(cb);
    assert(be_i16(0) =~= seq![0u8, 0u8]);
    assert(be_i16(1) =~= seq![0u8, 1u8]);
    assert(be_i16(2) =~= seq![0u8, 2u8]);
    assert(be_i16(-1i16) =~= seq![0xffu8, 0xffu8]);
    if c == 0 {
        assert(info.subrange(0, 2) =~= channel_id_bytes(0));
        assert(info.subrange(2, 6) =~= be_u32(cb));
    } else if c == 1 {
        assert(info.subrange(6, 8) =~= channel_id_bytes(1));
        assert(info.subrange(8, 12) =~= be_u32(cb));
    } else if c == 2 {
        assert(info.subrange(12, 14) =~= channel_id_bytes(2));
        assert(info.subrange(14, 18) =~= be_u32(cb));
    } else {
        assert(info.subrange(18, 20) =~= channel_id_bytes(3));
        assert(info.subrange(20, 24) =~= be_u32(cb));
    }
}

proof fn lemma_record_entry(rec: Seq<u8>, cb: u32, c: int)
    requires
        rec.len() >= 42,
        rec.subrange(18, 42) == record_channel_info(cb),
        0 <= c < 4,
    ensures
        rec.subrange(18 + 6 * c, 20 + 6 * c) == channel_id_bytes(c),
        rec.subrange(20 + 6 * c, 24 + 6 * c) == be_u32(cb),
{
    lemma_channel_info_entry(cb, c);
    assert(rec.subrange(18 + 6 * c, 20 + 6 * c) =~= rec.subrange(18, 42).subrange(6 * c, 6 * c + 2));
    assert(rec.subrange(20 + 6 * c, 24 + 6 * c) =~= rec.subrange(18, 42).subrange(6 * c + 2, 6 * c + 6));
}

proof fn lemma_block_of_four(b0: Seq<u8>, b1: Seq<u8>, b2: Seq<u8>, b3: Seq<u8>, m: int, c: int)
    requires
        b0.len() == m,
        b1.len() == m,
        b2.len() == m,
        b3.len() == m,
        0 <= c < 4,
    ensures
        (b0 + b1 + b2 + b3).len() == 4 * m,
        (b0 + b1 + b2 + b3).subrange(c * m, c * m + m) == if c == 0 { b0 } else if c == 1 { b1 } else if c
            == 2 { b2 } else { b3 },
{
    let all = b0 + b1 + b2 + b3;
    if c == 0 {
        assert(all.subrange(0, m) =~= b0);
    } else if c == 1 {
        assert(all.subrange(m, 2 * m) =~= b1);
    } else if c == 2 {
        assert(all.subrange(2 * m, 3 * m) =~= b2);
    } else {
        assert(all.subrange(3 * m, 4 * m) =~= b3);
    }
}

proof fn lemma_channel_block(raw: Seq<u8>, n: int, c: int, i: int)
    requires
        raw.len() == 4 * n,
        0 <= c < 4,
        0 <= i < n,
    ensures
        layer_channels(raw).len() == 4 * (2 + n),
        layer_channels(raw).subrange(c * (2 + n), c * (2 + n) + 2) == seq![0u8, 0u8],
        layer_channels(raw)[c * (2 + n) + 2 + i] == raw[4 * i + c],
{
    let z = be_u16(0);
    assert(z =~= seq![0u8, 0u8]);
    let b0 = z + plane(raw, 0);
    let b1 = z + plane(raw, 1);
    let b2 = z + plane(raw, 2);
    let b3 = z + plane(raw, 3);
    let ch = layer_channels(raw);
    assert(ch =~= b0 + b1 + b2 + b3);
    let blk = 2 + n;
    lemma_block_of_four(b0, b1, b2, b3, blk, c);
    let bc = z + plane(raw, c);
    let st = c * blk;
    assert(0 <= st && st + blk <= 4 * blk) by (nonlinear_arith)
        requires
            st == c * blk,
            0 <= c < 4,
            blk >= 2,
    ;
    assert(ch.subrange(st, st + blk) == bc);
    assert(bc[2 + i] == raw[4 * i + c]);
    assert(ch[st + 2 + i] == ch.subrange(st, st + blk)[2 + i]);
    assert(ch.subrange(st, st + 2) =~= bc.subrange(0, 2));
    assert(bc.subrange(0, 2) =~= z);
}

/// In a layer record, channel-info entry `c` (bytes `18 + 6c ..`) names
/// the plane written at position `c` of the layer's channel data: entry
/// `c` carries the id of RGBA component `c` and the size of that block,
/// and block `c` is a raw-compression tag followed by component `c` of
/// every pixel, in pixel order.
pub proof fn law_channel_info_matches_planes(l: PsdLayer, c: int, i: int)
    requires
        layer_ok(l),
        l.image.wf(),
        l.image.width == l.rect.3 - l.rect.1,
        l.image.height == l.rect.2 - l.rect.0,
        0 <= c < 4,
        0 <= i < (l.image.width as int) * (l.image.height as int),
    ensures
        ({
            let n = (l.image.width as int) * (l.image.height as int);
            let ch = layer_channels(l.image.rgba@);
            &&& layer_record(l).subrange(18 + 6 * c, 20 + 6 * c) == channel_id_bytes(c)
            &&& layer_record(l).subrange(20 + 6 * c, 24 + 6 * c) == be_u32((2 + n) as u32)
            &&& ch.len() == 4 * (2 + n)
            &&& ch.subrange(c * (2 + n), c * (2 + n) + 2) == seq![0u8, 0u8]
            &&& ch[c * (2 + n) + 2 + i] == l.image.rgba@[4 * i + c]
        }),
{
    let n = (l.image.width as int) * (l.image.height as int);
    let raw = l.image.rgba@;
    assert(raw.len() == 4 * n) by (nonlinear_arith)
        requires
            raw.len() == 4 * (l.image.width as int) * (l.image.height as int),
            n == (l.image.width as int) * (l.image.height as int),
    ;
    assert(n <= 30000 * 30000) by (nonlinear_arith)
        requires
            n == (l.image.width as int) * (l.image.height as int),
            l.image.width <= 30000,
            l.image.height <= 30000,
    ;
    assert(channel_bytes(l) == 2 + n);
    lemma_record_holds_channel_info(l);
    lemma_record_entry(layer_record(l), channel_bytes(l), c);
    lemma_channel_block(raw, n, c, i);
}

} // verus!
