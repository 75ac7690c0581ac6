//! The layered PSD of an export bundle: which assets become layers, in
//! what order, and where each piece layer sits on the canvas.
use vstd::prelude::*;
use vstd::arithmetic::div_mod::{lemma_fundamental_div_mod, lemma_fundamental_div_mod_converse};
use crate::psd::{psd_bytes, psd_error, write_psd, PsdError, PsdLayer};
use crate::raster::{lemma_pixel_offset, Raster};
use crate::types::PuzzlePiece;

verus! {

/// A layer as the PSD encoder reads it: name, `(top, left, bottom, right)`
/// rectangle, image size and pixels.
pub struct LayerPlan {
    pub name: Seq<char>,
    pub rect: (u32, u32, u32, u32),
    pub width: u32,
    pub height: u32,
    pub rgba: Seq<u8>,
}

pub open spec fn plan_of(l: PsdLayer) -> LayerPlan {
    LayerPlan { name: l.name@, rect: l.rect, width: l.image.width, height: l.image.height, rgba: l.image.rgba@ }
}

pub open spec fn plans_of(ls: Seq<PsdLayer>) -> Seq<LayerPlan> {
    Seq::new(ls.len(), |i: int| plan_of(ls[i]))
}

/// The export assets found on disk, `None` where a file is absent.
pub struct ExportAssets {
    pub background: Option<Raster>,
    pub composite: Option<Raster>,
    /// One slot per piece, in piece order.
    pub pieces: Vec<Option<Raster>>,
    pub outlines: Option<Raster>,
}

/// A canvas-sized asset.
#[derive(Debug, PartialEq, Eq, Clone, Copy)]
pub enum CanvasAsset {
    Background,
    Composite,
    Outlines,
}

/// Why the export PSD could not be produced.
#[derive(Debug, PartialEq, Eq)]
pub enum ExportError {
    /// A canvas-sized asset whose size is not the canvas's.
    WrongSize(CanvasAsset),
    /// The composite image, which the PSD needs, is absent.
    MissingComposite,
    /// The PSD encoder refused the layers.
    Psd(PsdError),
}

/// A canvas side: the requested one, and at least 1.
pub open spec fn canvas_side(v: i32) -> u32 {
    if v < 1 {
        1
    } else {
        v as u32
    }
}

pub open spec fn fits_canvas(img: Raster, cw: u32, ch: u32) -> bool {
    img.width == cw && img.height == ch
}

/// A canvas-sized asset as a layer covering the whole canvas.
pub open spec fn canvas_plan(name: Seq<char>, img: Raster, cw: u32, ch: u32) -> LayerPlan {
    LayerPlan { name, rect: (0, 0, ch, cw), width: img.width, height: img.height, rgba: img.rgba@ }
}

/// The top-left `w × h` corner of `img`, row-major RGBA.
pub open spec fn cropped(img: Raster, w: int, h: int) -> Seq<u8> {
    Seq::new((4 * w * h) as nat, |i: int| img.rgba@[4 * ((i / 4) / w * img.width + (i / 4) % w) + i % 4])
}

pub open spec fn clamp0(v: i32) -> int {
    if v < 0 {
        0
    } else {
        v as int
    }
}

pub open spec fn min_int(a: int, b: int) -> int {
    if a <= b {
        a
    } else {
        b
    }
}

/// Where a piece's layer goes, as `(top, left, bottom, right)`: at the
/// piece's position (a negative coordinate taken as 0), the size of its
/// image, cut off at the canvas edges.
pub open spec fn piece_rect(p: PuzzlePiece, img: Raster, cw: u32, ch: u32) -> (int, int, int, int) {
    let top = clamp0(p.y);
    let left = clamp0(p.x);
    (top, left, min_int(top + img.height, ch as int), min_int(left + img.width, cw as int))
}

/// A piece's layer, `piece_<id>`, with its image cut to the rectangle;
/// none when nothing of it lies on the canvas.
pub open spec fn piece_plan(p: PuzzlePiece, img: Raster, cw: u32, ch: u32) -> Option<LayerPlan> {
    let (t, l, b, r) = piece_rect(p, img, cw, ch);
    if b <= t || r <= l {
        None
    } else {
        Some(
            LayerPlan {
                name: "piece_"@ + p.id@,
                rect: (t as u32, l as u32, b as u32, r as u32),
                width: (r - l) as u32,
                height: (b - t) as u32,
                rgba: cropped(img, r - l, b - t),
            },
        )
    }
}

/// The layers of the first `k` pieces that have an image.
pub open spec fn piece_plans(pieces: Seq<PuzzlePiece>, imgs: Seq<Option<Raster>>, cw: u32, ch: u32, k: int) -> Seq<
    LayerPlan,
>
    decreases k,
{
    if k <= 0 {
        seq![]
    } else {
        let prev = piece_plans(pieces, imgs, cw, ch, k - 1);
        match imgs[k - 1] {
            Some(img) => match piece_plan(pieces[k - 1], img, cw, ch) {
                Some(pl) => prev.push(pl),
                None => prev,
            },
            None => prev,
        }
    }
}

/// The export PSD's layers, bottom-up: the background (when present), the
/// composite, one layer per piece with an image, and the outlines (when
/// present). The canvas-sized assets must have the canvas's size, checked
/// in that order, and the composite must be present.
pub open spec fn export_plan(pieces: Seq<PuzzlePiece>, assets: ExportAssets, cw: u32, ch: u32) -> Result<
    Seq<LayerPlan>,
    ExportError,
> {
    if assets.background matches Some(b) && !fits_canvas(b, cw, ch) {
        Err(ExportError::WrongSize(CanvasAsset::Background))
    } else if assets.composite is None {
        Err(ExportError::MissingComposite)
    } else if !fits_canvas(assets.composite->0, cw, ch) {
        Err(ExportError::WrongSize(CanvasAsset::Composite))
    } else if assets.outlines matches Some(o) && !fits_canvas(o, cw, ch) {
        Err(ExportError::WrongSize(CanvasAsset::Outlines))
    } else {
        let bg: Seq<LayerPlan> = match assets.background {
            Some(b) => seq![canvas_plan("background"@, b, cw, ch)],
            None => seq![],
        };
        let ol: Seq<LayerPlan> = match assets.outlines {
            Some(o) => seq![canvas_plan("outlines"@, o, cw, ch)],
            None => seq![],
        };
        Ok(
            bg + seq![canvas_plan("composite"@, assets.composite->0, cw, ch)] + piece_plans(
                pieces,
                assets.pieces@,
                cw,
                ch,
                pieces.len() as int,
            ) + ol,
        )
    }
}

/// Inputs an export can run on: one image slot per piece, well-formed
/// images, and piece positions whose far edges fit in 32 bits.
pub open spec fn export_inputs_ok(pieces: Seq<PuzzlePiece>, assets: ExportAssets) -> bool {
    &&& assets.pieces@.len() == pieces.len()
    &&& assets.background matches Some(b) ==> b.wf()
    &&& assets.composite matches Some(c) ==> c.wf()
    &&& assets.outlines matches Some(o) ==> o.wf()
    &&& forall|k: int|
        0 <= k < pieces.len() ==> (#[trigger] assets.pieces@[k] matches Some(img) ==> img.wf() && clamp0(
            pieces[k].y,
        ) + img.height <= u32::MAX && clamp0(pieces[k].x) + img.width <= u32::MAX)
}

proof fn lemma_crop_index(w: int, y: int, x: int, c: int)
    requires
        0 <= x < w,
        0 <= y,
        0 <= c < 4,
    ensures
        (4 * (y * w + x) + c) / 4 == y * w + x,
        (4 * (y * w + x) + c) % 4 == c,
        (y * w + x) / w == y,
        (y * w + x) % w == x,
{
    assert(4 * (y * w + x) + c == (y * w + x) * 4 + c) by (nonlinear_arith);
    lemma_fundamental_div_mod_converse(4 * (y * w + x) + c, 4, y * w + x, c);
    lemma_fundamental_div_mod_converse(y * w + x, w, y, x);
}

/// Cropping a raster to its own size gives it back.
proof fn lemma_crop_whole(img: Raster)
    requires
        img.wf(),
    ensures
        cropped(img, img.width as int, img.height as int) == img.rgba@,
{
    let w = img.width as int;
    let h = img.height as int;
    let s = cropped(img, w, h);
    assert forall|i: int| 0 <= i < s.len() implies s[i] == img.rgba@[i] by {
        assert(w != 0) by {
            if w == 0 {
                assert(4 * w * h == 0) by (nonlinear_arith)
                    requires
                        w == 0,
                ;
            }
        }
        let p = i / 4;
        lemma_fundamental_div_mod(i, 4);
        lemma_fundamental_div_mod(p, w);
        assert(p / w * w == w * (p / w)) by (nonlinear_arith);
    }
    assert(s =~= img.rgba@);
}

/// The top-left `w × h` corner of `img`.
fn crop_corner(img: &Raster, w: u32, h: u32) -> (r: Raster)
    requires
        img.wf(),
        w <= img.width,
        h <= img.height,
    ensures
        r.width == w,
        r.height == h,
        r.wf(),
        r.rgba@ == cropped(*img, w as int, h as int),
{
    let ghost full = cropped(*img, w as int, h as int);
    let iw = img.width as usize;
    let total = img.rgba.len();
    let mut out: Vec<u8> = Vec::new();
    let mut y: u32 = 0;
    while y < h
        invariant
            img.wf(),
            w <= img.width,
            h <= img.height,
            iw == img.width,
            total == img.rgba@.len(),
            y <= h,
            full == cropped(*img, w as int, h as int),
            out@.len() == 4 * ((y as int) * (w as int)),
            forall|i: int| 0 <= i < out@.len() ==> out@[i] == #[trigger] full[i],
        decreases h - y,
    {
        let mut x: u32 = 0;
        while x < w
            invariant
                img.wf(),
                w <= img.width,
                h <= img.height,
                iw == img.width,
                total == img.rgba@.len(),
                y < h,
                x <= w,
                full == cropped(*img, w as int, h as int),
                out@.len() == 4 * ((y as int) * (w as int) + x),
                forall|i: int| 0 <= i < out@.len() ==> out@[i] == #[trigger] full[i],
            decreases w - x,
        {
            proof {
                lemma_pixel_offset(img.width as int, img.height as int, x as int, y as int);
                assert(0 <= (y as int) * (img.width as int)) by (nonlinear_arith)
                    requires
                        0 <= y,
                ;
                assert((y as int) * (w as int) + x < (w as int) * (h as int)) by (nonlinear_arith)
                    requires
                        x < w,
                        y < h,
                ;
                assert(4 * ((y as int) * (img.width as int) + x) + 3 < total);
            }
            let base: usize = 4 * ((y as usize) * iw + (x as usize));
            let ghost o0 = out@;
            let ghost k0 = (y as int) * (w as int) + x;
            out.push(img.rgba[base]);
            out.push(img.rgba[base + 1]);
            out.push(img.rgba[base + 2]);
            out.push(img.rgba[base + 3]);
            proof {
                assert forall|c: int| 0 <= c < 4 implies #[trigger] full[4 * k0 + c] == img.rgba@[base + c] by {
                    lemma_crop_index(w as int, y as int, x as int, c);
                    assert(4 * k0 + c < full.len()) by (nonlinear_arith)
                        requires
                            k0 < (w as int) * (h as int),
                            0 <= c < 4,
                            full.len() == 4 * (w as int) * (h as int),
                    ;
                }
                assert forall|i: int| 0 <= i < out@.len() implies out@[i] == #[trigger] full[i] by {
                    if i >= o0.len() {
                        assert(full[4 * k0 + (i - 4 * k0)] == img.rgba@[base + (i - 4 * k0)]);
                    } else {
                        assert(out@[i] == o0[i]);
                    }
                }
            }
            x = x + 1;
        }
        proof {
            assert((y as int) * (w as int) + w == ((y + 1) as int) * (w as int)) by (nonlinear_arith);
        }
        y = y + 1;
    }
    proof {
        assert(4 * ((h as int) * (w as int)) == 4 * (w as int) * (h as int)) by (nonlinear_arith);
        assert(out@ =~= full);
    }
    Raster { width: w, height: h, rgba: out }
}

/// The layer for one piece with an image: see `piece_plan`.
fn piece_layer(p: &PuzzlePiece, img: Raster, cw: u32, ch: u32) -> (r: Option<PsdLayer>)
    requires
        img.wf(),
        clamp0(p.y) + img.height <= u32::MAX,
        clamp0(p.x) + img.width <= u32::MAX,
    ensures
        match r {
            Some(l) => piece_plan(*p, img, cw, ch) == Some(plan_of(l)),
            None => piece_plan(*p, img, cw, ch) is None,
        },
{
    let top: u32 = if p.y < 0 { 0 } else { p.y as u32 };
    let left: u32 = if p.x < 0 { 0 } else { p.x as u32 };
    let b0: u32 = top + img.height;
    let bottom: u32 = if b0 <= ch { b0 } else { ch };
    let r0: u32 = left + img.width;
    let right: u32 = if r0 <= cw { r0 } else { cw };
    if bottom <= top || right <= left {
        return None;
    }
    let w: u32 = right - left;
    let h: u32 = bottom - top;
    let ghost src = img;
    let image = if w == img.width && h == img.height {
        proof {
            lemma_crop_whole(img);
        }
        img
    } else {
        crop_corner(&img, w, h)
    };
    let mut name = String::from_str("piece_");
    name.append(p.id.as_str());
    let layer = PsdLayer { name, rect: (top, left, bottom, right), image };
    proof {
        assert(layer.name@ =~= "piece_"@ + p.id@);
        assert(plan_of(layer) == piece_plan(*p, src, cw, ch)->0);
    }
    Some(layer)
}

/// The export PSD's layers (see `export_plan`) and its merged preview,
/// the composite.
pub fn export_layers(pieces: &Vec<PuzzlePiece>, assets: ExportAssets, canvas_width: i32, canvas_height: i32) -> (r:
    Result<(Vec<PsdLayer>, Raster), ExportError>)
    requires
        export_inputs_ok(pieces@, assets),
    ensures
        match r {
            Ok((ls, m)) => export_plan(pieces@, assets, canvas_side(canvas_width), canvas_side(canvas_height)) matches Ok(
                p,
            ) && plans_of(ls@) == p && m.width == assets.composite->0.width && m.height
                == assets.composite->0.height && m.rgba@ == assets.composite->0.rgba@,
            Err(e) => export_plan(pieces@, assets, canvas_side(canvas_width), canvas_side(canvas_height)) == Err::<
                Seq<LayerPlan>,
                ExportError,
            >(e),
        },
{
    let ghost a0 = assets;
    let cw: u32 = if canvas_width < 1 { 1 } else { canvas_width as u32 };
    let ch: u32 = if canvas_height < 1 { 1 } else { canvas_height as u32 };
    let ExportAssets { background, composite, pieces: imgs, outlines } = assets;
    match &background {
        Some(b) => {
            if b.width != cw || b.height != ch {
                return Err(ExportError::WrongSize(CanvasAsset::Background));
            }
        },
        None => {},
    }
    let comp = match composite {
        Some(c) => c,
        None => {
            return Err(ExportError::MissingComposite);
        },
    };
    if comp.width != cw || comp.height != ch {
        return Err(ExportError::WrongSize(CanvasAsset::Composite));
    }
    match &outlines {
        Some(o) => {
            if o.width != cw || o.height != ch {
                return Err(ExportError::WrongSize(CanvasAsset::Outlines));
            }
        },
        None => {},
    }
    let merged = Raster { width: comp.width, height: comp.height, rgba: comp.rgba.clone() };
    proof {
        assert(merged.rgba@ =~= comp.rgba@);
    }
    let mut layers: Vec<PsdLayer> = Vec::new();
    match background {
        Some(b) => {
            layers.push(PsdLayer { name: String::from_str("background"), rect: (0, 0, ch, cw), image: b });
        },
        None => {},
    }
    layers.push(PsdLayer { name: String::from_str("composite"), rect: (0, 0, ch, cw), image: comp });
    let ghost head = plans_of(layers@);
    let mut imgs = imgs;
    let n = pieces.len();
    let mut k: usize = 0;
    while k < n
        invariant
            n == pieces@.len(),
            k <= n,
            a0.pieces@.len() == n,
            export_inputs_ok(pieces@, a0),
            imgs@ == a0.pieces@.skip(k as int),
            head.len() <= layers@.len(),
            plans_of(layers@) == head + piece_plans(pieces@, a0.pieces@, cw, ch, k as int),
        decreases n - k,
    {
        let ghost before = layers@;
        let slot = imgs.remove(0);
        assert(slot == a0.pieces@[k as int]);
        assert(imgs@ =~= a0.pieces@.skip(k + 1));
        match slot {
            Some(img) => {
                assert(a0.pieces@[k as int] matches Some(im) ==> im.wf());
                match piece_layer(&pieces[k], img, cw, ch) {
                    Some(l) => {
                        layers.push(l);
                        assert(plans_of(layers@) =~= plans_of(before).push(plan_of(l)));
                    },
                    None => {},
                }
            },
            None => {},
        }
        k = k + 1;
    }
    let ghost mid = layers@;
    match outlines {
        Some(o) => {
            layers.push(PsdLayer { name: String::from_str("outlines"), rect: (0, 0, ch, cw), image: o });
            assert(plans_of(layers@) =~= plans_of(mid).push(plans_of(layers@).last()));
        },
        None => {},
    }
    proof {
        let p = export_plan(pieces@, a0, cw, ch);
        assert(p matches Ok(q) && plans_of(layers@) =~= q);
    }
    Ok((layers, merged))
}

/// Layers `ls` and preview `m` carry the planned layers `p` and the
/// pixels of the composite `c`.
pub open spec fn encodes(p: Seq<LayerPlan>, c: Raster, ls: Seq<PsdLayer>, m: Raster) -> bool {
    &&& plans_of(ls) == p
    &&& m.width == c.width
    &&& m.height == c.height
    &&& m.rgba@ == c.rgba@
}

/// Encodes the export PSD: the layers of `export_plan` over the canvas
/// (each side at least 1), with the composite as the merged preview.
pub fn generate_export_psd(pieces: &Vec<PuzzlePiece>, assets: ExportAssets, canvas_width: i32, canvas_height: i32) -> (r:
    Result<Vec<u8>, ExportError>)
    requires
        export_inputs_ok(pieces@, assets),
    ensures
        match r {
            Ok(bytes) => export_plan(pieces@, assets, canvas_side(canvas_width), canvas_side(canvas_height)) matches Ok(
                p,
            ) && exists|ls: Seq<PsdLayer>, m: Raster|
                #[trigger] encodes(p, assets.composite->0, ls, m) && psd_error(
                    canvas_side(canvas_width),
                    canvas_side(canvas_height),
                    ls,
                    m,
                ) is None && bytes@ == psd_bytes(canvas_side(canvas_width), canvas_side(canvas_height), ls, m),
            Err(ExportError::Psd(e)) => export_plan(
                pieces@,
                assets,
                canvas_side(canvas_width),
                canvas_side(canvas_height),
            ) matches Ok(p) && exists|ls: Seq<PsdLayer>, m: Raster|
                #[trigger] encodes(p, assets.composite->0, ls, m) && psd_error(
                    canvas_side(canvas_width),
                    canvas_side(canvas_height),
                    ls,
                    m,
                ) == Some(e),
            Err(e) => export_plan(pieces@, assets, canvas_side(canvas_width), canvas_side(canvas_height)) == Err::<
                Seq<LayerPlan>,
                ExportError,
            >(e),
        },
{
    let ghost a0 = assets;
    let cw: u32 = if canvas_width < 1 { 1 } else { canvas_width as u32 };
    let ch: u32 = if canvas_height < 1 { 1 } else { canvas_height as u32 };
    match export_layers(pieces, assets, canvas_width, canvas_height) {
        Ok((layers, merged)) => {
            let ghost p = export_plan(pieces@, a0, cw, ch)->Ok_0;
            assert(encodes(p, a0.composite->0, layers@, merged));
            match write_psd(cw, ch, &layers, &merged) {
                Ok(bytes) => Ok(bytes),
                Err(e) => Err(ExportError::Psd(e)),
            }
        },
        Err(e) => Err(e),
    }
}

} // verus!
