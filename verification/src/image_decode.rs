//! Decoding of the Flate-compressed image XObjects that raster bricks are
//! embedded as: colour-space component counts, predictor parameters,
//! PNG-predictor reconstruction, indexed palettes, soft-mask alpha and
//! the final RGBA assembly.
use vstd::prelude::*;
use crate::pixels::{unfilter_png, unfilter_error, unfiltered, UnfilterError};
use crate::raster::Raster;

verus! {

/// Why an image stream could not be decoded.
#[derive(Debug, PartialEq, Eq)]
pub enum ImageError {
    /// `/Width` or `/Height` is missing or not an integer.
    MissingDimension,
    /// A colour space this decoder does not handle.
    UnsupportedColorSpace,
    /// An object the image refers to cannot be read.
    UnreadableObject,
    /// The zlib stream does not inflate.
    Inflate,
    /// PNG-predictor reconstruction failed.
    Unfilter(UnfilterError),
    /// The TIFF predictor (2).
    TiffPredictor,
    /// Any other predictor (the value is given).
    UnknownPredictor(u32),
    /// Only 8 bits per component are handled (the value is given).
    UnsupportedBitDepth(u32),
    /// The soft mask is not an 8-bit gray plane of the image's size.
    SMaskMismatch,
    /// A component count other than 1, 3 or 4 (the value is given).
    UnsupportedComponents(u32),
    /// The `/Indexed` array lacks its base colour space.
    IndexedMissingBase,
    /// The `/Indexed` array lacks its lookup table.
    IndexedMissingLookup,
    /// The lookup table is neither a string nor a stream.
    UnsupportedLookup,
}

/// A palette lookup table as an `/Indexed` colour space gives it.
pub enum PaletteSource {
    /// A byte string.
    Bytes(Vec<u8>),
    /// A stream's content, and whether the stream names a `/Filter`.
    Stream { content: Vec<u8>, filtered: bool },
    /// A reference that cannot be read as a stream.
    Unreadable,
    /// Any other object.
    Other,
}

/// What an image's `/ColorSpace` entry is, with references followed.
pub enum ColorSpaceEntry {
    /// A name such as `DeviceRGB`.
    Named(Vec<u8>),
    /// `[/ICCBased <stream>]`, with the stream's `/N` when it is an integer.
    IccBased(Option<i64>),
    /// `[/ICCBased <stream>]` whose stream cannot be read.
    IccUnreadable,
    /// `[/Indexed base hival lookup]`: the base (absent when the array is
    /// too short) and the lookup (absent likewise).
    Indexed(Option<Box<ColorSpaceEntry>>, Option<PaletteSource>),
    /// Any other array.
    OtherArray,
    /// A reference that cannot be resolved.
    Unreadable,
    /// Any other object.
    Other,
}

/// The `/DecodeParms` integers an image stream carries (each `None` when
/// absent or not an integer).
pub struct DecodeParmsEntry {
    pub predictor: Option<i64>,
    pub columns: Option<i64>,
    pub colors: Option<i64>,
    pub bpc: Option<i64>,
}

/// The parts of an image XObject stream that decoding reads.
pub struct ImageStream {
    pub width: Option<i64>,
    pub height: Option<i64>,
    pub bpc: Option<i64>,
    pub color_space: Option<ColorSpaceEntry>,
    /// `None` when `/DecodeParms` is absent or not a dictionary.
    pub decode_parms: Option<DecodeParmsEntry>,
    pub content: Vec<u8>,
}

pub open spec fn device_rgb() -> Seq<u8> {
    seq![0x44u8, 0x65, 0x76, 0x69, 0x63, 0x65, 0x52, 0x47, 0x42]
}

pub open spec fn device_gray() -> Seq<u8> {
    seq![0x44u8, 0x65, 0x76, 0x69, 0x63, 0x65, 0x47, 0x72, 0x61, 0x79]
}

pub open spec fn device_cmyk() -> Seq<u8> {
    seq![0x44u8, 0x65, 0x76, 0x69, 0x63, 0x65, 0x43, 0x4d, 0x59, 0x4b]
}

/// Colour components per pixel a colour-space entry stands for; an image
/// without one is taken as RGB.
pub open spec fn color_components_of(cs: Option<ColorSpaceEntry>) -> Result<u32, ImageError> {
    match cs {
        None => Ok(3),
        Some(ColorSpaceEntry::Named(n)) => if n@ == device_rgb() {
            Ok(3)
        } else if n@ == device_gray() {
            Ok(1)
        } else if n@ == device_cmyk() {
            Ok(4)
        } else {
            Err(ImageError::UnsupportedColorSpace)
        },
        Some(ColorSpaceEntry::IccBased(n)) => Ok(
            match n {
                Some(v) => #[verifier::truncate] (v as u32),
                None => 3,
            },
        ),
        Some(ColorSpaceEntry::IccUnreadable) => Err(ImageError::UnreadableObject),
        Some(ColorSpaceEntry::Unreadable) => Err(ImageError::UnreadableObject),
        Some(_) => Err(ImageError::UnsupportedColorSpace),
    }
}

fn bytes_eq(a: &Vec<u8>, b: &[u8]) -> (r: bool)
    ensures
        r == (a@ == b@),
{
    if a.len() != b.len() {
        return false;
    }
    let mut i: usize = 0;
    while i < a.len()
        invariant
            a@.len() == b@.len(),
            i <= a@.len(),
            forall|k: int| 0 <= k < i ==> a@[k] == b@[k],
        decreases a@.len() - i,
    {
        if a[i] != b[i] {
            return false;
        }
        i = i + 1;
    }
    assert(a@ =~= b@);
    true
}

/// Colour components per pixel of an image's colour space.
pub fn color_components(cs: &Option<ColorSpaceEntry>) -> (r: Result<u32, ImageError>)
    ensures
        r == color_components_of(*cs),
{
    match cs {
        None => Ok(3),
        Some(e) => entry_components(e),
    }
}

fn entry_components(cs: &ColorSpaceEntry) -> (r: Result<u32, ImageError>)
    ensures
        r == color_components_of(Some(*cs)),
{
    match cs {
        ColorSpaceEntry::Named(n) => {
            let rgb: [u8; 9] = [0x44u8, 0x65, 0x76, 0x69, 0x63, 0x65, 0x52, 0x47, 0x42];
            let gray: [u8; 10] = [0x44u8, 0x65, 0x76, 0x69, 0x63, 0x65, 0x47, 0x72, 0x61, 0x79];
            let cmyk: [u8; 10] = [0x44u8, 0x65, 0x76, 0x69, 0x63, 0x65, 0x43, 0x4d, 0x59, 0x4b];
            assert(rgb@ =~= device_rgb());
            assert(gray@ =~= device_gray());
            assert(cmyk@ =~= device_cmyk());
            if bytes_eq(n, rgb.as_slice()) {
                Ok(3)
            } else if bytes_eq(n, gray.as_slice()) {
                Ok(1)
            } else if bytes_eq(n, cmyk.as_slice()) {
                Ok(4)
            } else {
                Err(ImageError::UnsupportedColorSpace)
            }
        },
        ColorSpaceEntry::IccBased(n) => Ok(
            match n {
                Some(v) => #[verifier::truncate] (*v as u32),
                None => 3,
            },
        ),
        ColorSpaceEntry::IccUnreadable => Err(ImageError::UnreadableObject),
        ColorSpaceEntry::Unreadable => Err(ImageError::UnreadableObject),
        _ => Err(ImageError::UnsupportedColorSpace),
    }
}

/// `(predictor, columns, colors, bits per component)` with the defaults
/// `(1, 0, 0, 0)` when there are no parameters, and `1, 1, 1, 8` for
/// absent entries.
pub open spec fn parms_of(dp: Option<DecodeParmsEntry>) -> (u32, u32, u32, u32) {
    match dp {
        None => (1, 0, 0, 0),
        Some(d) => (
            match d.predictor { Some(v) => #[verifier::truncate] (v as u32), None => 1 },
            match d.columns { Some(v) => #[verifier::truncate] (v as u32), None => 1 },
            match d.colors { Some(v) => #[verifier::truncate] (v as u32), None => 1 },
            match d.bpc { Some(v) => #[verifier::truncate] (v as u32), None => 8 },
        ),
    }
}

fn opt_u32(v: Option<i64>, dflt: u32) -> (r: u32)
    ensures
        r == match v { Some(x) => #[verifier::truncate] (x as u32), None => dflt },
{
    match v {
        Some(x) => #[verifier::truncate] (x as u32),
        None => dflt,
    }
}

/// The `/DecodeParms` entries the decoder reads, as `(predictor, columns,
/// colours, bits per component)`: `(1, 0, 0, 0)` without a dictionary,
/// else each entry with its default (1, 1, 1, 8) when absent.
pub fn read_decode_parms(dp: &Option<DecodeParmsEntry>) -> (r: (u32, u32, u32, u32))
    ensures
        r == parms_of(*dp),
{
    match dp {
        None => (1, 0, 0, 0),
        Some(d) => (opt_u32(d.predictor, 1), opt_u32(d.columns, 1), opt_u32(d.colors, 1), opt_u32(d.bpc, 8)),
    }
}

/// What inflating a zlib stream yields (`None` when it is not valid).
pub uninterp spec fn zlib_inflated(data: Seq<u8>) -> Option<Seq<u8>>;

/// `flate2::read::ZlibDecoder` read to the end over an in-memory buffer.
#[verifier::external_body]
fn zlib_inflate(data: &[u8]) -> (r: Option<Vec<u8>>)
    ensures
        match r {
            Some(v) => zlib_inflated(data@) == Some(v@),
            None => zlib_inflated(data@) is None,
        },
{
    let mut decoder = flate2::read::ZlibDecoder::new(data);
    let mut out: Vec<u8> = Vec::new();
    match std::io::Read::read_to_end(&mut decoder, &mut out) {
        Ok(_) => Some(out),
        Err(_) => None,
    }
}

/// Bytes per row for PNG-predictor reconstruction: from the predictor's
/// own columns, colours and depth when all are set, else from the image.
pub open spec fn bytes_per_row(width: u32, colors: u32, bpc: u32, parms: (u32, u32, u32, u32)) -> int {
    let (_, pc, pcol, pb) = parms;
    if pc > 0 && pcol > 0 && pb > 0 {
        (pc * pcol * pb + 7) / 8
    } else {
        (width * colors * bpc + 7) / 8
    }
}

/// Reconstruction by predictor: none for 0 and 1, PNG for 10–15.
pub open spec fn apply_predictor(raw: Seq<u8>, predictor: u32, rb: int) -> Result<Seq<u8>, ImageError> {
    if predictor == 0 || predictor == 1 {
        Ok(raw)
    } else if 10 <= predictor <= 15 {
        match unfilter_error(raw, rb) {
            Some(e) => Err(ImageError::Unfilter(e)),
            None => Ok(unfiltered(raw, rb)),
        }
    } else if predictor == 2 {
        Err(ImageError::TiffPredictor)
    } else {
        Err(ImageError::UnknownPredictor(predictor))
    }
}

pub open spec fn dim_of(v: Option<i64>) -> Option<u32> {
    match v {
        Some(x) => Some(#[verifier::truncate] (x as u32)),
        None => None,
    }
}

/// Decoded planes of an image stream: `(bytes, width, height, colours,
/// bits per component)`.
pub open spec fn flate_image(img: ImageStream) -> Result<(Seq<u8>, u32, u32, u32, u32), ImageError> {
    match (dim_of(img.width), dim_of(img.height)) {
        (Some(w), Some(h)) => {
            let bpc: u32 = match img.bpc { Some(v) => #[verifier::truncate] (v as u32), None => 8 };
            match color_components_of(img.color_space) {
                Err(e) => Err(e),
                Ok(colors) => match zlib_inflated(img.content@) {
                    None => Err(ImageError::Inflate),
                    Some(raw) => {
                        let parms = parms_of(img.decode_parms);
                        match apply_predictor(raw, parms.0, bytes_per_row(w, colors, bpc, parms)) {
                            Err(e) => Err(e),
                            Ok(bytes) => Ok((bytes, w, h, colors, bpc)),
                        }
                    },
                },
            }
        },
        _ => Err(ImageError::MissingDimension),
    }
}

/// The row size decoding computes for a stream fits in 32 bits, where
/// decoding gets that far (dimensions and colour space read, data
/// inflated).
pub open spec fn row_size_fits(img: ImageStream) -> bool {
    match (dim_of(img.width), dim_of(img.height), color_components_of(img.color_space)) {
        (Some(w), Some(_), Ok(c)) => {
            let bpc: u32 = match img.bpc { Some(v) => #[verifier::truncate] (v as u32), None => 8 };
            let (_, pc, pcol, pb) = parms_of(img.decode_parms);
            zlib_inflated(img.content@) is Some ==> if pc > 0 && pcol > 0 && pb > 0 {
                pc * pcol * pb + 7 <= u32::MAX
            } else {
                w * c * bpc + 7 <= u32::MAX
            }
        },
        _ => true,
    }
}

fn predict(raw: Vec<u8>, predictor: u32, rb: usize) -> (r: Result<Vec<u8>, ImageError>)
    requires
        rb < usize::MAX,
    ensures
        match r {
            Ok(v) => apply_predictor(raw@, predictor, rb as int) == Ok::<Seq<u8>, ImageError>(v@),
            Err(e) => apply_predictor(raw@, predictor, rb as int) == Err::<Seq<u8>, ImageError>(e),
        },
{
    if predictor == 0 || predictor == 1 {
        Ok(raw)
    } else if 10 <= predictor && predictor <= 15 {
        match unfilter_png(raw.as_slice(), rb) {
            Ok(v) => Ok(v),
            Err(e) => Err(ImageError::Unfilter(e)),
        }
    } else if predictor == 2 {
        Err(ImageError::TiffPredictor)
    } else {
        Err(ImageError::UnknownPredictor(predictor))
    }
}

proof fn lemma_triple_product(a: u32, b: u32, c: u32)
    ensures
        0 <= a * b <= 0xffff_ffff * 0xffff_ffff,
        0 <= a * b * c <= 0xffff_ffff * 0xffff_ffff * 0xffff_ffff,
{
    assert(0 <= a * b <= 0xffff_ffff * 0xffff_ffff) by (nonlinear_arith)
        requires
            a <= 0xffff_ffff,
            b <= 0xffff_ffff,
    ;
    assert(0 <= a * b * c <= 0xffff_ffff * 0xffff_ffff * 0xffff_ffff) by (nonlinear_arith)
        requires
            0 <= a * b <= 0xffff_ffff * 0xffff_ffff,
            c <= 0xffff_ffff,
    ;
}

/// Decodes a Flate image stream into its planes; `None` where the row
/// size would not fit in 32 bits.
fn flate_planes(img: &ImageStream) -> (r: Option<Result<(Vec<u8>, u32, u32, u32, u32), ImageError>>)
    ensures
        r is None <==> !row_size_fits(*img),
        r matches Some(x) ==> match x {
            Ok((v, w, h, c, b)) => flate_image(*img) == Ok::<(Seq<u8>, u32, u32, u32, u32), ImageError>((v@, w, h, c, b)),
            Err(e) => flate_image(*img) == Err::<(Seq<u8>, u32, u32, u32, u32), ImageError>(e),
        },
{
    let w: u32 = match img.width {
        Some(v) => #[verifier::truncate] (v as u32),
        None => return Some(Err(ImageError::MissingDimension)),
    };
    let h: u32 = match img.height {
        Some(v) => #[verifier::truncate] (v as u32),
        None => return Some(Err(ImageError::MissingDimension)),
    };
    let bpc: u32 = opt_u32(img.bpc, 8);
    let colors = match color_components(&img.color_space) {
        Ok(c) => c,
        Err(e) => return Some(Err(e)),
    };
    let raw = match zlib_inflate(img.content.as_slice()) {
        Some(v) => v,
        None => return Some(Err(ImageError::Inflate)),
    };
    let (predictor, pc, pcol, pb) = read_decode_parms(&img.decode_parms);
    proof {
        lemma_triple_product(pc, pcol, pb);
        lemma_triple_product(w, colors, bpc);
    }
    let prod: u128 = if pc > 0 && pcol > 0 && pb > 0 {
        (pc as u128) * (pcol as u128) * (pb as u128)
    } else {
        (w as u128) * (colors as u128) * (bpc as u128)
    };
    if prod + 7 > 0xffff_ffffu128 {
        return None;
    }
    let rb: u32 = ((prod + 7) / 8) as u32;
    let bytes = match predict(raw, predictor, rb as usize) {
        Ok(v) => v,
        Err(e) => return Some(Err(e)),
    };
    Some(Ok((bytes, w, h, colors, bpc)))
}

/// Decodes a Flate image stream into its planes.
pub fn decode_flate_image(img: &ImageStream) -> (r: Result<(Vec<u8>, u32, u32, u32, u32), ImageError>)
    requires
        row_size_fits(*img),
    ensures
        match r {
            Ok((v, w, h, c, b)) => flate_image(*img) == Ok::<(Seq<u8>, u32, u32, u32, u32), ImageError>((v@, w, h, c, b)),
            Err(e) => flate_image(*img) == Err::<(Seq<u8>, u32, u32, u32, u32), ImageError>(e),
        },
{
    match flate_planes(img) {
        Some(x) => x,
        None => {
            assert(false);
            Err(ImageError::MissingDimension)
        },
    }
}

// ── palettes ────────────────────────────────────────────────────────

/// One RGB channel of a CMYK colour: `(1 - x) · (1 - k) · 255`, rounded.
pub open spec fn cmyk_channel(x: u8, k: u8) -> u8 {
    (((255 - x) * (255 - k) * 2 + 255) / 510) as u8
}

fn cmyk_to_channel(x: u8, k: u8) -> (r: u8)
    ensures
        r == cmyk_channel(x, k),
{
    let a: u32 = 255 - x as u32;
    let b: u32 = 255 - k as u32;
    proof {
        assert(a * b <= 255 * 255) by (nonlinear_arith) requires a <= 255, b <= 255;
        assert(0 <= a * b) by (nonlinear_arith) requires 0 <= a, 0 <= b;
    }
    let v: u32 = (a * b * 2 + 255) / 510;
    v as u8
}

/// A gray palette expanded to RGB.
pub open spec fn gray_to_rgb(g: Seq<u8>) -> Seq<u8> {
    Seq::new(3 * g.len(), |i: int| g[i / 3])
}

/// A CMYK palette (whole entries only) converted to RGB.
pub open spec fn cmyk_to_rgb(c: Seq<u8>) -> Seq<u8> {
    Seq::new(3 * (c.len() / 4), |i: int| cmyk_channel(c[4 * (i / 3) + i % 3], c[4 * (i / 3) + 3]))
}

/// The bytes of a palette lookup table.
pub open spec fn lookup_bytes(src: PaletteSource) -> Result<Seq<u8>, ImageError> {
    match src {
        PaletteSource::Bytes(b) => Ok(b@),
        PaletteSource::Stream { content, filtered } => if filtered {
            match zlib_inflated(content@) {
                Some(v) => Ok(v),
                None => Err(ImageError::Inflate),
            }
        } else {
            Ok(content@)
        },
        PaletteSource::Unreadable => Err(ImageError::UnreadableObject),
        PaletteSource::Other => Err(ImageError::UnsupportedLookup),
    }
}

/// The RGB palette of an `/Indexed` colour space, `None` for any other.
pub open spec fn palette_of(cs: Option<ColorSpaceEntry>) -> Result<Option<Seq<u8>>, ImageError> {
    match cs {
        Some(ColorSpaceEntry::Indexed(base, lookup)) => match base {
            None => Err(ImageError::IndexedMissingBase),
            Some(b) => match color_components_of(Some(*b)) {
                Err(e) => Err(e),
                Ok(bc) => match lookup {
                    None => Err(ImageError::IndexedMissingLookup),
                    Some(src) => match lookup_bytes(src) {
                        Err(e) => Err(e),
                        Ok(bytes) => if bc == 3 {
                            Ok(Some(bytes))
                        } else if bc == 1 {
                            Ok(Some(gray_to_rgb(bytes)))
                        } else if bc == 4 {
                            Ok(Some(cmyk_to_rgb(bytes)))
                        } else {
                            Err(ImageError::UnsupportedComponents(bc))
                        },
                    },
                },
            },
        },
        Some(ColorSpaceEntry::Unreadable) => Err(ImageError::UnreadableObject),
        _ => Ok(None),
    }
}

fn read_lookup(src: &PaletteSource) -> (r: Result<Vec<u8>, ImageError>)
    ensures
        match r {
            Ok(v) => lookup_bytes(*src) == Ok::<Seq<u8>, ImageError>(v@),
            Err(e) => lookup_bytes(*src) == Err::<Seq<u8>, ImageError>(e),
        },
{
    match src {
        PaletteSource::Bytes(b) => Ok(b.clone()),
        PaletteSource::Stream { content, filtered } => {
            if *filtered {
                match zlib_inflate(content.as_slice()) {
                    Some(v) => Ok(v),
                    None => Err(ImageError::Inflate),
                }
            } else {
                Ok(content.clone())
            }
        },
        PaletteSource::Unreadable => Err(ImageError::UnreadableObject),
        PaletteSource::Other => Err(ImageError::UnsupportedLookup),
    }
}

fn expand_gray(g: &Vec<u8>) -> (r: Vec<u8>)
    ensures
        r@ == gray_to_rgb(g@),
{
    let mut out: Vec<u8> = Vec::new();
    let mut i: usize = 0;
    while i < g.len()
        invariant
            i <= g@.len(),
            out@.len() == 3 * i,
            forall|k: int| 0 <= k < 3 * i ==> #[trigger] out@[k] == g@[k / 3],
        decreases g@.len() - i,
    {
        let v = g[i];
        out.push(v);
        out.push(v);
        out.push(v);
        i = i + 1;
    }
    assert(out@ =~= gray_to_rgb(g@));
    out
}

fn expand_cmyk(c: &Vec<u8>) -> (r: Vec<u8>)
    ensures
        r@ == cmyk_to_rgb(c@),
{
    let len = c.len();
    let n = len / 4;
    proof {
        assert(4 * n <= len) by (nonlinear_arith)
            requires
                n == len / 4,
        ;
    }
    let mut out: Vec<u8> = Vec::new();
    let mut j: usize = 0;
    while j < n
        invariant
            n == c@.len() / 4,
            4 * n <= c@.len(),
            len == c@.len(),
            j <= n,
            out@.len() == 3 * j,
            forall|k: int| 0 <= k < 3 * j ==> #[trigger] out@[k] == cmyk_channel(c@[4 * (k / 3) + k % 3], c@[4 * (k / 3) + 3]),
        decreases n - j,
    {
        let kk = c[4 * j + 3];
        out.push(cmyk_to_channel(c[4 * j], kk));
        out.push(cmyk_to_channel(c[4 * j + 1], kk));
        out.push(cmyk_to_channel(c[4 * j + 2], kk));
        j = j + 1;
        proof {
            assert forall|k: int| 0 <= k < 3 * j implies #[trigger] out@[k] == cmyk_channel(c@[4 * (k / 3) + k % 3], c@[4 * (k / 3) + 3]) by {
                if k >= 3 * (j - 1) {
                    assert(k / 3 == j - 1);
                }
            }
        }
    }
    assert(out@ =~= cmyk_to_rgb(c@));
    out
}

/// Resolves the RGB palette of an `/Indexed` colour space.
pub fn resolve_indexed(cs: &Option<ColorSpaceEntry>) -> (r: Result<Option<Vec<u8>>, ImageError>)
    ensures
        match r {
            Ok(Some(v)) => palette_of(*cs) == Ok::<Option<Seq<u8>>, ImageError>(Some(v@)),
            Ok(None) => palette_of(*cs) == Ok::<Option<Seq<u8>>, ImageError>(None),
            Err(e) => palette_of(*cs) == Err::<Option<Seq<u8>>, ImageError>(e),
        },
{
    match cs {
        Some(ColorSpaceEntry::Indexed(base, lookup)) => {
            let b = match base {
                None => return Err(ImageError::IndexedMissingBase),
                Some(b) => b,
            };
            let bc = match entry_components(&**b) {
                Ok(c) => c,
                Err(e) => return Err(e),
            };
            let src = match lookup {
                None => return Err(ImageError::IndexedMissingLookup),
                Some(src) => src,
            };
            let bytes = match read_lookup(src) {
                Ok(v) => v,
                Err(e) => return Err(e),
            };
            if bc == 3 {
                Ok(Some(bytes))
            } else if bc == 1 {
                Ok(Some(expand_gray(&bytes)))
            } else if bc == 4 {
                Ok(Some(expand_cmyk(&bytes)))
            } else {
                Err(ImageError::UnsupportedComponents(bc))
            }
        },
        Some(ColorSpaceEntry::Unreadable) => Err(ImageError::UnreadableObject),
        _ => Ok(None),
    }
}

// ── image assembly ──────────────────────────────────────────────────

/// An image's soft mask as its `/SMask` entry gives it.
pub enum SoftMask {
    /// No `/SMask` reference.
    Absent,
    /// A reference that cannot be read as a stream.
    Unreadable,
    Present(ImageStream),
}

/// Decoded colour and alpha planes of an image, before assembly.
pub struct PreparedImage {
    pub rgb: Vec<u8>,
    pub width: u32,
    pub height: u32,
    pub colors: u32,
    pub alpha: Vec<u8>,
}

/// Planes of an indexed image: one index byte per pixel.
pub open spec fn indexed_planes(img: ImageStream) -> Result<(Seq<u8>, u32, u32, u32, u32), ImageError> {
    match (dim_of(img.width), dim_of(img.height)) {
        (Some(w), Some(h)) => {
            let bpc: u32 = match img.bpc { Some(v) => #[verifier::truncate] (v as u32), None => 8 };
            match zlib_inflated(img.content@) {
                None => Err(ImageError::Inflate),
                Some(raw) => {
                    let (p, pc, pcol, pb) = parms_of(img.decode_parms);
                    let rb = if pc > 0 {
                        (pc * (if pcol >= 1 { pcol } else { 1 }) * (if pb >= 8 { pb } else { 8 }) + 7) / 8
                    } else {
                        (w * bpc + 7) / 8
                    };
                    if p == 0 || p == 1 {
                        Ok((raw, w, h, 1, bpc))
                    } else if 10 <= p <= 15 {
                        match unfilter_error(raw, rb) {
                            Some(e) => Err(ImageError::Unfilter(e)),
                            None => Ok((unfiltered(raw, rb), w, h, 1, bpc)),
                        }
                    } else {
                        Err(ImageError::UnknownPredictor(p))
                    }
                },
            }
        },
        _ => Err(ImageError::MissingDimension),
    }
}

/// Palette indices expanded to RGB; an index past the palette gives black.
pub open spec fn expand_indices(raw: Seq<u8>, pal: Seq<u8>) -> Seq<u8> {
    Seq::new(3 * raw.len(), |k: int| {
        let i = raw[k / 3] * 3;
        if i + 2 < pal.len() { pal[i + k % 3] } else { 0u8 }
    })
}

/// The alpha plane: the soft mask's gray plane when it matches the image,
/// else fully opaque when there is none.
pub open spec fn alpha_plane(smask: SoftMask, w: u32, h: u32) -> Result<Seq<u8>, ImageError> {
    match smask {
        SoftMask::Absent => Ok(Seq::new((w * h) as nat, |i: int| 255u8)),
        SoftMask::Unreadable => Err(ImageError::UnreadableObject),
        SoftMask::Present(s) => match flate_image(s) {
            Err(e) => Err(e),
            Ok((bytes, sw, sh, sc, sb)) => if sc != 1 || sb != 8 || sw != w || sh != h {
                Err(ImageError::SMaskMismatch)
            } else {
                Ok(bytes)
            },
        },
    }
}

/// `(rgb, width, height, colours, alpha)` of an image and its soft mask.
pub open spec fn prepared(img: ImageStream, smask: SoftMask) -> Result<(Seq<u8>, u32, u32, u32, Seq<u8>), ImageError> {
    match palette_of(img.color_space) {
        Err(e) => Err(e),
        Ok(pal) => {
            let planes = if pal is Some { indexed_planes(img) } else { flate_image(img) };
            match planes {
                Err(e) => Err(e),
                Ok((raw, w, h, colors, bpc)) => if bpc != 8 {
                    Err(ImageError::UnsupportedBitDepth(bpc))
                } else {
                    let rgb = match pal {
                        Some(p) => expand_indices(raw, p),
                        None => raw,
                    };
                    match alpha_plane(smask, w, h) {
                        Err(e) => Err(e),
                        Ok(alpha) => Ok((rgb, w, h, if pal is Some { 3 } else { colors }, alpha)),
                    }
                },
            }
        },
    }
}

/// The row size decoding computes for an indexed stream fits in 32 bits,
/// where decoding gets that far.
pub open spec fn indexed_row_fits(img: ImageStream) -> bool {
    match (dim_of(img.width), dim_of(img.height)) {
        (Some(w), Some(_)) => {
            let bpc: u32 = match img.bpc { Some(v) => #[verifier::truncate] (v as u32), None => 8 };
            let (_, pc, pcol, pb) = parms_of(img.decode_parms);
            zlib_inflated(img.content@) is Some ==> if pc > 0 {
                pc * (if pcol >= 1 { pcol } else { 1 }) * (if pb >= 8 { pb } else { 8 }) + 7 <= u32::MAX
            } else {
                w * bpc + 7 <= u32::MAX
            }
        },
        _ => true,
    }
}

/// Every 32-bit size product that decoding an image and its soft mask
/// forms fits, along the path decoding takes: the row size of the main
/// planes, then the soft mask's row size, then the pixel count.
pub open spec fn sizes_fit(img: ImageStream, smask: SoftMask) -> bool {
    match palette_of(img.color_space) {
        Err(_) => true,
        Ok(pal) => {
            &&& pal is Some ==> indexed_row_fits(img)
            &&& pal is None ==> row_size_fits(img)
            &&& (if pal is Some { indexed_planes(img) } else { flate_image(img) }) matches Ok(t) ==> (t.4 == 8 ==> {
                &&& smask matches SoftMask::Present(m) ==> row_size_fits(m)
                &&& alpha_plane(smask, t.1, t.2) is Ok ==> t.1 * t.2 <= u32::MAX
            })
        },
    }
}

/// Planes of an indexed stream; `None` where the row size would not fit
/// in 32 bits.
fn indexed_image(img: &ImageStream) -> (r: Option<Result<(Vec<u8>, u32, u32, u32, u32), ImageError>>)
    ensures
        r is None <==> !indexed_row_fits(*img),
        r matches Some(x) ==> match x {
            Ok((v, w, h, c, b)) => indexed_planes(*img) == Ok::<(Seq<u8>, u32, u32, u32, u32), ImageError>((v@, w, h, c, b)),
            Err(e) => indexed_planes(*img) == Err::<(Seq<u8>, u32, u32, u32, u32), ImageError>(e),
        },
{
    let w: u32 = match img.width {
        Some(v) => #[verifier::truncate] (v as u32),
        None => return Some(Err(ImageError::MissingDimension)),
    };
    let h: u32 = match img.height {
        Some(v) => #[verifier::truncate] (v as u32),
        None => return Some(Err(ImageError::MissingDimension)),
    };
    let bpc: u32 = opt_u32(img.bpc, 8);
    let raw = match zlib_inflate(img.content.as_slice()) {
        Some(v) => v,
        None => return Some(Err(ImageError::Inflate)),
    };
    let (p, pc, pcol, pb) = read_decode_parms(&img.decode_parms);
    let c2: u32 = if pcol >= 1 { pcol } else { 1 };
    let b2: u32 = if pb >= 8 { pb } else { 8 };
    proof {
        lemma_triple_product(pc, c2, b2);
        lemma_triple_product(w, bpc, 1);
    }
    let prod: u128 = if pc > 0 {
        (pc as u128) * (c2 as u128) * (b2 as u128)
    } else {
        (w as u128) * (bpc as u128)
    };
    if prod + 7 > 0xffff_ffffu128 {
        return None;
    }
    let rb: u32 = ((prod + 7) / 8) as u32;
    if p == 0 || p == 1 {
        Some(Ok((raw, w, h, 1, bpc)))
    } else if 10 <= p && p <= 15 {
        match unfilter_png(raw.as_slice(), rb as usize) {
            Ok(v) => Some(Ok((v, w, h, 1, bpc))),
            Err(e) => Some(Err(ImageError::Unfilter(e))),
        }
    } else {
        Some(Err(ImageError::UnknownPredictor(p)))
    }
}

fn expand_palette_indices(raw: &Vec<u8>, pal: &Vec<u8>) -> (r: Vec<u8>)
    ensures
        r@ == expand_indices(raw@, pal@),
{
    let mut out: Vec<u8> = Vec::new();
    let mut k: usize = 0;
    while k < raw.len()
        invariant
            k <= raw@.len(),
            out@.len() == 3 * k,
            forall|t: int| 0 <= t < 3 * k ==> #[trigger] out@[t] == expand_indices(raw@, pal@)[t],
        decreases raw@.len() - k,
    {
        let i: usize = (raw[k] as usize) * 3;
        if i + 2 < pal.len() {
            out.push(pal[i]);
            out.push(pal[i + 1]);
            out.push(pal[i + 2]);
        } else {
            out.push(0);
            out.push(0);
            out.push(0);
        }
        k = k + 1;
        proof {
            assert forall|t: int| 0 <= t < 3 * k implies #[trigger] out@[t] == expand_indices(raw@, pal@)[t] by {
                if t >= 3 * (k - 1) {
                    assert(t / 3 == k - 1);
                }
            }
        }
    }
    assert(out@ =~= expand_indices(raw@, pal@));
    out
}

fn opaque_plane(n: usize) -> (r: Vec<u8>)
    ensures
        r@ == Seq::new(n as nat, |i: int| 255u8),
{
    let mut out: Vec<u8> = Vec::new();
    let mut i: usize = 0;
    while i < n
        invariant
            i <= n,
            out@ == Seq::new(i as nat, |t: int| 255u8),
        decreases n - i,
    {
        out.push(255u8);
        i = i + 1;
        assert(out@ =~= Seq::new(i as nat, |t: int| 255u8));
    }
    out
}

/// Decodes an image stream and its soft mask into colour and alpha
/// planes; `None` where a size product would not fit in 32 bits.
#[verifier::rlimit(40)]
fn prepare_checked(img: &ImageStream, smask: &SoftMask) -> (r: Option<Result<PreparedImage, ImageError>>)
    ensures
        r is None <==> !sizes_fit(*img, *smask),
        r matches Some(x) ==> match x {
            Ok(p) => prepared(*img, *smask) == Ok::<(Seq<u8>, u32, u32, u32, Seq<u8>), ImageError>((p.rgb@, p.width, p.height, p.colors, p.alpha@))
                && p.width * p.height <= u32::MAX,
            Err(e) => prepared(*img, *smask) == Err::<(Seq<u8>, u32, u32, u32, Seq<u8>), ImageError>(e),
        },
{
    let pal = match resolve_indexed(&img.color_space) {
        Ok(p) => p,
        Err(e) => return Some(Err(e)),
    };
    let planes = match &pal {
        Some(_) => indexed_image(img),
        None => flate_planes(img),
    };
    let (raw, w, h, colors, bpc) = match planes {
        None => return None,
        Some(Ok(t)) => t,
        Some(Err(e)) => return Some(Err(e)),
    };
    if bpc != 8 {
        return Some(Err(ImageError::UnsupportedBitDepth(bpc)));
    }
    let rgb = match &pal {
        Some(p) => expand_palette_indices(&raw, p),
        None => raw,
    };
    proof {
        assert(0 <= w * h <= 0xffff_ffff * 0xffff_ffff) by (nonlinear_arith)
            requires
                w <= 0xffff_ffff,
                h <= 0xffff_ffff,
        ;
    }
    let alpha = match smask {
        SoftMask::Absent => {
            if (w as u64) * (h as u64) > 0xffff_ffffu64 {
                return None;
            }
            opaque_plane((w * h) as usize)
        },
        SoftMask::Unreadable => return Some(Err(ImageError::UnreadableObject)),
        SoftMask::Present(s) => {
            match flate_planes(s) {
                None => return None,
                Some(Err(e)) => return Some(Err(e)),
                Some(Ok((bytes, sw, sh, sc, sb))) => {
                    if sc != 1 || sb != 8 || sw != w || sh != h {
                        return Some(Err(ImageError::SMaskMismatch));
                    }
                    bytes
                },
            }
        },
    };
    if (w as u64) * (h as u64) > 0xffff_ffffu64 {
        return None;
    }
    let colors2: u32 = if pal.is_some() { 3 } else { colors };
    Some(Ok(PreparedImage { rgb, width: w, height: h, colors: colors2, alpha }))
}

/// Decodes an image stream and its soft mask into colour and alpha planes.
pub fn prepare_image(img: &ImageStream, smask: &SoftMask) -> (r: Result<PreparedImage, ImageError>)
    requires
        sizes_fit(*img, *smask),
    ensures
        match r {
            Ok(p) => prepared(*img, *smask) == Ok::<(Seq<u8>, u32, u32, u32, Seq<u8>), ImageError>((p.rgb@, p.width, p.height, p.colors, p.alpha@))
                && p.width * p.height <= u32::MAX,
            Err(e) => prepared(*img, *smask) == Err::<(Seq<u8>, u32, u32, u32, Seq<u8>), ImageError>(e),
        },
{
    match prepare_checked(img, smask) {
        Some(x) => x,
        None => {
            assert(false);
            Err(ImageError::MissingDimension)
        },
    }
}

/// The planes hold every pixel the assembly reads.
pub open spec fn planes_complete(rgb: Seq<u8>, w: u32, h: u32, colors: u32, alpha: Seq<u8>) -> bool {
    let n = w * h;
    &&& alpha.len() >= n
    &&& colors == 3 ==> rgb.len() >= 3 * n
    &&& colors == 1 ==> rgb.len() >= n
    &&& colors == 4 ==> rgb.len() >= 4 * n
}

/// RGBA bytes of an image: colour from the colour plane (gray replicated,
/// CMYK converted), alpha from the alpha plane.
pub open spec fn rgba_of(rgb: Seq<u8>, w: u32, h: u32, colors: u32, alpha: Seq<u8>) -> Seq<u8> {
    Seq::new((4 * (w * h)) as nat, |i: int| {
        let q = i / 4;
        let c = i % 4;
        if c == 3 {
            alpha[q]
        } else if colors == 3 {
            rgb[3 * q + c]
        } else if colors == 1 {
            rgb[q]
        } else {
            cmyk_channel(rgb[4 * q + c], rgb[4 * q + 3])
        }
    })
}

pub open spec fn handled_components(c: u32) -> bool {
    c == 1 || c == 3 || c == 4
}

/// Combines the colour and alpha planes into an RGBA raster.
pub fn assemble_rgba(p: &PreparedImage) -> (r: Result<Raster, ImageError>)
    requires
        p.width * p.height <= u32::MAX,
        planes_complete(p.rgb@, p.width, p.height, p.colors, p.alpha@),
    ensures
        match r {
            Ok(img) => handled_components(p.colors) && img.width == p.width && img.height == p.height
                && img.rgba@ == rgba_of(p.rgb@, p.width, p.height, p.colors, p.alpha@) && img.wf(),
            Err(e) => !handled_components(p.colors) && e == ImageError::UnsupportedComponents(p.colors),
        },
{
    let c = p.colors;
    if !(c == 1 || c == 3 || c == 4) {
        return Err(ImageError::UnsupportedComponents(c));
    }
    proof {
        assert(0 <= p.width * p.height) by (nonlinear_arith) requires 0 <= p.width, 0 <= p.height;
    }
    let n: usize = (p.width * p.height) as usize;
    let rl = p.rgb.len();
    let ghost want = rgba_of(p.rgb@, p.width, p.height, p.colors, p.alpha@);
    let mut out: Vec<u8> = Vec::new();
    let mut i: usize = 0;
    while i < n
        invariant
            n == p.width * p.height,
            rl == p.rgb@.len(),
            c == p.colors,
            handled_components(c),
            planes_complete(p.rgb@, p.width, p.height, p.colors, p.alpha@),
            want == rgba_of(p.rgb@, p.width, p.height, p.colors, p.alpha@),
            i <= n,
            out@.len() == 4 * i,
            forall|t: int| 0 <= t < 4 * i ==> #[trigger] out@[t] == want[t],
        decreases n - i,
    {
        let a = p.alpha[i];
        proof {
            assert(3 * i + 3 <= 3 * n && 4 * i + 4 <= 4 * n) by (nonlinear_arith) requires i < n;
        }
        if c == 3 {
            out.push(p.rgb[3 * i]);
            out.push(p.rgb[3 * i + 1]);
            out.push(p.rgb[3 * i + 2]);
        } else if c == 1 {
            let g = p.rgb[i];
            out.push(g);
            out.push(g);
            out.push(g);
        } else {
            let k = p.rgb[4 * i + 3];
            out.push(cmyk_to_channel(p.rgb[4 * i], k));
            out.push(cmyk_to_channel(p.rgb[4 * i + 1], k));
            out.push(cmyk_to_channel(p.rgb[4 * i + 2], k));
        }
        out.push(a);
        i = i + 1;
        proof {
            assert forall|t: int| 0 <= t < 4 * i implies #[trigger] out@[t] == want[t] by {
                if t >= 4 * (i - 1) {
                    assert(t / 4 == i - 1);
                }
            }
        }
    }
    proof {
        assert(out@ =~= want);
        assert(4 * (p.width as int) * (p.height as int) == 4 * (p.width * p.height)) by (nonlinear_arith);
    }
    Ok(Raster { width: p.width, height: p.height, rgba: out })
}

/// What decoding an image and its soft mask gives: the RGBA raster, `None`
/// when the planes are shorter than the image, or the error.
pub open spec fn extracted(img: ImageStream, smask: SoftMask, r: Result<Option<Raster>, ImageError>) -> bool {
    match prepared(img, smask) {
        Err(e) => r == Err::<Option<Raster>, ImageError>(e),
        Ok((rgb, w, h, colors, alpha)) => match r {
            Ok(Some(out)) => handled_components(colors) && planes_complete(rgb, w, h, colors, alpha) && out.width
                == w && out.height == h && out.rgba@ == rgba_of(rgb, w, h, colors, alpha) && out.wf(),
            Ok(None) => handled_components(colors) && !planes_complete(rgb, w, h, colors, alpha),
            Err(e) => !handled_components(colors) && e == ImageError::UnsupportedComponents(colors),
        },
    }
}

fn assemble_checked(p: PreparedImage) -> (r: Result<Option<Raster>, ImageError>)
    requires
        p.width * p.height <= u32::MAX,
    ensures
        match r {
            Ok(Some(out)) => handled_components(p.colors) && planes_complete(p.rgb@, p.width, p.height, p.colors, p.alpha@)
                && out.width == p.width && out.height == p.height && out.rgba@ == rgba_of(p.rgb@, p.width, p.height, p.colors, p.alpha@)
                && out.wf(),
            Ok(None) => handled_components(p.colors) && !planes_complete(p.rgb@, p.width, p.height, p.colors, p.alpha@),
            Err(e) => !handled_components(p.colors) && e == ImageError::UnsupportedComponents(p.colors),
        },
{
    let c = p.colors;
    if !(c == 1 || c == 3 || c == 4) {
        return Err(ImageError::UnsupportedComponents(c));
    }
    let n: u64 = (p.width as u64) * (p.height as u64);
    proof {
        assert(c * n <= 4 * 0xffff_ffffu64) by (nonlinear_arith) requires c <= 4, n <= 0xffff_ffffu64;
    }
    let need: u64 = (c as u64) * n;
    let al = p.alpha.len();
    let rl = p.rgb.len();
    if (al as u64) < n || (rl as u64) < need {
        return Ok(None);
    }
    match assemble_rgba(&p) {
        Ok(r) => Ok(Some(r)),
        Err(e) => Err(e),
    }
}

/// Decodes one brick's image XObject (with its soft mask) into an RGBA
/// raster. `Ok(None)` when the decoded planes are shorter than the image
/// they describe, where reading them would run past their end.
pub fn extract_image_block(img: &ImageStream, smask: &SoftMask) -> (r: Result<Option<Raster>, ImageError>)
    requires
        sizes_fit(*img, *smask),
    ensures
        extracted(*img, *smask, r),
{
    match prepare_image(img, smask) {
        Ok(p) => assemble_checked(p),
        Err(e) => Err(e),
    }
}

/// Decodes an image XObject whatever its sizes: `None` when a size product
/// decoding forms would not fit in 32 bits (where the arithmetic would
/// overflow), else what `extract_image_block` gives.
pub fn try_extract_image_block(img: &ImageStream, smask: &SoftMask) -> (r: Option<Result<Option<Raster>, ImageError>>)
    ensures
        r is None <==> !sizes_fit(*img, *smask),
        r matches Some(x) ==> extracted(*img, *smask, x),
{
    match prepare_checked(img, smask) {
        None => None,
        Some(Ok(p)) => Some(assemble_checked(p)),
        Some(Err(e)) => Some(Err(e)),
    }
}

/// An image without a soft mask comes out fully opaque.
pub proof fn law_unmasked_image_is_opaque(img: ImageStream, r: Result<Option<Raster>, ImageError>)
    requires
        extracted(img, SoftMask::Absent, r),
    ensures
        r matches Ok(Some(out)) ==> forall|p: int| 0 <= p < (out.width * out.height) ==> #[trigger] out.rgba@[4 * p + 3] == 255u8,
{
    if let Ok(Some(out)) = r {
        if let Ok((rgb, w, h, colors, alpha)) = prepared(img, SoftMask::Absent) {
            assert forall|p: int| 0 <= p < (out.width * out.height) implies #[trigger] out.rgba@[4 * p + 3] == 255u8 by {
                assert((4 * p + 3) / 4 == p);
                assert((4 * p + 3) % 4 == 3);
                assert(alpha == Seq::new((w * h) as nat, |i: int| 255u8));
            }
        }
    }
}

/// A one-component (gray) image comes out gray: each pixel's red, green
/// and blue are its gray level.
pub proof fn law_gray_image_is_gray(img: ImageStream, smask: SoftMask, r: Result<Option<Raster>, ImageError>)
    requires
        extracted(img, smask, r),
        prepared(img, smask) matches Ok((_, _, _, colors, _)) && colors == 1,
    ensures
        r matches Ok(Some(out)) ==> forall|p: int|
            0 <= p < (out.width * out.height) ==> #[trigger] out.rgba@[4 * p] == out.rgba@[4 * p + 1] && out.rgba@[4 * p]
                == out.rgba@[4 * p + 2],
{
    if let Ok(Some(out)) = r {
        assert forall|p: int| 0 <= p < (out.width * out.height) implies #[trigger] out.rgba@[4 * p] == out.rgba@[4 * p + 1]
            && out.rgba@[4 * p] == out.rgba@[4 * p + 2] by {
            assert((4 * p) / 4 == p && (4 * p) % 4 == 0);
            assert((4 * p + 1) / 4 == p && (4 * p + 1) % 4 == 1);
            assert((4 * p + 2) / 4 == p && (4 * p + 2) % 4 == 2);
        }
    }
}

} // verus!
