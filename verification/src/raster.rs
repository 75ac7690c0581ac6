//! Plain RGBA rasters: a row-major, tightly packed `R,G,B,A` byte buffer
//! with its pixel dimensions.
use vstd::prelude::*;

verus! {

/// An RGBA image: `rgba` holds `4 * width * height` bytes, row-major,
/// top-left origin, four bytes (R, G, B, A) per pixel.
pub struct Raster {
    pub width: u32,
    pub height: u32,
    pub rgba: Vec<u8>,
}

impl Raster {
    /// The buffer holds exactly one RGBA quadruple per pixel.
    pub open spec fn wf(&self) -> bool {
        self.rgba@.len() == 4 * (self.width as int) * (self.height as int)
    }

    /// Byte offset of pixel `(x, y)` in the buffer.
    pub open spec fn offset(&self, x: int, y: int) -> int {
        4 * (y * self.width + x)
    }

    /// Channel `c` of pixel `(x, y)`.
    pub open spec fn sample(&self, x: int, y: int, c: int) -> u8 {
        self.rgba@[self.offset(x, y) + c]
    }

    /// Wraps a buffer as a raster when its length matches the dimensions.
    pub fn from_rgba(width: u32, height: u32, rgba: Vec<u8>) -> (r: Option<Raster>)
        ensures
            r is Some <==> rgba@.len() == 4 * (width as int) * (height as int),
            r matches Some(img) ==> img.width == width && img.height == height && img.rgba@
                == rgba@ && img.wf(),
    {
        let w = width as u64;
        let h = height as u64;
        proof {
            assert(w * h <= 0xffff_ffff * 0xffff_ffff) by (nonlinear_arith)
                requires
                    w <= 0xffff_ffff,
                    h <= 0xffff_ffff,
            ;
        }
        let wh: u64 = w * h;
        let n: usize = rgba.len();
        if wh > 0x3fff_ffff_ffff_ffff {
            proof {
                assert(n <= usize::MAX);
                assert(4 * (width as int) * (height as int) == 4 * (wh as int)) by (nonlinear_arith)
                    requires
                        wh == w * h,
                        w == width,
                        h == height,
                ;
            }
            return None;
        }
        let need: u64 = 4 * wh;
        proof {
            assert(4 * (width as int) * (height as int) == need as int) by (nonlinear_arith)
                requires
                    wh == w * h,
                    w == width,
                    h == height,
                    need == 4 * wh,
            ;
        }
        if (n as u64) == need {
            Some(Raster { width, height, rgba })
        } else {
            None
        }
    }

    /// The alpha of pixel `(x, y)`.
    pub fn alpha_at(&self, x: u32, y: u32) -> (a: u8)
        requires
            self.wf(),
            x < self.width,
            y < self.height,
        ensures
            a == self.sample(x as int, y as int, 3),
    {
        let n = self.rgba.len();
        proof {
            lemma_pixel_offset(self.width as int, self.height as int, x as int, y as int);
            assert(0 <= (y as int) * (self.width as int)) by (nonlinear_arith)
                requires
                    0 <= y,
                    0 <= self.width,
            ;
        }
        let w = self.width as usize;
        let i: usize = 4 * ((y as usize) * w + (x as usize)) + 3;
        self.rgba[i]
    }

    /// A fully transparent raster of the given size.
    pub fn transparent(width: u32, height: u32) -> (r: Raster)
        requires
            4 * (width as int) * (height as int) <= usize::MAX,
        ensures
            r.width == width,
            r.height == height,
            r.wf(),
            forall|i: int| 0 <= i < r.rgba@.len() ==> r.rgba@[i] == 0u8,
    {
        let w = width as usize;
        let h = height as usize;
        proof {
            assert(4 * (w as int) * (h as int) <= usize::MAX);
            assert((w as int) * (h as int) <= 4 * (w as int) * (h as int)) by (nonlinear_arith)
                requires
                    0 <= w,
                    0 <= h,
            ;
            assert(4 * ((w as int) * (h as int)) == 4 * (w as int) * (h as int)) by (nonlinear_arith);
        }
        let n: usize = 4 * (w * h);
        let mut rgba: Vec<u8> = Vec::new();
        let mut i: usize = 0;
        while i < n
            invariant
                i <= n,
                rgba@.len() == i,
                forall|k: int| 0 <= k < i ==> rgba@[k] == 0u8,
            decreases n - i,
        {
            rgba.push(0u8);
            i = i + 1;
        }
        Raster { width, height, rgba }
    }
}

/// Pixel `(x, y)` of a `w × h` raster starts at a byte offset whose four
/// channels lie inside the buffer.
pub proof fn lemma_pixel_offset(w: int, h: int, x: int, y: int)
    requires
        0 <= x < w,
        0 <= y < h,
    ensures
        0 <= 4 * (y * w + x) + 3 < 4 * w * h,
        y * w + x < w * h,
{
    assert(y * w + x < w * h) by (nonlinear_arith)
        requires
            0 <= x < w,
            0 <= y < h,
    ;
    assert(0 <= y * w) by (nonlinear_arith)
        requires
            0 <= y,
            0 <= w,
    ;
    assert(4 * (w * h) == 4 * w * h) by (nonlinear_arith);
}

} // verus!
