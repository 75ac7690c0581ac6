//! Engine-side records: bricks and the puzzle pieces they merge into.
use vstd::prelude::*;

verus! {

/// Engine brick: the puzzle engine's view of a brick layer.
#[derive(Debug, Clone)]
pub struct Brick {
    pub id: String,
    pub x: i32,
    pub y: i32,
    pub width: i32,
    pub height: i32,
    pub brick_type: String,
}

impl Brick {
    /// `x + width` fits in an `i32`.
    pub open spec fn right_fits(&self) -> bool {
        i32::MIN <= self.x + self.width <= i32::MAX
    }

    /// `y + height` fits in an `i32`.
    pub open spec fn bottom_fits(&self) -> bool {
        i32::MIN <= self.y + self.height <= i32::MAX
    }

    pub open spec fn spec_right(&self) -> int {
        self.x + self.width
    }

    pub open spec fn spec_bottom(&self) -> int {
        self.y + self.height
    }

    /// Right edge (exclusive) of the brick's bounding box.
    pub fn right(&self) -> (r: i32)
        requires
            self.right_fits(),
        ensures
            r == self.spec_right(),
    {
        self.x + self.width
    }

    /// Bottom edge (exclusive) of the brick's bounding box.
    pub fn bottom(&self) -> (r: i32)
        requires
            self.bottom_fits(),
        ensures
            r == self.spec_bottom(),
    {
        self.y + self.height
    }

    /// Bounding-box area, computed in 64 bits so it never overflows.
    pub fn area(&self) -> (a: i64)
        ensures
            a == self.width * self.height,
    {
        proof {
            assert(-0x8000_0000 <= self.width <= 0x7fff_ffff);
            assert(-0x8000_0000 <= self.height <= 0x7fff_ffff);
            assert(-0x4000_0000_0000_0000 <= (self.width as int) * (self.height as int)
                <= 0x4000_0000_0000_0000) by (nonlinear_arith)
                requires
                    -0x8000_0000 <= self.width <= 0x7fff_ffff,
                    -0x8000_0000 <= self.height <= 0x7fff_ffff,
            ;
        }
        (self.width as i64) * (self.height as i64)
    }
}

/// A puzzle piece: a group of merged bricks with its bounding box.
#[derive(Debug, Clone)]
pub struct PuzzlePiece {
    pub id: String,
    pub brick_ids: Vec<String>,
    pub x: i32,
    pub y: i32,
    pub width: i32,
    pub height: i32,
}

/// The layer type a brick has when its record names none.
pub fn default_layer_type() -> (r: String)
    ensures
        r@ == "brick"@,
{
    String::from_str("brick")
}

/// The pixel offset a parsed house has when its record names none.
pub fn default_pdf_offset() -> (r: (i32, i32))
    ensures
        r == (0i32, 0i32),
{
    (0, 0)
}

/// Canvas height, in pixels, a load request uses when it names none.
pub fn default_canvas_height() -> (r: i32)
    ensures
        r == 900,
{
    900
}

/// Canvas height, in pixels, an export request uses when it names none.
pub fn default_export_height() -> (r: i32)
    ensures
        r == 900,
{
    900
}

/// Result of the merge algorithm.
#[derive(Debug, Clone)]
pub struct MergeResult {
    pub pieces: Vec<PuzzlePiece>,
}

} // verus!
