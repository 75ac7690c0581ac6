use hp_core::raster::Raster;
use hp_core::render::{alpha_bbox, compute_pdf_offset, extract_raster_image, raster_from_captures, try_extract_raster_image};

fn pixmap_with_first_opaque_at(w: u32, h: u32, fx: u32, fy: u32) -> Raster {
    let mut rgba = vec![0u8; (4 * w * h) as usize];
    for dy in 0..2 {
        for dx in 0..2 {
            if fx + dx < w && fy + dy < h {
                let i = (4 * ((fy + dy) * w + (fx + dx))) as usize;
                rgba[i..i + 4].copy_from_slice(&[255, 0, 0, 255]);
            }
        }
    }
    Raster::from_rgba(w, h, rgba).unwrap()
}

#[test]
fn compute_pdf_offset_returns_diff_between_actual_and_expected() {
    let img = pixmap_with_first_opaque_at(200, 200, 50, 100);
    let offset = compute_pdf_offset(&img, 10, 5);
    assert_eq!(offset, (-40, -95));
}

#[test]
fn compute_pdf_offset_snaps_sub_pixel_drift_to_zero() {
    let img = pixmap_with_first_opaque_at(50, 50, 10, 10);
    let offset = compute_pdf_offset(&img, 11, 9);
    assert_eq!(offset, (0, 0));
}

#[test]
fn compute_pdf_offset_empty_image_returns_zero() {
    let img = Raster::transparent(50, 50);
    let offset = compute_pdf_offset(&img, 10, 10);
    assert_eq!(offset, (0, 0));
}

#[test]
fn compute_pdf_offset_ignores_faint_pixels() {
    // Alpha 30 is not opaque; alpha 31 is.
    let mut rgba = vec![0u8; 4 * 4 * 4];
    rgba[4 * (0 * 4 + 0) + 3] = 30;
    rgba[4 * (2 * 4 + 3) + 3] = 31;
    let img = Raster::from_rgba(4, 4, rgba).unwrap();
    assert_eq!(compute_pdf_offset(&img, 0, 0), (-3, -2));
}

#[test]
fn compute_pdf_offset_one_axis_drift_counts() {
    // Two pixels off on x, none on y: the whole offset is reported.
    let img = pixmap_with_first_opaque_at(20, 20, 5, 5);
    assert_eq!(compute_pdf_offset(&img, 7, 5), (2, 0));
}

#[test]
fn raster_canary_extracts_synthetic_2x2_image() {
    let mut blob: Vec<u8> = Vec::new();
    blob.extend_from_slice(b"[1 0 0 1 0 0] 2 2 8 Xh\n");
    blob.extend_from_slice(b"%%BeginData: 12 Hex Bytes XI\n");
    blob.extend_from_slice(&[255, 0, 0, 0, 255, 0, 0, 0, 255, 255, 255, 255]);
    let img = extract_raster_image(&blob).expect("synthetic blob should parse");
    assert_eq!(img.width, 2);
    assert_eq!(img.height, 2);
    let red = &img.rgba[0..4];
    assert_eq!(red[0], 255, "red pixel red channel");
    assert_eq!(red[3], 255, "red pixel should be opaque");
    let white = &img.rgba[12..16];
    assert_eq!(white[3], 0, "white pixel should be alpha-zeroed");
}

#[test]
fn extract_raster_image_needs_the_data_marker() {
    let blob = b"[1 0 0 1 0 0] 2 2 8 Xh\n0123456789ab".to_vec();
    assert!(extract_raster_image(&blob).is_none());
}

#[test]
fn extract_raster_image_rejects_short_data() {
    let mut blob: Vec<u8> = Vec::new();
    blob.extend_from_slice(b"[1 0 0 1 0 0] 2 2 8 Xh\n%%BeginData: 12 Hex Bytes XI\n");
    blob.extend_from_slice(&[1, 2, 3]);
    assert!(extract_raster_image(&blob).is_none());
}

#[test]
fn extract_raster_image_rejects_zero_width() {
    let mut blob: Vec<u8> = Vec::new();
    blob.extend_from_slice(b"[1 0 0 1 0 0] 0 2 8 Xh\n%%BeginData: 0 Hex Bytes XI\n");
    assert!(extract_raster_image(&blob).is_none());
}

#[test]
fn try_extract_raster_image_reads_small_blocks() {
    let mut blob: Vec<u8> = Vec::new();
    blob.extend_from_slice(b"[1.5 0 0 -1 10 20.25] 1 1 8 Xh\r\n%%BeginData: 3 XI\r\n");
    blob.extend_from_slice(&[249, 250, 251]);
    let img = try_extract_raster_image(&blob).expect("sizes fit").expect("parses");
    assert_eq!(img.rgba, vec![249, 250, 251, 0]);
}

#[test]
fn try_extract_raster_image_refuses_huge_dimensions() {
    let mut blob: Vec<u8> = Vec::new();
    blob.extend_from_slice(b"[1 0 0 1 0 0] 99999999999 99999999999 8 Xh\n%%BeginData: 3 XI\n");
    assert!(try_extract_raster_image(&blob).is_none());
}

#[test]
fn alpha_bbox_tight_around_visible_pixels() {
    let mut rgba = vec![0u8; 4 * 5 * 4];
    rgba[4 * (1 * 5 + 2) + 3] = 1;
    rgba[4 * (3 * 5 + 3) + 3] = 200;
    let img = Raster::from_rgba(5, 4, rgba).unwrap();
    assert_eq!(alpha_bbox(&img), Some((2, 1, 2, 3)));
}

#[test]
fn alpha_bbox_none_when_transparent_or_empty() {
    assert_eq!(alpha_bbox(&Raster::transparent(3, 3)), None);
    assert_eq!(alpha_bbox(&Raster::transparent(0, 3)), None);
}

use hp_core::render::find_covered_bricks;
use hp_core::types::Brick;

fn brick(id: &str, x: i32, y: i32, w: i32, h: i32) -> Brick {
    Brick { id: id.to_string(), x, y, width: w, height: h, brick_type: "brick".to_string() }
}

/// A canvas-sized layer with the rectangle `[x0, x1) × [y0, y1)` opaque.
fn layer(w: u32, h: u32, x0: u32, y0: u32, x1: u32, y1: u32) -> Raster {
    let mut rgba = vec![0u8; (4 * w * h) as usize];
    for y in y0..y1 {
        for x in x0..x1 {
            rgba[(4 * (y * w + x) + 3) as usize] = 255;
        }
    }
    Raster::from_rgba(w, h, rgba).unwrap()
}

#[test]
fn covered_brick_hidden_under_larger_one() {
    let bricks = vec![brick("big", 0, 0, 40, 40), brick("small", 5, 5, 20, 20)];
    let images = vec![Some(layer(50, 50, 0, 0, 40, 40)), Some(layer(50, 50, 5, 5, 25, 25))];
    assert_eq!(find_covered_bricks(&bricks, &images, &vec![false, false]), vec![false, true]);
    // A protected brick is never flagged.
    assert_eq!(find_covered_bricks(&bricks, &images, &vec![false, true]), vec![false, false]);
}

#[test]
fn covered_needs_eighty_percent() {
    // 20×20 = 400 opaque pixels, 320 (80%) shared: covered.
    let bricks = vec![brick("big", 0, 0, 40, 40), brick("small", 5, 5, 20, 20)];
    let mut big = layer(50, 50, 5, 5, 25, 25);
    for y in 21..25 {
        for x in 5..25 {
            big.rgba[(4 * (y * 50 + x) + 3) as usize] = 0;
        }
    }
    let images = vec![Some(big.clone_raster()), Some(layer(50, 50, 5, 5, 25, 25))];
    assert_eq!(find_covered_bricks(&bricks, &images, &vec![false, false]), vec![false, true]);
    // One more uncovered pixel drops below 80%.
    big.rgba[(4 * (20 * 50 + 5) + 3) as usize] = 0;
    let images = vec![Some(big), Some(layer(50, 50, 5, 5, 25, 25))];
    assert_eq!(find_covered_bricks(&bricks, &images, &vec![false, false]), vec![false, false]);
}

#[test]
fn covered_small_brick_at_eighty_five_percent() {
    // The small brick has 20 opaque pixels (a 5×4 patch); 17 of them (85%)
    // are opaque in the big brick's image.
    let bricks = vec![brick("big", 0, 0, 40, 40), brick("small", 5, 5, 5, 4)];
    let mut big = layer(50, 50, 0, 0, 40, 40);
    for x in 5..8 {
        big.rgba[(4 * (5 * 50 + x) + 3) as usize] = 0;
    }
    let images = vec![Some(big), Some(layer(50, 50, 5, 5, 10, 9))];
    assert_eq!(find_covered_bricks(&bricks, &images, &vec![false, false]), vec![false, true]);
    // A small brick without opaque pixels is never covered.
    let images = vec![Some(layer(50, 50, 0, 0, 40, 40)), Some(layer(50, 50, 0, 0, 0, 0))];
    assert_eq!(find_covered_bricks(&bricks, &images, &vec![false, false]), vec![false, false]);
}

#[test]
fn covered_flags_go_by_id_and_spare_protected_ids() {
    let bricks = vec![brick("big", 0, 0, 40, 40), brick("dup", 5, 5, 20, 20), brick("dup", 100, 100, 5, 5)];
    let images = vec![Some(layer(120, 120, 0, 0, 40, 40)), Some(layer(120, 120, 5, 5, 25, 25)), None];
    assert_eq!(find_covered_bricks(&bricks, &images, &vec![false, false, false]), vec![false, true, true]);
    assert_eq!(find_covered_bricks(&bricks, &images, &vec![false, true, true]), vec![false, false, false]);
}

#[test]
fn covered_skips_disjoint_or_imageless_bricks() {
    let bricks = vec![brick("a", 0, 0, 30, 30), brick("b", 30, 0, 30, 30), brick("c", 0, 0, 20, 20)];
    let images = vec![Some(layer(60, 30, 0, 0, 30, 30)), Some(layer(60, 30, 30, 0, 60, 30)), None];
    assert_eq!(find_covered_bricks(&bricks, &images, &vec![false, false, false]), vec![false, false, false]);
}

#[test]
fn covered_brick_starting_left_of_the_canvas() {
    // Both boxes start one pixel left of a 2×1 canvas; the scan clips them
    // to the canvas, where every opaque pixel of the small brick is covered.
    let bricks = vec![brick("small", -1, 0, 3, 1), brick("big", -1, 0, 10, 10)];
    let images = vec![Some(layer(2, 1, 0, 0, 2, 1)), Some(layer(2, 1, 0, 0, 2, 1))];
    assert_eq!(find_covered_bricks(&bricks, &images, &vec![false, false]), vec![true, false]);
    // Above the canvas too.
    let bricks = vec![brick("small", 0, -2, 1, 3), brick("big", -5, -5, 10, 10)];
    let images = vec![Some(layer(1, 1, 0, 0, 1, 1)), Some(layer(1, 1, 0, 0, 1, 1))];
    assert_eq!(find_covered_bricks(&bricks, &images, &vec![false, false]), vec![true, false]);
}

trait CloneRaster {
    fn clone_raster(&self) -> Raster;
}

impl CloneRaster for Raster {
    fn clone_raster(&self) -> Raster {
        Raster { width: self.width, height: self.height, rgba: self.rgba.clone() }
    }
}

#[test]
fn raster_from_captures_reads_from_the_data_start() {
    let block = [9u8, 9, 1, 2, 3, 250, 251, 252, 7];
    let img = raster_from_captures(&block, Some((b"2".to_vec(), b"1".to_vec())), Some(2)).unwrap();
    assert_eq!((img.width, img.height), (2, 1));
    assert_eq!(img.rgba, vec![1, 2, 3, 255, 250, 251, 252, 0]);
    // Missing captures, a zero or unparsable dimension, or data past the block give nothing.
    assert!(raster_from_captures(&block, None, Some(2)).is_none());
    assert!(raster_from_captures(&block, Some((b"2".to_vec(), b"1".to_vec())), None).is_none());
    assert!(raster_from_captures(&block, Some((b"0".to_vec(), b"1".to_vec())), Some(2)).is_none());
    assert!(raster_from_captures(&block, Some((b"x".to_vec(), b"1".to_vec())), Some(2)).is_none());
    assert!(raster_from_captures(&block, Some((b"2".to_vec(), b"1".to_vec())), Some(4)).is_none());
}
