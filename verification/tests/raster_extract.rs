use hp_core::pixels::{blend_src_over, unfilter_png, UnfilterError};

#[test]
fn blend_src_over_opaque_white_over_black_yields_white() {
    let mut dst = [0u8, 0, 0, 255];
    blend_src_over(&mut dst, [255, 255, 255, 255]);
    assert_eq!(dst, [255, 255, 255, 255]);
}

#[test]
fn blend_src_over_transparent_source_keeps_dst() {
    let mut dst = [10u8, 20, 30, 200];
    blend_src_over(&mut dst, [255, 255, 255, 0]);
    assert_eq!(dst, [10, 20, 30, 200]);
}

#[test]
fn blend_src_over_half_alpha_white_over_black_yields_mid_grey() {
    let mut dst = [0u8, 0, 0, 0];
    blend_src_over(&mut dst, [255, 255, 255, 128]);
    assert!((dst[0] as i32 - 128).abs() <= 1);
    assert!((dst[1] as i32 - 128).abs() <= 1);
    assert!((dst[2] as i32 - 128).abs() <= 1);
    assert!((dst[3] as i32 - 128).abs() <= 1);
}

#[test]
fn unfilter_png_filter_none_passes_through() {
    let raw = vec![0, 10, 20, 30, 40, 0, 50, 60, 70, 80];
    let out = unfilter_png(&raw, 4).expect("unfilter");
    assert_eq!(out, vec![10, 20, 30, 40, 50, 60, 70, 80]);
}

#[test]
fn unfilter_png_filter_up_reconstructs_second_row() {
    let raw = vec![0, 1, 2, 3, 4, 2, 10, 10, 10, 10];
    let out = unfilter_png(&raw, 4).expect("unfilter");
    assert_eq!(out, vec![1, 2, 3, 4, 11, 12, 13, 14]);
}

#[test]
fn unfilter_png_filter_sub_cumulates_along_row() {
    let raw = vec![1, 5, 5, 5, 5];
    let out = unfilter_png(&raw, 4).expect("unfilter");
    assert_eq!(out, vec![5, 10, 15, 20]);
}

#[test]
fn unfilter_png_average_uses_left_and_up() {
    // Row 0 literal (10, 20); row 1 Average: x + floor((left + up) / 2).
    let raw = vec![0, 10, 20, 3, 1, 1];
    let out = unfilter_png(&raw, 2).expect("unfilter");
    // (1 + (0 + 10) / 2) = 6; (1 + (6 + 20) / 2) = 14.
    assert_eq!(out, vec![10, 20, 6, 14]);
}

#[test]
fn unfilter_png_paeth_picks_nearest_neighbour() {
    // Row 0 literal (100, 50); row 1 Paeth with zero deltas copies the
    // predictor: first byte has a=0, b=100, c=0 → p=100 → b; second byte
    // a=100, b=50, c=100 → p=50 → b.
    let raw = vec![0, 100, 50, 4, 0, 0];
    let out = unfilter_png(&raw, 2).expect("unfilter");
    assert_eq!(out, vec![100, 50, 100, 50]);
}

#[test]
fn unfilter_png_wraps_modulo_256() {
    let raw = vec![0, 200, 2, 100];
    let out = unfilter_png(&raw, 1).expect("unfilter");
    assert_eq!(out, vec![200, 44]);
}

#[test]
fn unfilter_png_rejects_ragged_length() {
    let raw = vec![0, 1, 2, 3];
    assert_eq!(unfilter_png(&raw, 4), Err(UnfilterError::LengthNotMultipleOfStride));
}

#[test]
fn unfilter_png_rejects_unknown_tag() {
    let raw = vec![7, 1, 2];
    assert_eq!(unfilter_png(&raw, 2), Err(UnfilterError::UnknownFilterTag(7)));
}

#[test]
fn blend_src_over_quarter_alpha_exact_values() {
    // a = 64: 255·64/255 + 0 = 64 for colour; alpha 64 + 255·191/255 = 255.
    let mut dst = [0u8, 100, 255, 255];
    blend_src_over(&mut dst, [255, 255, 255, 64]);
    // colour: round((255·64 + d·191) / 255)
    assert_eq!(dst[0], 64);
    assert_eq!(dst[1], 139);
    assert_eq!(dst[2], 255);
    assert_eq!(dst[3], 255);
}
