use std::io::Write;

use hp_core::edges::{key_variants, EdgeKey};
use hp_core::image_decode::{
    assemble_rgba, color_components, decode_flate_image, extract_image_block, read_decode_parms, resolve_indexed,
    ColorSpaceEntry, DecodeParmsEntry, ImageError, ImageStream, PaletteSource, PreparedImage, SoftMask,
};
use hp_core::pixels::UnfilterError;

fn zlib(data: &[u8]) -> Vec<u8> {
    let mut e = flate2::write::ZlibEncoder::new(Vec::new(), flate2::Compression::default());
    e.write_all(data).unwrap();
    e.finish().unwrap()
}

fn named(n: &str) -> Option<ColorSpaceEntry> {
    Some(ColorSpaceEntry::Named(n.as_bytes().to_vec()))
}

fn stream(w: i64, h: i64, cs: Option<ColorSpaceEntry>, data: &[u8]) -> ImageStream {
    ImageStream { width: Some(w), height: Some(h), bpc: None, color_space: cs, decode_parms: None, content: zlib(data) }
}

#[test]
fn color_components_by_colour_space() {
    assert_eq!(color_components(&None), Ok(3));
    assert_eq!(color_components(&named("DeviceRGB")), Ok(3));
    assert_eq!(color_components(&named("DeviceGray")), Ok(1));
    assert_eq!(color_components(&named("DeviceCMYK")), Ok(4));
    assert_eq!(color_components(&named("Pattern")), Err(ImageError::UnsupportedColorSpace));
    assert_eq!(color_components(&Some(ColorSpaceEntry::IccBased(Some(4)))), Ok(4));
    assert_eq!(color_components(&Some(ColorSpaceEntry::IccBased(None))), Ok(3));
    assert_eq!(color_components(&Some(ColorSpaceEntry::IccUnreadable)), Err(ImageError::UnreadableObject));
    assert_eq!(color_components(&Some(ColorSpaceEntry::OtherArray)), Err(ImageError::UnsupportedColorSpace));
}

#[test]
fn decode_parms_defaults() {
    assert_eq!(read_decode_parms(&None), (1, 0, 0, 0));
    let dp = DecodeParmsEntry { predictor: Some(12), columns: None, colors: Some(3), bpc: None };
    assert_eq!(read_decode_parms(&Some(dp)), (12, 1, 3, 8));
}

#[test]
fn decode_flate_image_inflates_raw_rows() {
    let img = stream(2, 1, named("DeviceGray"), &[7, 9]);
    let (bytes, w, h, c, b) = decode_flate_image(&img).unwrap();
    assert_eq!((bytes, w, h, c, b), (vec![7, 9], 2, 1, 1, 8));
}

#[test]
fn decode_flate_image_applies_png_predictor() {
    let mut img = stream(2, 2, named("DeviceGray"), &[0, 1, 2, 2, 1, 1]);
    img.decode_parms = Some(DecodeParmsEntry { predictor: Some(12), columns: Some(2), colors: Some(1), bpc: Some(8) });
    let (bytes, ..) = decode_flate_image(&img).unwrap();
    assert_eq!(bytes, vec![1, 2, 2, 3]);
}

#[test]
fn decode_flate_image_reports_errors() {
    let mut no_w = stream(2, 1, None, &[0; 6]);
    no_w.width = None;
    assert_eq!(decode_flate_image(&no_w).err(), Some(ImageError::MissingDimension));
    let mut bad = stream(1, 1, None, &[0; 3]);
    bad.content = vec![1, 2, 3];
    assert_eq!(decode_flate_image(&bad).err(), Some(ImageError::Inflate));
    let mut tiff = stream(1, 1, None, &[0; 3]);
    tiff.decode_parms = Some(DecodeParmsEntry { predictor: Some(2), columns: None, colors: None, bpc: None });
    assert_eq!(decode_flate_image(&tiff).err(), Some(ImageError::TiffPredictor));
    let mut odd = stream(1, 1, None, &[0; 3]);
    odd.decode_parms = Some(DecodeParmsEntry { predictor: Some(7), columns: None, colors: None, bpc: None });
    assert_eq!(decode_flate_image(&odd).err(), Some(ImageError::UnknownPredictor(7)));
    let mut ragged = stream(2, 1, named("DeviceGray"), &[0, 1]);
    ragged.decode_parms = Some(DecodeParmsEntry { predictor: Some(10), columns: Some(2), colors: Some(1), bpc: Some(8) });
    assert_eq!(
        decode_flate_image(&ragged).err(),
        Some(ImageError::Unfilter(UnfilterError::LengthNotMultipleOfStride))
    );
}

#[test]
fn indexed_palette_expands_gray_and_cmyk_bases() {
    let gray = Some(ColorSpaceEntry::Indexed(Some(Box::new(ColorSpaceEntry::Named(b"DeviceGray".to_vec()))), Some(PaletteSource::Bytes(vec![10, 20]))));
    assert_eq!(resolve_indexed(&gray), Ok(Some(vec![10, 10, 10, 20, 20, 20])));
    let cmyk = Some(ColorSpaceEntry::Indexed(
        Some(Box::new(ColorSpaceEntry::Named(b"DeviceCMYK".to_vec()))),
        Some(PaletteSource::Stream { content: zlib(&[0, 0, 0, 0, 255, 0, 0, 0, 0, 0, 0, 255, 1]), filtered: true }),
    ));
    assert_eq!(resolve_indexed(&cmyk), Ok(Some(vec![255, 255, 255, 0, 255, 255, 0, 0, 0])));
    assert_eq!(resolve_indexed(&named("DeviceRGB")), Ok(None));
    let no_base = Some(ColorSpaceEntry::Indexed(None, None));
    assert_eq!(resolve_indexed(&no_base), Err(ImageError::IndexedMissingBase));
    let no_lookup = Some(ColorSpaceEntry::Indexed(Some(Box::new(ColorSpaceEntry::Named(b"DeviceRGB".to_vec()))), None));
    assert_eq!(resolve_indexed(&no_lookup), Err(ImageError::IndexedMissingLookup));
    let other = Some(ColorSpaceEntry::Indexed(Some(Box::new(ColorSpaceEntry::Named(b"DeviceRGB".to_vec()))), Some(PaletteSource::Other)));
    assert_eq!(resolve_indexed(&other), Err(ImageError::UnsupportedLookup));
}

#[test]
fn cmyk_half_values_round_like_float_formula() {
    // (1 - 128/255) · 255 = 127; (1 - 128/255)² · 255 = 63.25 → 63.
    let p = PreparedImage { rgb: vec![128, 0, 255, 0, 128, 128, 128, 128], width: 2, height: 1, colors: 4, alpha: vec![255, 7] };
    let r = assemble_rgba(&p).unwrap();
    assert_eq!(r.rgba, vec![127, 255, 0, 255, 63, 63, 63, 7]);
}

#[test]
fn assemble_rgba_gray_and_rgb() {
    let g = PreparedImage { rgb: vec![5, 6], width: 1, height: 2, colors: 1, alpha: vec![1, 2] };
    assert_eq!(assemble_rgba(&g).unwrap().rgba, vec![5, 5, 5, 1, 6, 6, 6, 2]);
    let c = PreparedImage { rgb: vec![1, 2, 3], width: 1, height: 1, colors: 3, alpha: vec![9] };
    assert_eq!(assemble_rgba(&c).unwrap().rgba, vec![1, 2, 3, 9]);
    let bad = PreparedImage { rgb: vec![], width: 0, height: 0, colors: 2, alpha: vec![] };
    assert_eq!(assemble_rgba(&bad).err(), Some(ImageError::UnsupportedComponents(2)));
}

#[test]
fn extract_image_block_combines_soft_mask() {
    let img = stream(2, 1, None, &[1, 2, 3, 4, 5, 6]);
    let mask = SoftMask::Present(stream(2, 1, named("DeviceGray"), &[100, 200]));
    let r = extract_image_block(&img, &mask).unwrap().unwrap();
    assert_eq!((r.width, r.height), (2, 1));
    assert_eq!(r.rgba, vec![1, 2, 3, 100, 4, 5, 6, 200]);
    let opaque = extract_image_block(&img, &SoftMask::Absent).unwrap().unwrap();
    assert_eq!(opaque.rgba, vec![1, 2, 3, 255, 4, 5, 6, 255]);
}

#[test]
fn extract_image_block_gray_image_is_gray_and_opaque() {
    let img = stream(3, 1, named("DeviceGray"), &[0, 77, 255]);
    let r = extract_image_block(&img, &SoftMask::Absent).unwrap().unwrap();
    assert_eq!(r.rgba, vec![0, 0, 0, 255, 77, 77, 77, 255, 255, 255, 255, 255]);
}

#[test]
fn extract_image_block_expands_indexed_images() {
    let cs = Some(ColorSpaceEntry::Indexed(
        Some(Box::new(ColorSpaceEntry::Named(b"DeviceRGB".to_vec()))),
        Some(PaletteSource::Bytes(vec![9, 8, 7, 1, 2, 3])),
    ));
    let img = stream(3, 1, cs, &[1, 0, 5]);
    let r = extract_image_block(&img, &SoftMask::Absent).unwrap().unwrap();
    assert_eq!(r.rgba, vec![1, 2, 3, 255, 9, 8, 7, 255, 0, 0, 0, 255]);
}

#[test]
fn extract_image_block_reports_mask_and_depth_problems() {
    let img = stream(2, 1, None, &[1, 2, 3, 4, 5, 6]);
    let wrong = SoftMask::Present(stream(1, 1, named("DeviceGray"), &[100]));
    assert_eq!(extract_image_block(&img, &wrong).err(), Some(ImageError::SMaskMismatch));
    assert_eq!(extract_image_block(&img, &SoftMask::Unreadable).err(), Some(ImageError::UnreadableObject));
    let mut deep = stream(1, 1, None, &[0; 6]);
    deep.bpc = Some(16);
    assert_eq!(extract_image_block(&deep, &SoftMask::Absent).err(), Some(ImageError::UnsupportedBitDepth(16)));
}

#[test]
fn extract_image_block_flags_short_planes() {
    let img = stream(2, 2, None, &[1, 2, 3]);
    assert_eq!(extract_image_block(&img, &SoftMask::Absent).unwrap().map(|r| r.width), None);
}

#[test]
fn key_variants_cover_the_neighbourhood() {
    let k = EdgeKey { lo: (0, 0), hi: (5, 5), mid: (10, 20), is_cubic: true };
    let v = key_variants(&k);
    assert_eq!(v.len(), 9);
    assert_eq!(v[0].mid, (9, 19));
    assert_eq!(v[4], k);
    assert_eq!(v[5].mid, (10, 21));
    assert_eq!(v[8].mid, (11, 21));
    assert!(v.iter().all(|e| e.lo == k.lo && e.hi == k.hi && e.is_cubic));
}
