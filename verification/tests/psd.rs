use hp_core::psd::{write_psd, PsdError, PsdLayer};
use hp_core::raster::Raster;

fn filled(w: u32, h: u32, px: [u8; 4]) -> Raster {
    let mut rgba = Vec::new();
    for _ in 0..(w * h) {
        rgba.extend_from_slice(&px);
    }
    Raster::from_rgba(w, h, rgba).unwrap()
}

#[test]
fn header_signature_and_dimensions() {
    let img = filled(4, 3, [0, 0, 0, 0]);
    let buf = write_psd(4, 3, &vec![], &img).unwrap();
    assert_eq!(&buf[0..4], b"8BPS");
    assert_eq!(&buf[4..6], &[0, 1]);
    assert_eq!(&buf[12..14], &[0, 4]);
    assert_eq!(&buf[14..18], &[0, 0, 0, 3]);
    assert_eq!(&buf[18..22], &[0, 0, 0, 4]);
    assert_eq!(&buf[22..24], &[0, 8]);
    assert_eq!(&buf[24..26], &[0, 3]);
}

#[test]
fn empty_layer_block_when_no_layers_provided() {
    let img = filled(2, 2, [255, 255, 255, 255]);
    let buf = write_psd(2, 2, &vec![], &img).unwrap();
    let lm_section_len = u32::from_be_bytes([buf[34], buf[35], buf[36], buf[37]]);
    assert_eq!(lm_section_len, 10);
}

#[test]
fn one_layer_roundtrips_channel_data() {
    let layer_img = Raster::from_rgba(2, 1, vec![0x11, 0x22, 0x33, 0x44, 0x55, 0x66, 0x77, 0x88]).unwrap();
    let layer = PsdLayer { name: "test".to_string(), rect: (0, 0, 1, 2), image: layer_img };
    let merged = filled(2, 1, [0, 0, 0, 0]);
    let buf = write_psd(2, 1, &vec![layer], &merged).unwrap();
    let has_r_plane = buf.windows(2).any(|w| w == [0x11, 0x55]);
    let has_g_plane = buf.windows(2).any(|w| w == [0x22, 0x66]);
    let has_b_plane = buf.windows(2).any(|w| w == [0x33, 0x77]);
    let has_a_plane = buf.windows(2).any(|w| w == [0x44, 0x88]);
    assert!(has_r_plane && has_g_plane && has_b_plane && has_a_plane,
        "channels should be encoded as planes, not interleaved");
}

#[test]
fn psd_merged_image_is_planar_after_layers() {
    let merged = Raster::from_rgba(1, 1, vec![1, 2, 3, 4]).unwrap();
    let buf = write_psd(1, 1, &vec![], &merged).unwrap();
    // Compression 0 then R, G, B, A planes close the file.
    let n = buf.len();
    assert_eq!(&buf[n - 6..], &[0, 0, 1, 2, 3, 4]);
}

#[test]
fn psd_rejects_zero_canvas() {
    let merged = Raster::from_rgba(0, 0, vec![]).unwrap();
    assert_eq!(write_psd(0, 0, &vec![], &merged), Err(PsdError::ZeroDimension));
}

#[test]
fn psd_rejects_oversized_canvas() {
    let merged = Raster::from_rgba(30001, 0, vec![]).unwrap();
    assert_eq!(write_psd(30001, 1, &vec![], &merged), Err(PsdError::CanvasTooLarge));
}

#[test]
fn psd_rejects_merged_size_mismatch() {
    let merged = filled(2, 2, [0, 0, 0, 0]);
    assert_eq!(write_psd(3, 2, &vec![], &merged), Err(PsdError::MergedSizeMismatch));
}

#[test]
fn psd_rejects_degenerate_layer_rect() {
    let merged = filled(2, 2, [0, 0, 0, 0]);
    let layer = PsdLayer { name: "a".to_string(), rect: (1, 0, 1, 2), image: filled(2, 0, [0, 0, 0, 0]) };
    assert_eq!(write_psd(2, 2, &vec![layer], &merged), Err(PsdError::DegenerateRect(0)));
}

#[test]
fn psd_rejects_layer_outside_canvas() {
    let merged = filled(2, 2, [0, 0, 0, 0]);
    let layer = PsdLayer { name: "a".to_string(), rect: (0, 0, 3, 2), image: filled(2, 3, [0, 0, 0, 0]) };
    assert_eq!(write_psd(2, 2, &vec![layer], &merged), Err(PsdError::RectOutsideCanvas(0)));
}

#[test]
fn psd_rejects_layer_image_size_mismatch() {
    let merged = filled(2, 2, [0, 0, 0, 0]);
    let layer = PsdLayer { name: "a".to_string(), rect: (0, 0, 2, 2), image: filled(1, 1, [0, 0, 0, 0]) };
    assert_eq!(write_psd(2, 2, &vec![layer], &merged), Err(PsdError::ImageSizeMismatch(0)));
}

#[test]
fn psd_layer_name_is_padded_pascal_string() {
    let merged = filled(1, 1, [0, 0, 0, 0]);
    let layer = PsdLayer { name: "ab".to_string(), rect: (0, 0, 1, 1), image: filled(1, 1, [9, 9, 9, 9]) };
    let buf = write_psd(1, 1, &vec![layer], &merged).unwrap();
    // length byte 2, "ab", one pad byte → 4 bytes total.
    assert!(buf.windows(4).any(|w| w == [2, b'a', b'b', 0]));
}
