use hp_core::export::{export_layers, generate_export_psd, CanvasAsset, ExportAssets, ExportError};
use hp_core::psd::PsdError;
use hp_core::raster::Raster;
use hp_core::types::PuzzlePiece;

fn piece(id: &str, x: i32, y: i32) -> PuzzlePiece {
    PuzzlePiece { id: id.to_string(), brick_ids: vec![], x, y, width: 0, height: 0 }
}

/// A `w × h` raster whose pixel `(x, y)` is `(x, y, tag, 255)`.
fn img(w: u32, h: u32, tag: u8) -> Raster {
    let mut rgba = Vec::new();
    for y in 0..h {
        for x in 0..w {
            rgba.extend_from_slice(&[x as u8, y as u8, tag, 255]);
        }
    }
    Raster::from_rgba(w, h, rgba).unwrap()
}

fn assets(pieces: Vec<Option<Raster>>) -> ExportAssets {
    ExportAssets {
        background: Some(img(10, 8, 1)),
        composite: Some(img(10, 8, 2)),
        pieces,
        outlines: Some(img(10, 8, 3)),
    }
}

#[test]
fn export_layers_are_ordered_and_placed() {
    let pieces = vec![piece("7", 6, 5), piece("8", -3, -2), piece("9", 1, 1), piece("10", 20, 0)];
    let slots = vec![Some(img(6, 6, 4)), Some(img(2, 3, 5)), None, Some(img(2, 2, 6))];
    let (layers, merged) = export_layers(&pieces, assets(slots), 10, 8).unwrap();
    let names: Vec<&str> = layers.iter().map(|l| l.name.as_str()).collect();
    assert_eq!(names, vec!["background", "composite", "piece_7", "piece_8", "outlines"]);
    assert_eq!(layers[0].rect, (0, 0, 8, 10));
    assert_eq!(layers[1].rect, (0, 0, 8, 10));
    // Piece 7 runs past the canvas: its layer is cut to 4 × 3 from its image's top-left.
    assert_eq!(layers[2].rect, (5, 6, 8, 10));
    assert_eq!((layers[2].image.width, layers[2].image.height), (4, 3));
    assert_eq!(&layers[2].image.rgba[0..4], &[0, 0, 4, 255]);
    assert_eq!(&layers[2].image.rgba[4 * (2 * 4 + 3)..4 * (2 * 4 + 3) + 4], &[3, 2, 4, 255]);
    // Piece 8 has negative coordinates: placed at the origin, uncut.
    assert_eq!(layers[3].rect, (0, 0, 3, 2));
    assert_eq!(layers[3].image.rgba, img(2, 3, 5).rgba);
    assert_eq!(layers[4].rect, (0, 0, 8, 10));
    assert_eq!((merged.width, merged.height), (10, 8));
    assert_eq!(merged.rgba, img(10, 8, 2).rgba);
}

#[test]
fn export_checks_canvas_assets_in_order() {
    let pieces: Vec<PuzzlePiece> = vec![];
    let mut a = assets(vec![]);
    a.background = Some(img(9, 8, 1));
    a.composite = None;
    assert_eq!(export_layers(&pieces, a, 10, 8).err(), Some(ExportError::WrongSize(CanvasAsset::Background)));
    let mut a = assets(vec![]);
    a.composite = None;
    assert_eq!(export_layers(&pieces, a, 10, 8).err(), Some(ExportError::MissingComposite));
    let mut a = assets(vec![]);
    a.composite = Some(img(10, 7, 2));
    a.outlines = Some(img(1, 1, 3));
    assert_eq!(export_layers(&pieces, a, 10, 8).err(), Some(ExportError::WrongSize(CanvasAsset::Composite)));
    let mut a = assets(vec![]);
    a.outlines = Some(img(1, 1, 3));
    assert_eq!(export_layers(&pieces, a, 10, 8).err(), Some(ExportError::WrongSize(CanvasAsset::Outlines)));
    // Optional assets may be absent.
    let a = ExportAssets { background: None, composite: Some(img(10, 8, 2)), pieces: vec![], outlines: None };
    let (layers, _) = export_layers(&pieces, a, 10, 8).unwrap();
    assert_eq!(layers.len(), 1);
    assert_eq!(layers[0].name, "composite");
}

#[test]
fn export_canvas_sides_are_at_least_one() {
    let a = ExportAssets { background: None, composite: Some(img(1, 1, 2)), pieces: vec![], outlines: None };
    let (layers, _) = export_layers(&vec![], a, 0, -5).unwrap();
    assert_eq!(layers[0].rect, (0, 0, 1, 1));
}

#[test]
fn export_psd_encodes_layers() {
    let pieces = vec![piece("1", 2, 2)];
    let bytes = generate_export_psd(&pieces, assets(vec![Some(img(3, 3, 4))]), 10, 8).unwrap();
    assert_eq!(&bytes[0..4], b"8BPS");
    // Width and height in the header.
    assert_eq!(&bytes[14..18], &8u32.to_be_bytes());
    assert_eq!(&bytes[18..22], &10u32.to_be_bytes());
    // The merged preview (the composite) closes the file, planar: all R, then G, B, A.
    let n = 10 * 8;
    let tail = &bytes[bytes.len() - 4 * n..];
    assert_eq!(tail[1], 1);
    assert_eq!(tail[n + 10], 1);
    assert!(tail[2 * n..3 * n].iter().all(|&b| b == 2));
    assert!(tail[3 * n..].iter().all(|&b| b == 255));
}

#[test]
fn export_psd_reports_encoder_errors() {
    let a = ExportAssets { background: None, composite: Some(img(30001, 1, 2)), pieces: vec![], outlines: None };
    assert_eq!(generate_export_psd(&vec![], a, 30001, 1).err(), Some(ExportError::Psd(PsdError::CanvasTooLarge)));
    let a = ExportAssets { background: None, composite: None, pieces: vec![], outlines: None };
    assert_eq!(generate_export_psd(&vec![], a, 4, 4).err(), Some(ExportError::MissingComposite));
}
