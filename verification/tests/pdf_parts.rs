use caj2pdf::pdf::{image_content_for, outline_objects, PdfError, PdfValue};
use caj2pdf::{DecodedImage, OutlineEntry};

fn entry(title: &str, page: u32, level: u8) -> OutlineEntry {
    OutlineEntry { title: title.to_string(), page, level }
}

#[test]
fn mono_bitmap_too_small_is_an_assembly_error() {
    let image = DecodedImage::Mono { width_px: 9, height_px: 3, bits: vec![0; 5] };
    match image_content_for(&image) {
        Err(PdfError::Assembly(m)) => {
            assert_eq!(m, "mono bitmap is too small: got 5 bytes, expected at least 6")
        }
        other => panic!("expected Assembly, got {other:?}"),
    }
}

#[test]
fn mono_bitmap_is_cut_to_its_rows_and_compressed_when_that_pays() {
    // 800 x 100 of one byte value compresses well.
    let image = DecodedImage::Mono { width_px: 800, height_px: 100, bits: vec![0xAA; 10_050] };
    let (content, flate) = image_content_for(&image).unwrap();
    assert!(flate);
    assert!(content.len() + 19 < 10_000);
    let mut dec = flate2::read::ZlibDecoder::new(&content[..]);
    let mut out = Vec::new();
    std::io::Read::read_to_end(&mut dec, &mut out).unwrap();
    assert_eq!(out, vec![0xAA; 10_000]);
}

#[test]
fn tiny_mono_bitmap_is_kept_raw() {
    let image = DecodedImage::Mono { width_px: 8, height_px: 2, bits: vec![1, 2, 3] };
    let (content, flate) = image_content_for(&image).unwrap();
    assert!(!flate);
    assert_eq!(content, vec![1, 2]);
}

#[test]
fn jpeg_content_is_the_jpeg() {
    let image = DecodedImage::Jpeg { width_px: 1, height_px: 1, jpeg_bytes: vec![0xFF, 0xD8] };
    let (content, flate) = image_content_for(&image).unwrap();
    assert!(!flate);
    assert_eq!(content, vec![0xFF, 0xD8]);
}

fn reference(v: &PdfValue) -> (u32, u16) {
    match v {
        PdfValue::Reference(id) => *id,
        other => panic!("expected a reference, got {other:?}"),
    }
}

#[test]
fn outline_objects_items_then_the_outlines_dictionary() {
    let toc = vec![entry("A", 1, 1), entry("A.1", 2, 2), entry("B", 9, 1)];
    let ids = vec![(10, 0), (11, 0), (12, 0), (13, 0)];
    let pages = vec![(1, (100, 0)), (2, (200, 0))];
    let objects = outline_objects(&toc, &ids, &pages);
    assert_eq!(objects.len(), 4);
    let keys: Vec<Vec<&str>> =
        objects.iter().map(|o| o.entries.iter().map(|e| e.0).collect()).collect();
    assert_eq!(keys[0], vec!["Title", "Dest", "Parent", "Next", "First", "Last"]);
    assert_eq!(keys[1], vec!["Title", "Dest", "Parent", "Prev", "Next", "Last"]);
    // Page 9 is not in the page list: no destination.
    assert_eq!(keys[2], vec!["Title", "Parent", "Prev", "Last"]);
    assert_eq!(keys[3], vec!["Type", "First", "Last", "Count"]);
    assert_eq!(objects[0].id, (11, 0));
    assert_eq!(objects[3].id, (10, 0));
    match &objects[0].entries[1].1 {
        PdfValue::Destination(id) => assert_eq!(*id, (100, 0)),
        other => panic!("expected a destination, got {other:?}"),
    }
    assert_eq!(reference(&objects[1].entries[3].1), (11, 0));
    assert_eq!(reference(&objects[3].entries[1].1), (11, 0));
    match &objects[3].entries[3].1 {
        PdfValue::Integer(n) => assert_eq!(*n, 3),
        other => panic!("expected an integer, got {other:?}"),
    }
}

#[test]
fn outline_objects_of_an_empty_outline() {
    assert!(outline_objects(&[], &vec![(1, 0)], &vec![]).is_empty());
}
