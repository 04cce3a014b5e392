use caj2pdf::builder::{build_document, page_content_stream};
use caj2pdf::pdf::{inject_outlines, PageInput, PdfError};
use caj2pdf::{DecodedImage, OutlineEntry};
use lopdf::Object;

fn mono_image(width: u32, height: u32, fill_byte: u8) -> DecodedImage {
    let stride = ((width as usize) + 7) / 8;
    let bits = vec![fill_byte; stride * height as usize];
    DecodedImage::Mono { width_px: width, height_px: height, bits }
}

fn minimal_jpeg(width: u16, height: u16) -> Vec<u8> {
    let mut bytes = Vec::new();
    bytes.extend_from_slice(&[0xFF, 0xD8]);
    bytes.extend_from_slice(&[0xFF, 0xC0]);
    let seg = [
        8u8,
        8,
        (height >> 8) as u8,
        (height & 0xFF) as u8,
        (width >> 8) as u8,
        (width & 0xFF) as u8,
        3,
        1,
        0x22,
        2,
        0x11,
        3,
        0x11,
    ];
    bytes.extend_from_slice(&seg);
    bytes.extend_from_slice(&[0xFF, 0xD9]);
    bytes
}

/// The `/MediaBox` of each page: the image size in points at 300 DPI.
fn media_boxes(pages: &[PageInput]) -> Vec<Object> {
    pages
        .iter()
        .map(|p| {
            let w = 72.0 * p.image.width_px() as f64 / 300.0;
            let h = 72.0 * p.image.height_px() as f64 / 300.0;
            Object::Array(vec![
                Object::Integer(0),
                Object::Integer(0),
                Object::Real(w as f32),
                Object::Real(h as f32),
            ])
        })
        .collect()
}

fn build(pages: &[PageInput], outlines: &[OutlineEntry]) -> Result<Vec<u8>, PdfError> {
    build_document(pages, outlines, &media_boxes(pages))
}

#[test]
fn two_page_mono_pdf_starts_with_pdf_header() {
    let pages = vec![
        PageInput::new(mono_image(100, 100, 0xAA)),
        PageInput::new(mono_image(100, 100, 0x55)),
    ];
    let bytes = build(&pages, &[]).expect("build_document must succeed");
    assert!(
        bytes.starts_with(b"%PDF-"),
        "output must start with the %PDF- magic, got {:02x?}",
        &bytes[..bytes.len().min(8)]
    );
    let eof_idx = bytes.windows(5).rposition(|w| w == b"%%EOF");
    assert!(eof_idx.is_some(), "PDF must end with %%EOF");
    let doc = lopdf::Document::load_mem(&bytes).expect("lopdf must parse our PDF");
    assert_eq!(doc.get_pages().len(), 2, "must have 2 pages");
}

#[test]
fn one_page_jpeg_pdf_has_correct_image_dimensions() {
    let jpeg = minimal_jpeg(8, 6);
    let pages = vec![PageInput::new(DecodedImage::Jpeg { width_px: 8, height_px: 6, jpeg_bytes: jpeg })];
    let bytes = build(&pages, &[]).expect("build_document must succeed");
    let doc = lopdf::Document::load_mem(&bytes).expect("lopdf must parse our PDF");
    assert_eq!(doc.get_pages().len(), 1, "must have 1 page");
    let page_id = *doc.get_pages().get(&1).expect("page 1 exists");
    let images = doc.get_page_images(page_id).expect("page must have at least one image");
    assert_eq!(images.len(), 1, "page must have exactly one image");
    assert_eq!(images[0].width, 8);
    assert_eq!(images[0].height, 6);
    assert_eq!(
        images[0].color_space.as_deref(),
        Some("DeviceRGB"),
        "JPEG must be tagged as DeviceRGB"
    );
    assert_eq!(
        images[0].filters.as_deref(),
        Some(&["DCTDecode".to_string()][..]),
        "JPEG must use DCTDecode"
    );
}

#[test]
fn three_page_pdf_with_3_level_outline() {
    let pages = vec![
        PageInput::new(mono_image(50, 50, 0xFF)),
        PageInput::new(mono_image(50, 50, 0xFF)),
        PageInput::new(mono_image(50, 50, 0xFF)),
    ];
    let outlines = vec![
        OutlineEntry { title: "Chapter One".into(), page: 1, level: 1 },
        OutlineEntry { title: "Section A".into(), page: 1, level: 2 },
        OutlineEntry { title: "Sub A.1".into(), page: 1, level: 3 },
        OutlineEntry { title: "Chapter Two".into(), page: 2, level: 1 },
        OutlineEntry { title: "Section C".into(), page: 2, level: 2 },
    ];
    let bytes = build(&pages, &outlines).expect("build_document must succeed");
    let doc = lopdf::Document::load_mem(&bytes).expect("lopdf must parse our PDF");
    assert_eq!(doc.get_pages().len(), 3);
    let catalog = doc.catalog().expect("catalog exists").clone();
    let outlines_ref = catalog
        .get(b"Outlines")
        .expect("catalog must have /Outlines")
        .as_reference()
        .expect("/Outlines must be a reference");
    let outlines_dict = doc.get_dictionary(outlines_ref).expect("/Outlines dict exists");
    assert_eq!(
        outlines_dict
            .get(b"Type")
            .ok()
            .and_then(|o| o.as_name().ok())
            .map(|b| std::str::from_utf8(b).unwrap()),
        Some("Outlines")
    );
    let count = outlines_dict.get(b"Count").unwrap().as_i64().unwrap();
    assert_eq!(count, 5);
    let first_ref = outlines_dict.get(b"First").unwrap().as_reference().unwrap();
    let mut current = first_ref;
    let mut titles: Vec<String> = Vec::new();
    let mut iterations = 0;
    loop {
        iterations += 1;
        assert!(iterations < 20, "outline must not loop forever");
        let item = doc.get_dictionary(current).unwrap();
        let title_bytes = item.get(b"Title").unwrap().as_str().unwrap().to_vec();
        let title = String::from_utf8(title_bytes).expect("title is utf-8");
        titles.push(title);
        match item.get(b"Next") {
            Ok(obj) => {
                current = obj.as_reference().unwrap();
            }
            Err(_) => break,
        }
    }
    assert_eq!(
        titles,
        vec![
            "Chapter One".to_string(),
            "Section A".to_string(),
            "Sub A.1".to_string(),
            "Chapter Two".to_string(),
            "Section C".to_string(),
        ]
    );
    let mut current = first_ref;
    let mut sub_a1_id = None;
    for _ in 0..3 {
        let item = doc.get_dictionary(current).unwrap();
        let title =
            String::from_utf8(item.get(b"Title").unwrap().as_str().unwrap().to_vec()).unwrap();
        if title == "Sub A.1" {
            sub_a1_id = Some(current);
            break;
        }
        current = item.get(b"Next").unwrap().as_reference().unwrap();
    }
    let sub_a1_id = sub_a1_id.expect("found Sub A.1");
    let sub_a1 = doc.get_dictionary(sub_a1_id).unwrap();
    let sub_a1_parent = sub_a1.get(b"Parent").unwrap().as_reference().unwrap();
    let sub_a1_parent_dict = doc.get_dictionary(sub_a1_parent).unwrap();
    let parent_title = String::from_utf8(
        sub_a1_parent_dict.get(b"Title").unwrap().as_str().unwrap().to_vec(),
    )
    .unwrap();
    assert_eq!(parent_title, "Section A");
    let section_a_first = sub_a1_parent_dict.get(b"First").unwrap().as_reference().unwrap();
    assert_eq!(section_a_first, sub_a1_id);
}

#[test]
fn inject_outlines_into_existing_pdf() {
    let pages = vec![
        PageInput::new(mono_image(40, 40, 0xAA)),
        PageInput::new(mono_image(40, 40, 0x55)),
    ];
    let base = build(&pages, &[]).expect("build base");
    let outlines = vec![
        OutlineEntry { title: "Intro".into(), page: 1, level: 1 },
        OutlineEntry { title: "Body".into(), page: 1, level: 1 },
        OutlineEntry { title: "End".into(), page: 2, level: 1 },
    ];
    let with_outlines = inject_outlines(&base, &outlines).expect("inject must succeed");
    assert!(with_outlines.starts_with(b"%PDF-"));
    let doc = lopdf::Document::load_mem(&with_outlines).expect("lopdf parses injected");
    let catalog = doc.catalog().expect("catalog exists");
    let outlines_ref = catalog.get(b"Outlines").expect("/Outlines present").as_reference().unwrap();
    let outlines_dict = doc.get_dictionary(outlines_ref).unwrap();
    assert_eq!(outlines_dict.get(b"Count").unwrap().as_i64().unwrap(), 3);
}

#[test]
fn too_small_mono_page_stops_the_build() {
    let pages = vec![
        PageInput::new(mono_image(8, 8, 0)),
        PageInput::new(DecodedImage::Mono { width_px: 16, height_px: 4, bits: vec![0; 3] }),
    ];
    match build(&pages, &[]) {
        Err(PdfError::Assembly(m)) => {
            assert_eq!(m, "mono bitmap is too small: got 3 bytes, expected at least 8")
        }
        other => panic!("expected Assembly, got {other:?}"),
    }
}

#[test]
fn compressed_mono_image_is_tagged_flate() {
    let pages = vec![PageInput::new(mono_image(800, 100, 0xAA))];
    let bytes = build(&pages, &[]).unwrap();
    let doc = lopdf::Document::load_mem(&bytes).unwrap();
    let page_id = *doc.get_pages().get(&1).unwrap();
    let images = doc.get_page_images(page_id).unwrap();
    assert_eq!(images[0].color_space.as_deref(), Some("DeviceGray"));
    assert_eq!(images[0].filters.as_deref(), Some(&["FlateDecode".to_string()][..]));
    assert_eq!(images[0].bits_per_component, Some(1));
}

#[test]
fn page_content_stream_writes_points_as_floats_do() {
    for &(w, h) in &[(100u32, 100u32), (50, 50), (8, 6), (1, 3), (0, 25), (2480, 3508), (u32::MAX, 7)]
    {
        let pw = 72.0 * w as f64 / 300.0;
        let ph = 72.0 * h as f64 / 300.0;
        let expected = format!("q\n{pw} 0 0 {ph} 0 0 cm\n/Im0 Do\nQ\n");
        assert_eq!(String::from_utf8(page_content_stream(w, h)).unwrap(), expected);
    }
    for w in 0u32..2000 {
        let pw = 72.0 * w as f64 / 300.0;
        let expected = format!("q\n{pw} 0 0 {pw} 0 0 cm\n/Im0 Do\nQ\n");
        assert_eq!(String::from_utf8(page_content_stream(w, w)).unwrap(), expected);
    }
}

#[test]
fn built_document_objects_are_numbered_page_by_page() {
    let pages = vec![
        PageInput::new(mono_image(16, 2, 0x0F)),
        PageInput::new(mono_image(16, 2, 0xF0)),
    ];
    let outlines = vec![OutlineEntry { title: "Only".into(), page: 2, level: 1 }];
    let bytes = build(&pages, &outlines).expect("build_document must succeed");
    let doc = lopdf::Document::load_mem(&bytes).expect("lopdf must parse our PDF");
    // Object 1 is the empty /Info dictionary, named by the trailer.
    assert_eq!(doc.trailer.get(b"Info").unwrap().as_reference().unwrap(), (1, 0));
    assert!(doc.get_dictionary((1, 0)).unwrap().is_empty());
    // Two pages: the /Pages dictionary is object 2 + 4n, the catalog 3 + 4n,
    // the /Outlines dictionary 4 + 4n.
    assert_eq!(doc.trailer.get(b"Root").unwrap().as_reference().unwrap(), (11, 0));
    let catalog = doc.get_dictionary((11, 0)).unwrap();
    assert_eq!(catalog.get(b"Pages").unwrap().as_reference().unwrap(), (10, 0));
    assert_eq!(catalog.get(b"Outlines").unwrap().as_reference().unwrap(), (12, 0));
    let pages_dict = doc.get_dictionary((10, 0)).unwrap();
    let kids: Vec<(u32, u16)> = pages_dict
        .get(b"Kids")
        .unwrap()
        .as_array()
        .unwrap()
        .iter()
        .map(|k| k.as_reference().unwrap())
        .collect();
    assert_eq!(kids, vec![(5, 0), (9, 0)]);
    assert_eq!(pages_dict.get(b"Count").unwrap().as_i64().unwrap(), 2);
    for i in 0..2u32 {
        let page = doc.get_dictionary((5 + 4 * i, 0)).unwrap();
        assert_eq!(page.get(b"Parent").unwrap().as_reference().unwrap(), (10, 0));
        assert_eq!(page.get(b"Resources").unwrap().as_reference().unwrap(), (4 + 4 * i, 0));
        assert_eq!(page.get(b"Contents").unwrap().as_reference().unwrap(), (3 + 4 * i, 0));
        let resources = doc.get_dictionary((4 + 4 * i, 0)).unwrap();
        let xobjects = resources.get(b"XObject").unwrap().as_dict().unwrap();
        assert_eq!(xobjects.get(b"Im0").unwrap().as_reference().unwrap(), (2 + 4 * i, 0));
        let content = doc.get_object((3 + 4 * i, 0)).unwrap().as_stream().unwrap();
        assert_eq!(content.content, page_content_stream(16, 2));
        assert_eq!(
            content.dict.get(b"Length").unwrap().as_i64().unwrap(),
            content.content.len() as i64
        );
        let image = doc.get_object((2 + 4 * i, 0)).unwrap().as_stream().unwrap();
        assert_eq!(image.dict.get(b"Width").unwrap().as_i64().unwrap(), 16);
        assert_eq!(image.dict.get(b"Height").unwrap().as_i64().unwrap(), 2);
    }
    // The outline item is object 13, its destination the second page.
    let item = doc.get_dictionary((13, 0)).unwrap();
    let dest = item.get(b"Dest").unwrap().as_array().unwrap();
    assert_eq!(dest[0].as_reference().unwrap(), (9, 0));
}
