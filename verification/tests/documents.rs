use std::io::Write;
use std::path::PathBuf;

use caj2pdf::convert::{caj_conversion, convert, decode_image, decode_page, Conversion, KDH_PASSPHRASE};
use caj2pdf::caj::frame_pdf;
use caj2pdf::document::Layout;
use caj2pdf::hn::iter_pages;
use caj2pdf::hn_page::parse_page_text;
use caj2pdf::{CajDocument, CajError, DecodedImage, FileFormat, ImageKind, Page, RawImage};
use lopdf::{Dictionary, Document, Object};

fn open(bytes: Vec<u8>) -> Result<CajDocument, CajError> {
    CajDocument::from_bytes(PathBuf::from("test.bin"), bytes)
}

fn put_i32(buf: &mut Vec<u8>, off: usize, v: i32) {
    if buf.len() < off + 4 {
        buf.resize(off + 4, 0);
    }
    buf[off..off + 4].copy_from_slice(&v.to_le_bytes());
}

fn put_i16(buf: &mut Vec<u8>, off: usize, v: i16) {
    if buf.len() < off + 2 {
        buf.resize(off + 2, 0);
    }
    buf[off..off + 2].copy_from_slice(&v.to_le_bytes());
}

fn toc_entry(title: &[u8], page: &str, level: i32) -> Vec<u8> {
    let mut e = vec![0u8; 0x134];
    e[..title.len()].copy_from_slice(title);
    e[0x118..0x118 + page.len()].copy_from_slice(page.as_bytes());
    e[0x130..0x134].copy_from_slice(&level.to_le_bytes());
    e
}

fn one_page_pdf() -> Vec<u8> {
    let mut doc = Document::with_version("1.4");
    let pages_id = doc.new_object_id();
    let mut page = Dictionary::new();
    page.set("Type", Object::Name(b"Page".to_vec()));
    page.set("Parent", Object::Reference(pages_id));
    page.set(
        "MediaBox",
        Object::Array(vec![
            Object::Integer(0),
            Object::Integer(0),
            Object::Integer(100),
            Object::Integer(100),
        ]),
    );
    let page_id = doc.add_object(page);
    let mut pages = Dictionary::new();
    pages.set("Type", Object::Name(b"Pages".to_vec()));
    pages.set("Kids", Object::Array(vec![Object::Reference(page_id)]));
    pages.set("Count", Object::Integer(1));
    doc.objects.insert(pages_id, Object::Dictionary(pages));
    let mut catalog = Dictionary::new();
    catalog.set("Type", Object::Name(b"Catalog".to_vec()));
    catalog.set("Pages", Object::Reference(pages_id));
    let catalog_id = doc.add_object(catalog);
    doc.trailer.set("Root", catalog_id);
    let mut buf = Vec::new();
    doc.save_to(&mut buf).expect("lopdf save");
    buf
}

/// A CAJ container around `pdf`, with the given outline entries.
fn caj_file(pdf: &[u8], page_count: i32, toc: &[Vec<u8>]) -> Vec<u8> {
    let mut out = b"CAJ\0".to_vec();
    out.resize(0x10, 0);
    put_i32(&mut out, 0x10, page_count);
    put_i32(&mut out, 0x110, toc.len() as i32);
    for e in toc {
        out.extend_from_slice(e);
    }
    let pointer = out.len();
    put_i32(&mut out, 0x14, pointer as i32);
    put_i32(&mut out, pointer, (pointer + 4) as i32);
    out.extend_from_slice(pdf);
    out
}

/// The text records: "中", a space (the 0xA3A0 artefact), a figure record
/// and one record of another kind.
fn new_style_text() -> Vec<u8> {
    let mut t = vec![0x01, 0x80, 0xD0, 0xD6, 0x00, 0x00];
    t.extend_from_slice(&[0x01, 0x80, 0xA0, 0xA3, 0x00, 0x00]);
    t.extend_from_slice(&[0x0A, 0x80]);
    t.extend_from_slice(&[0u8; 26]);
    t.extend_from_slice(&[0x05, 0x00, 0x00, 0x00]);
    t
}

fn jpeg_block(width: u32, height: u32) -> Vec<u8> {
    let mut d = vec![0u8; 48];
    d[4..8].copy_from_slice(&width.to_le_bytes());
    d[8..12].copy_from_slice(&height.to_le_bytes());
    d.extend_from_slice(&[0xFF, 0xD8, 0xFF, 0xD9]);
    d
}

/// One page at `table`: its text section, then image blocks of the given
/// types and data.
fn add_page(buf: &mut Vec<u8>, table: usize, text: &[u8], images: &[(i32, Vec<u8>)], next: i32) {
    let pdo = buf.len().max(table + 20);
    buf.resize(pdo, 0);
    put_i32(buf, table, pdo as i32);
    put_i32(buf, table + 4, text.len() as i32);
    put_i16(buf, table + 8, images.len() as i16);
    put_i16(buf, table + 10, 1);
    put_i32(buf, table + 16, next);
    buf.extend_from_slice(text);
    for (kind, data) in images {
        let cur = buf.len();
        put_i32(buf, cur, *kind);
        put_i32(buf, cur + 4, (cur + 12) as i32);
        put_i32(buf, cur + 8, data.len() as i32);
        buf.extend_from_slice(data);
    }
    if buf.len() < pdo + 32 {
        buf.resize(pdo + 32, 0);
    }
}

/// A one-page HN file with an outline (GBK `HN` magic).
fn hn_file(text: &[u8], images: &[(i32, Vec<u8>)]) -> Vec<u8> {
    let mut buf = b"HN\0\0".to_vec();
    buf.resize(0x158, 0);
    put_i32(&mut buf, 0x90, 1);
    put_i32(&mut buf, 0x158, 1);
    buf.extend_from_slice(&toc_entry(b"Chapter", "1", 1));
    let table = buf.len();
    add_page(&mut buf, table, text, images, 0);
    buf
}

#[test]
fn caj_document_reads_header_and_outline() {
    let title: &[u8] = &[0xD6, 0xD0, b'A'];
    let toc = vec![toc_entry(title, "12", 1), toc_entry(b"Sub", "3x", 2)];
    let doc = open(caj_file(&one_page_pdf(), 7, &toc)).unwrap();
    assert_eq!(doc.format(), FileFormat::Caj);
    assert_eq!(doc.page_count(), 7);
    assert_eq!(doc.toc_entry_count(), 2);
    assert_eq!(doc.toc()[0].title, "中A");
    assert_eq!(doc.toc()[0].page, 12);
    assert_eq!(doc.toc()[0].level, 1);
    // A page number that is not all digits reads as 0.
    assert_eq!(doc.toc()[1].page, 0);
    assert_eq!(doc.toc()[1].level, 2);
    assert_eq!(doc.path(), &PathBuf::from("test.bin"));
}

#[test]
fn caj_extract_pdf_runs_to_the_last_eof() {
    let pdf = one_page_pdf();
    let doc = open(caj_file(&pdf, 1, &[])).unwrap();
    let out = doc.extract_pdf().unwrap();
    assert!(out.starts_with(b"%PDF-"));
    assert!(out.ends_with(b"%%EOF"));
    let end = pdf.windows(5).rposition(|w| w == b"%%EOF").unwrap() + 5;
    assert_eq!(out, pdf[..end].to_vec());
}

#[test]
fn caj_extract_pdf_gives_the_raw_body() {
    let body = b"1 0 obj\n<< >>\nendobj\ntrailing";
    let doc = open(caj_file(body, 1, &[])).unwrap();
    let out = doc.extract_pdf().unwrap();
    assert_eq!(out, b"1 0 obj\n<< >>\nendobj".to_vec());
}

#[test]
fn frame_pdf_adds_the_header_line_only_when_missing() {
    let mut expected = b"%PDF-1.3\r\n".to_vec();
    expected.extend_from_slice(b"1 0 obj endobj");
    expected.extend_from_slice(b"\r\n");
    assert_eq!(frame_pdf(b"1 0 obj endobj"), expected);
    assert_eq!(frame_pdf(b"%PDF-1.7 body"), b"%PDF-1.7 body".to_vec());
}

#[test]
fn caj_pdf_start_past_the_end_is_malformed() {
    let mut file = caj_file(b"1 0 obj endobj", 1, &[]);
    let pointer = i32::from_le_bytes(file[0x14..0x18].try_into().unwrap()) as usize;
    put_i32(&mut file, pointer, 0x7000);
    let doc = open(file).unwrap();
    match doc.extract_pdf() {
        Err(CajError::Malformed { format, message }) => {
            assert_eq!(format, FileFormat::Caj);
            assert!(message.starts_with("pdf_start (0x7000) is past the last endobj (0x"));
        }
        other => panic!("expected Malformed, got {other:?}"),
    }
}

#[test]
fn caj_negative_page_count_is_malformed() {
    let file = caj_file(b"", -1, &[]);
    match open(file) {
        Err(CajError::Malformed { format, message }) => {
            assert_eq!(format, FileFormat::Caj);
            assert_eq!(message, "page count must be non-negative, got -1");
        }
        other => panic!("expected Malformed, got {other:?}"),
    }
}

#[test]
fn caj_truncated_outline_is_an_io_error() {
    let mut file = caj_file(b"", 1, &[]);
    put_i32(&mut file, 0x110, 50);
    assert!(matches!(open(file), Err(CajError::Io(_))));
}

#[test]
fn caj_convert_repairs_and_adds_outline() {
    let toc = vec![toc_entry(b"Start", "1", 1)];
    let doc = open(caj_file(&one_page_pdf(), 1, &toc)).unwrap();
    let bytes = match convert(&doc).expect("conversion succeeds") {
        Conversion::Pdf(b) => b,
        other => panic!("expected a PDF, got {other:?}"),
    };
    let pdf = Document::load_mem(&bytes).expect("output parses");
    let catalog = pdf.catalog().unwrap();
    let outlines = catalog.get(b"Outlines").unwrap().as_reference().unwrap();
    let outlines = pdf.get_object(outlines).unwrap().as_dict().unwrap();
    assert_eq!(outlines.get(b"Count").unwrap().as_i64().unwrap(), 1);
}

#[test]
fn caj_convert_reports_an_unparsable_pdf() {
    let doc = open(caj_file(b"1 0 obj garbage endobj", 1, &[])).unwrap();
    match convert(&doc) {
        Err(CajError::Malformed { format, message }) => {
            assert_eq!(format, FileFormat::Caj);
            assert!(message.starts_with("xref repair / outline injection failed: "));
        }
        other => panic!("expected Malformed, got {other:?}"),
    }
}

#[test]
fn caj_conversion_maps_the_injection_result() {
    match caj_conversion(FileFormat::Caj, Ok(vec![1, 2, 3])) {
        Ok(Conversion::Pdf(b)) => assert_eq!(b, vec![1, 2, 3]),
        other => panic!("expected a PDF, got {other:?}"),
    }
    match caj_conversion(FileFormat::Caj, Err("boom".to_string())) {
        Err(CajError::Malformed { format, message }) => {
            assert_eq!(format, FileFormat::Caj);
            assert_eq!(message, "xref repair / outline injection failed: boom");
        }
        other => panic!("expected Malformed, got {other:?}"),
    }
}

#[test]
fn hn_document_pages_text_and_images() {
    let doc = open(hn_file(&new_style_text(), &[(1, jpeg_block(10, 20))])).unwrap();
    assert_eq!(doc.format(), FileFormat::Hn);
    assert_eq!(doc.page_count(), 1);
    assert_eq!(doc.toc().len(), 1);
    assert_eq!(doc.toc()[0].title, "Chapter");
    assert!(matches!(doc.layout(), Layout::Hn { with_toc: true, .. }));
    let pages = doc.pages().unwrap();
    assert_eq!(pages.len(), 1);
    assert_eq!(pages[0].text, "中 ");
    assert_eq!(pages[0].images.len(), 1);
    let img = &pages[0].images[0];
    assert_eq!(img.kind, ImageKind::Jpeg { upside_down: false });
    assert_eq!(img.width_px, 10);
    assert_eq!(img.height_px, 20);
    assert_eq!(img.data, jpeg_block(10, 20));
}

#[test]
fn hn_convert_assembles_first_image_and_text() {
    let doc = open(hn_file(&new_style_text(), &[(2, jpeg_block(10, 20))])).unwrap();
    match convert(&doc).unwrap() {
        Conversion::Assemble { pages, outline } => {
            assert_eq!(pages.len(), 1);
            assert_eq!(pages[0].text_overlay.as_deref(), Some("中 "));
            match &pages[0].image {
                DecodedImage::Jpeg { width_px, height_px, jpeg_bytes } => {
                    assert_eq!(*width_px, 10);
                    // Upside-down JPEGs get their height negated.
                    assert_eq!(*height_px, 0u32.wrapping_sub(20));
                    assert_eq!(jpeg_bytes, &vec![0xFF, 0xD8, 0xFF, 0xD9]);
                }
                other => panic!("expected a JPEG, got {other:?}"),
            }
            assert_eq!(outline.len(), 1);
            assert_eq!(outline[0].title, "Chapter");
        }
        other => panic!("expected Assemble, got {other:?}"),
    }
}

#[test]
fn hn_pure_text_file_cannot_be_converted() {
    let doc = open(hn_file(&new_style_text(), &[])).unwrap();
    let err = convert(&doc).unwrap_err();
    match &err {
        CajError::Malformed { format, message } => {
            assert_eq!(*format, FileFormat::Hn);
            assert_eq!(message, "file is pure-text; no images to embed");
        }
        other => panic!("expected Malformed, got {other:?}"),
    }
    assert_eq!(err.message(), "malformed Hn file: file is pure-text; no images to embed");
}

#[test]
fn hn_unknown_image_type_is_malformed() {
    let doc = open(hn_file(b"", &[(7, vec![0u8; 4])])).unwrap();
    match doc.pages() {
        Err(CajError::Malformed { message, .. }) => {
            assert_eq!(message, "page 1 unknown image type 7");
        }
        other => panic!("expected Malformed, got {other:?}"),
    }
}

#[test]
fn hn_unusual_image_offset_is_malformed() {
    let mut file = hn_file(b"", &[(0, vec![0u8; 4])]);
    let table = 0x15C + 0x134;
    let pdo = i32::from_le_bytes(file[table..table + 4].try_into().unwrap()) as usize;
    put_i32(&mut file, pdo + 4, 0x10);
    let doc = open(file).unwrap();
    match doc.pages() {
        Err(CajError::Malformed { message, .. }) => {
            assert_eq!(
                message,
                format!("page 1 unusual image offset: header says 0x10, expected 0x{:x}", pdo + 12)
            );
        }
        other => panic!("expected Malformed, got {other:?}"),
    }
}

#[test]
fn hn_compressed_text_is_inflated() {
    let raw = new_style_text();
    let mut enc = flate2::write::ZlibEncoder::new(Vec::new(), flate2::Compression::default());
    enc.write_all(&raw).unwrap();
    let compressed = enc.finish().unwrap();
    let mut section = b"COMPRESSTEXT".to_vec();
    section.extend_from_slice(&(raw.len() as i32).to_le_bytes());
    section.extend_from_slice(&compressed);
    let doc = open(hn_file(&section, &[])).unwrap();
    let pages = doc.pages().unwrap();
    assert_eq!(pages[0].text, "中 ");
}

#[test]
fn hn_compressed_text_size_mismatch_is_malformed() {
    let raw = new_style_text();
    let mut enc = flate2::write::ZlibEncoder::new(Vec::new(), flate2::Compression::default());
    enc.write_all(&raw).unwrap();
    let compressed = enc.finish().unwrap();
    let mut section = b"COMPRESSTEXT".to_vec();
    section.extend_from_slice(&99i32.to_le_bytes());
    section.extend_from_slice(&compressed);
    let doc = open(hn_file(&section, &[])).unwrap();
    match doc.pages() {
        Err(CajError::Malformed { message, .. }) => {
            assert_eq!(message, format!("page 1 text size mismatch: got {} expected 99", raw.len()));
        }
        other => panic!("expected Malformed, got {other:?}"),
    }
}

#[test]
fn hn_negative_expected_text_size_is_shown_unsigned() {
    let raw = new_style_text();
    let mut enc = flate2::write::ZlibEncoder::new(Vec::new(), flate2::Compression::default());
    enc.write_all(&raw).unwrap();
    let compressed = enc.finish().unwrap();
    let mut section = b"COMPRESSTEXT".to_vec();
    section.extend_from_slice(&(-1i32).to_le_bytes());
    section.extend_from_slice(&compressed);
    let doc = open(hn_file(&section, &[])).unwrap();
    match doc.pages() {
        Err(CajError::Malformed { message, .. }) => {
            assert_eq!(
                message,
                format!("page 1 text size mismatch: got {} expected {}", raw.len(), (-1i32) as usize)
            );
        }
        other => panic!("expected Malformed, got {other:?}"),
    }
}

#[test]
fn hn_broken_zlib_stream_is_a_zlib_error() {
    let mut section = b"COMPRESSTEXT".to_vec();
    section.extend_from_slice(&4i32.to_le_bytes());
    section.extend_from_slice(&[0x11, 0x22, 0x33, 0x44]);
    let doc = open(hn_file(&section, &[])).unwrap();
    assert!(matches!(doc.pages(), Err(CajError::Zlib(_))));
}

#[test]
fn hn_short_form_has_no_outline() {
    let mut buf = b"HN\xC8\x00".to_vec();
    buf.resize(0xD8, 0);
    put_i32(&mut buf, 0x90, 1);
    add_page(&mut buf, 0xD8, &new_style_text(), &[(1, jpeg_block(3, 4))], 0);
    let doc = open(buf).unwrap();
    assert_eq!(doc.format(), FileFormat::Hn);
    assert_eq!(doc.toc_entry_count(), 0);
    assert!(matches!(doc.layout(), Layout::Hn { page_info_table_offset: 0xD8, with_toc: false }));
    let pages = iter_pages(&doc).unwrap();
    assert_eq!(pages[0].text, "中 ");
}

#[test]
fn c8_pages_have_no_text() {
    let mut buf = vec![0xC8, 0, 0, 0];
    buf.resize(0x50, 0);
    put_i32(&mut buf, 0x08, 1);
    add_page(&mut buf, 0x50, &new_style_text(), &[(1, jpeg_block(5, 6))], 0);
    let doc = open(buf).unwrap();
    assert_eq!(doc.format(), FileFormat::C8);
    assert_eq!(doc.page_count(), 1);
    let pages = doc.pages().unwrap();
    assert_eq!(pages[0].text, "");
    match convert(&doc).unwrap() {
        Conversion::Assemble { pages, outline } => {
            assert_eq!(pages.len(), 1);
            assert!(pages[0].text_overlay.is_none());
            assert!(outline.is_empty());
        }
        other => panic!("expected Assemble, got {other:?}"),
    }
}

#[test]
fn pages_of_other_formats_are_unsupported() {
    let doc = open(b"%PDF-1.4\n%%EOF".to_vec()).unwrap();
    match doc.pages() {
        Err(CajError::Unsupported(m)) => {
            assert_eq!(m, "pages is only supported for HN and C8 documents")
        }
        other => panic!("expected Unsupported, got {other:?}"),
    }
    match iter_pages(&doc) {
        Err(CajError::Malformed { message, .. }) => {
            assert_eq!(message, "iter_pages called on a non-HN/C8 document")
        }
        other => panic!("expected Malformed, got {other:?}"),
    }
}

#[test]
fn pdf_converts_verbatim() {
    let data = b"%PDF-1.4\nwhatever\n%%EOF\n".to_vec();
    let doc = open(data.clone()).unwrap();
    assert_eq!(doc.format(), FileFormat::Pdf);
    assert_eq!(doc.extract_pdf().unwrap(), data);
    match convert(&doc).unwrap() {
        Conversion::Pdf(b) => assert_eq!(b, data),
        other => panic!("expected a PDF, got {other:?}"),
    }
}

fn kdh_file(plain: &[u8]) -> Vec<u8> {
    let mut input = b"KDH ".to_vec();
    input.resize(254, 0);
    for (i, b) in plain.iter().enumerate() {
        input.push(b ^ KDH_PASSPHRASE[i % KDH_PASSPHRASE.len()]);
    }
    input
}

#[test]
fn kdh_converts_to_the_decrypted_pdf() {
    let doc = open(kdh_file(b"%PDF-1.4\nbody\n%%EOF\njunk")).unwrap();
    assert_eq!(doc.format(), FileFormat::Kdh);
    match convert(&doc).unwrap() {
        Conversion::Pdf(b) => assert_eq!(b, b"%PDF-1.4\nbody\n%%EOF".to_vec()),
        other => panic!("expected a PDF, got {other:?}"),
    }
    match doc.extract_pdf() {
        Err(CajError::Unsupported(m)) => {
            assert_eq!(m, "extract_pdf is only supported for CAJ and PDF documents")
        }
        other => panic!("expected Unsupported, got {other:?}"),
    }
}

#[test]
fn kdh_with_the_wrong_magic_is_malformed() {
    let doc = open(kdh_file(b"not a pdf %%EOF")).unwrap();
    match convert(&doc) {
        Err(CajError::Malformed { message, .. }) => {
            assert_eq!(message, "decrypted KDH does not start with %PDF- — wrong XOR key?")
        }
        other => panic!("expected Malformed, got {other:?}"),
    }
    let doc = open(kdh_file(b"%PDF-1.4 but no end")).unwrap();
    match convert(&doc) {
        Err(CajError::Malformed { message, .. }) => {
            assert_eq!(message, "decrypted KDH is missing %%EOF marker")
        }
        other => panic!("expected Malformed, got {other:?}"),
    }
}

#[test]
fn teb_is_not_supported() {
    let doc = open(b"TEB\0rest".to_vec()).unwrap();
    match convert(&doc) {
        Err(CajError::Unsupported(m)) => assert_eq!(m, "TEB format not yet implemented"),
        other => panic!("expected Unsupported, got {other:?}"),
    }
}

#[test]
fn decode_image_jpeg_and_short_jpeg() {
    let raw = RawImage {
        kind: ImageKind::Jpeg { upside_down: false },
        data: jpeg_block(7, 8),
        width_px: 7,
        height_px: 8,
    };
    match decode_image(&raw).unwrap() {
        DecodedImage::Jpeg { width_px, height_px, jpeg_bytes } => {
            assert_eq!((width_px, height_px), (7, 8));
            assert_eq!(jpeg_bytes, vec![0xFF, 0xD8, 0xFF, 0xD9]);
        }
        other => panic!("expected a JPEG, got {other:?}"),
    }
    let short = RawImage { kind: ImageKind::Jpeg { upside_down: false }, data: vec![0; 5], width_px: 0, height_px: 0 };
    match decode_image(&short) {
        Err(CajError::Malformed { message, .. }) => {
            assert_eq!(message, "JPEG block is only 5 bytes; need at least 48")
        }
        other => panic!("expected Malformed, got {other:?}"),
    }
}

#[test]
fn decode_image_jbig1_errors_are_prefixed() {
    let raw = RawImage { kind: ImageKind::Jbig1, data: vec![0; 3], width_px: 1, height_px: 1 };
    match decode_image(&raw) {
        Err(CajError::Malformed { message, .. }) => assert_eq!(
            message,
            "JBIG1 decode failed: input buffer is too short: need 48 bytes, got 3"
        ),
        other => panic!("expected Malformed, got {other:?}"),
    }
}

#[test]
fn decode_page_skips_images_that_fail() {
    let good = RawImage { kind: ImageKind::Jpeg { upside_down: false }, data: jpeg_block(1, 1), width_px: 1, height_px: 1 };
    let bad = RawImage { kind: ImageKind::Jbig2, data: vec![0; 2], width_px: 1, height_px: 1 };
    let page = Page { text: String::new(), images: vec![bad, good] };
    let decoded = decode_page(&page).unwrap();
    assert_eq!(decoded.len(), 1);
    assert!(matches!(decoded[0], DecodedImage::Jpeg { .. }));
}

#[test]
fn parse_page_text_old_style_runs() {
    // 0x8001 (old style): a line feed, 2 unknown bytes, then 4-byte
    // characters until a record whose second byte is 0x80.
    let data = [
        0x01, 0x80, 0x00, 0x00, // code + unknown
        0x00, 0x00, 0xD0, 0xD6, // "中"
        0x00, 0x00, 0x8A, 0xA3, // line feed artefact
        0x70, 0x80, 0x00, 0x00, // 0x8070: a run without the line feed
        0x00, 0x00, 0xA0, 0xA3, // space
    ];
    assert_eq!(parse_page_text(&data, true), "\n中\n ");
}

#[test]
fn parse_page_text_new_style_and_placeholder() {
    assert_eq!(parse_page_text(&new_style_text(), false), "中 ");
    // 0xFFFF does not decode as GBK: a placeholder.
    let data = [0x01, 0x80, 0xFF, 0xFF, 0x00, 0x00];
    assert_eq!(parse_page_text(&data, false), "<0xFFFF>");
    // A record cut short ends the text.
    assert_eq!(parse_page_text(&[0x01, 0x80, 0xD0], false), "");
    assert_eq!(parse_page_text(&[], false), "");
    // Tab and carriage return artefacts.
    let data = [0x01, 0x80, 0x89, 0xA3, 0, 0, 0x01, 0x80, 0x8D, 0xA3, 0, 0];
    assert_eq!(parse_page_text(&data, false), "\t\r");
}

#[test]
fn caj_error_messages() {
    let e = CajError::PageOutOfRange { index: 5, count: 3 };
    assert_eq!(e.message(), "page index 5 out of range (page count is 3)");
    let e = CajError::Unsupported("x");
    assert_eq!(e.message(), "unsupported feature: x");
    let e = CajError::Text("t".to_string());
    assert_eq!(e.message(), "text decoding error: t");
    let e = CajError::Zlib("z".to_string());
    assert_eq!(e.message(), "zlib decompression failed: z");
    assert_eq!(FileFormat::Caj.name(), "CAJ");
    assert_eq!(FileFormat::Kdh.debug_name(), "Kdh");
}

/// The container of the command-line scenario: page count 1, the PDF
/// pointer at 0x118 naming 0x11C, no outline.
fn synthetic_caj() -> Vec<u8> {
    let buf = one_page_pdf();
    let mut out = Vec::new();
    out.extend_from_slice(b"CAJ\0");
    out.resize(0x10, 0);
    out.extend_from_slice(&1i32.to_le_bytes());
    out.extend_from_slice(&0x118i32.to_le_bytes());
    out.resize(0x110, 0);
    out.extend_from_slice(&0i32.to_le_bytes());
    out.resize(0x118, 0);
    out.extend_from_slice(&0x11Ci32.to_le_bytes());
    out.extend_from_slice(&buf);
    out
}

#[test]
fn end_to_end_synthetic_caj_conversion() {
    let doc = CajDocument::from_bytes(PathBuf::from("synthetic.caj"), synthetic_caj())
        .expect("open synthetic CAJ");
    let pdf = match convert(&doc).expect("caj2pdf convert failed") {
        Conversion::Pdf(b) => b,
        other => panic!("expected a PDF, got {other:?}"),
    };
    assert!(!pdf.is_empty(), "output PDF is empty");
    assert!(
        pdf.starts_with(b"%PDF-"),
        "output PDF does not start with %PDF-: {:?}",
        &pdf[..pdf.len().min(8)]
    );
    assert!(
        pdf.windows(5).any(|w| w == b"%%EOF"),
        "output PDF does not contain %%EOF marker"
    );
}

#[test]
fn end_to_end_show_command_reports_caj() {
    let doc = CajDocument::from_bytes(PathBuf::from("show.caj"), synthetic_caj())
        .expect("open synthetic CAJ");
    let shown = format!(
        "Format:   {}\nPages:    {}\nOutlines: {}",
        doc.format().name(),
        doc.page_count(),
        doc.toc_entry_count()
    );
    assert!(shown.contains("CAJ"), "show output should mention CAJ: {shown}");
    assert_eq!(doc.page_count(), 1);
}
