use caj2pdf::jbig1::{
    bits_per_pixel_from_header, bytes_per_line, decode, dimensions_from_header, Bitmap, JbigError,
    CNKI_HEADER_LEN,
};

fn make_cnki_header(width: u32, height: u32, bits_per_pixel: u16) -> [u8; CNKI_HEADER_LEN] {
    let mut buf = [0u8; CNKI_HEADER_LEN];
    buf[4..8].copy_from_slice(&width.to_le_bytes());
    buf[8..12].copy_from_slice(&height.to_le_bytes());
    buf[14..16].copy_from_slice(&bits_per_pixel.to_le_bytes());
    buf
}

#[test]
fn codec_bytes_per_line_matches_c_formula() {
    assert_eq!(bytes_per_line(16, 1), 4);
    assert_eq!(bytes_per_line(32, 1), 4);
    assert_eq!(bytes_per_line(33, 1), 8);
    assert_eq!(bytes_per_line(64, 1), 8);
    assert_eq!(bytes_per_line(800, 1), 100);
    assert_eq!(bytes_per_line(1024, 1), 128);
    assert_eq!(bytes_per_line(8, 8), 8);
}

#[test]
fn header_helpers_reject_short_buffers() {
    assert_eq!(bits_per_pixel_from_header(&[]), None);
    assert_eq!(dimensions_from_header(&[]), None);
    let mut buf = [0u8; 48];
    buf[4..8].copy_from_slice(&300u32.to_le_bytes());
    buf[8..12].copy_from_slice(&200u32.to_le_bytes());
    buf[14..16].copy_from_slice(&1u16.to_le_bytes());
    assert_eq!(dimensions_from_header(&buf), Some((300, 200)));
    assert_eq!(bits_per_pixel_from_header(&buf), Some(1));
}

#[test]
fn decode_known_bytes_per_line_matches_c_formula() {
    assert_eq!(bytes_per_line(1, 1), 4);
    assert_eq!(bytes_per_line(8, 1), 4);
    assert_eq!(bytes_per_line(16, 1), 4);
    assert_eq!(bytes_per_line(32, 1), 4);
    assert_eq!(bytes_per_line(33, 1), 8);
    assert_eq!(bytes_per_line(64, 1), 8);
    assert_eq!(bytes_per_line(100, 1), 16);
    assert_eq!(bytes_per_line(800, 1), 100);
    assert_eq!(bytes_per_line(1024, 1), 128);
    assert_eq!(bytes_per_line(8, 8), 8);
    assert_eq!(bytes_per_line(16, 8), 16);
    assert_eq!(bytes_per_line(8, 4), 4);
    assert_eq!(bytes_per_line(16, 4), 8);
}

#[test]
fn decode_known_decode_rejects_short_input() {
    let res = decode(&[], 0, 0);
    assert!(res.is_err(), "expected error for empty input, got {res:?}");
    let err = res.err().unwrap();
    assert!(
        matches!(err, JbigError::ShortInput { .. }),
        "expected ShortInput, got {err:?}"
    );
    let mut buf = vec![0u8; 47];
    buf[4..8].copy_from_slice(&16u32.to_le_bytes());
    buf[8..12].copy_from_slice(&8u32.to_le_bytes());
    let res = decode(&buf, 16, 8);
    assert!(res.is_err());
}

#[test]
fn decode_allocates_correct_output_size() {
    let header = make_cnki_header(16, 8, 1);
    let mut input = Vec::from(&header[..]);
    input.extend_from_slice(&[0u8; 4]);
    let bm: Bitmap = decode(&input, 16, 8).expect("decode should succeed");
    assert_eq!(bm.width, 16);
    assert_eq!(bm.height, 8);
    assert_eq!(bm.bits.len(), 32);
    assert_eq!(bm.row_bytes(), 2);
}

#[test]
fn decode_handcrafted_16x8_image() {
    let header = make_cnki_header(16, 8, 1);
    let stream: [u8; 8] = [0x00, 0x10, 0x20, 0x30, 0x40, 0x50, 0x60, 0x70];
    let mut input = Vec::from(&header[..]);
    input.extend_from_slice(&stream);
    let bm = decode(&input, 16, 8).expect("decode must succeed");
    assert_eq!(bm.width, 16);
    assert_eq!(bm.height, 8);
    assert_eq!(bm.bits.len(), 8 * 4);
}

#[test]
fn decode_zero_height_image() {
    let header = make_cnki_header(16, 0, 1);
    let mut input = Vec::from(&header[..]);
    input.extend_from_slice(&[0u8; 16]);
    let bm = decode(&input, 16, 0).expect("decode of zero-height image");
    assert_eq!(bm.width, 16);
    assert_eq!(bm.height, 0);
    assert!(bm.bits.is_empty());
    assert_eq!(bm.row_bytes(), 2);
}

#[test]
fn short_input_reports_need_and_got() {
    match decode(&[0u8; 10], 1, 1) {
        Err(JbigError::ShortInput { need, got }) => {
            assert_eq!(need, 48);
            assert_eq!(got, 10);
        }
        other => panic!("expected ShortInput, got {other:?}"),
    }
    let err = decode(&[0u8; 10], 1, 1).unwrap_err();
    assert_eq!(err.message(), "input buffer is too short: need 48 bytes, got 10");
}

#[test]
fn stride_too_short_for_width_is_rejected() {
    // bits_per_pixel 0 makes the stride 0, which cannot hold a 16-pixel row.
    let header = make_cnki_header(16, 2, 0);
    let err = decode(&header, 16, 2).unwrap_err();
    match &err {
        JbigError::InvalidHeader(m) => assert_eq!(m, "row stride is too short for the image width"),
        other => panic!("expected InvalidHeader, got {other:?}"),
    }
    assert_eq!(
        err.message(),
        "invalid image header: row stride is too short for the image width"
    );
}

#[test]
fn decode_is_deterministic_and_the_same_for_padding_after_stream() {
    let header = make_cnki_header(16, 8, 1);
    let mut input = Vec::from(&header[..]);
    input.extend_from_slice(&[0x12, 0x34, 0x56, 0x78]);
    let a = decode(&input, 16, 8).unwrap();
    let b = decode(&input, 16, 8).unwrap();
    assert_eq!(a.bits, b.bits);
}

#[test]
fn bytes_per_line_saturates_instead_of_overflowing() {
    // ((W * bpp + 31) >> 5) << 2 with the product saturating at u32::MAX.
    assert_eq!(bytes_per_line(u32::MAX, 2), (u32::MAX >> 5) << 2);
    assert_eq!(bytes_per_line(0, 1), 0);
}
