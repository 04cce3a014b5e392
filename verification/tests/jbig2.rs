use caj2pdf::jbig2::{decode, Bitmap, Jbig2Error};

fn cnki_header(width: u32, height: u32) -> [u8; 48] {
    let mut h = [0u8; 48];
    h[4..8].copy_from_slice(&width.to_le_bytes());
    h[8..12].copy_from_slice(&height.to_le_bytes());
    h
}

#[test]
fn decode_smoke_decode_rejects_short_input() {
    let input = [0u8; 47];
    let err = decode(&input, 1, 1).expect_err("47-byte input must be rejected");
    match err {
        Jbig2Error::ShortInput { need, got } => {
            assert_eq!(need, 48, "ShortInput must report the 48-byte CNKI header size");
            assert_eq!(got, 47);
        }
        other => panic!("expected ShortInput, got {other:?}"),
    }
}

#[test]
fn decode_returns_an_error_on_garbage_input() {
    let width = 8u32;
    let height = 8u32;
    let mut buf = cnki_header(width, height).to_vec();
    buf.extend_from_slice(&[0xFFu8; 64]);
    let result = decode(&buf, width, height);
    assert!(
        result.is_err(),
        "garbage input must be rejected, got Ok({:?})",
        result.map(|b| (b.width, b.height, b.bits.len()))
    );
}

#[test]
fn decode_zero_width_does_not_panic() {
    let buf = cnki_header(0, 0).to_vec();
    let _ = decode(&buf, 0, 0);
}

#[test]
fn bitmap_construction_roundtrip() {
    let bits = vec![0b1010_1010, 0b0101_0101];
    let bm = Bitmap { width: 16, height: 1, bits: bits.clone() };
    assert_eq!(bm.row_bytes(), 2);
    assert_eq!(bm.bits, bits);
}

#[test]
fn empty_stream_after_header_is_a_decode_error() {
    let buf = cnki_header(8, 8).to_vec();
    match decode(&buf, 8, 8) {
        Err(Jbig2Error::Decode(_)) => {}
        other => panic!("expected Decode error, got {other:?}"),
    }
}

#[test]
fn jbig2_error_messages() {
    let e = Jbig2Error::ShortInput { need: 48, got: 3 };
    assert_eq!(e.message(), "input buffer is too short: need 48 bytes, got 3");
    let e = Jbig2Error::Decode("bad segment".to_string());
    assert_eq!(e.message(), "JBIG2 decode failed: bad segment");
}

#[test]
fn row_bytes_rounds_up_to_whole_bytes() {
    let bm = Bitmap { width: 9, height: 0, bits: Vec::new() };
    assert_eq!(bm.row_bytes(), 2);
    let bm = Bitmap { width: 8, height: 0, bits: Vec::new() };
    assert_eq!(bm.row_bytes(), 1);
}
