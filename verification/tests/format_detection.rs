use std::path::PathBuf;

use caj2pdf::{detect_format, CajDocument, CajError, FileFormat};

fn detect(bytes: &[u8]) -> Result<(FileFormat, Option<bool>), CajError> {
    assert!(bytes.len() >= 4, "test buffers must be at least 4 bytes");
    let header = [bytes[0], bytes[1], bytes[2], bytes[3]];
    detect_format(&header)
}

#[test]
fn detect_c8() {
    let mut buf = vec![0u8; 16];
    buf[0] = 0xC8;
    let (fmt, with_toc) = detect(&buf).expect("C8 should be detected");
    assert_eq!(fmt, FileFormat::C8);
    assert_eq!(with_toc, None);
}

#[test]
fn detect_hn_binary_magic() {
    let mut buf = vec![0u8; 16];
    buf[0] = b'H';
    buf[1] = b'N';
    buf[2] = 0xC8;
    buf[3] = 0x00;
    let (fmt, with_toc) = detect(&buf).expect("HN\\xc8\\x00 should be detected");
    assert_eq!(fmt, FileFormat::Hn);
    assert_eq!(with_toc, Some(false));
}

#[test]
fn detect_hn_gbk_magic() {
    let mut buf = vec![0u8; 16];
    buf[0] = b'H';
    buf[1] = b'N';
    let (fmt, with_toc) = detect(&buf).expect("HN (GBK) should be detected");
    assert_eq!(fmt, FileFormat::Hn);
    assert_eq!(with_toc, Some(true));
}

#[test]
fn detect_caj() {
    let mut buf = vec![0u8; 16];
    buf[0] = b'C';
    buf[1] = b'A';
    buf[2] = b'J';
    let (fmt, with_toc) = detect(&buf).expect("CAJ should be detected");
    assert_eq!(fmt, FileFormat::Caj);
    assert_eq!(with_toc, None);
}

#[test]
fn detect_pdf() {
    let mut buf = vec![0u8; 16];
    buf[0] = b'%';
    buf[1] = b'P';
    buf[2] = b'D';
    buf[3] = b'F';
    let (fmt, with_toc) = detect(&buf).expect("PDF should be detected");
    assert_eq!(fmt, FileFormat::Pdf);
    assert_eq!(with_toc, None);
}

#[test]
fn detect_kdh() {
    let mut buf = vec![0u8; 16];
    buf[0] = b'K';
    buf[1] = b'D';
    buf[2] = b'H';
    buf[3] = b' ';
    let (fmt, with_toc) = detect(&buf).expect("KDH should be detected");
    assert_eq!(fmt, FileFormat::Kdh);
    assert_eq!(with_toc, None);
}

#[test]
fn detect_teb() {
    let mut buf = vec![0u8; 16];
    buf[0] = b'T';
    buf[1] = b'E';
    buf[2] = b'B';
    let (fmt, with_toc) = detect(&buf).expect("TEB should be detected");
    assert_eq!(fmt, FileFormat::Teb);
    assert_eq!(with_toc, None);
}

#[test]
fn detect_unknown_magic() {
    let mut buf = vec![0u8; 16];
    buf[0] = b'Z';
    buf[1] = b'Z';
    buf[2] = b'Z';
    buf[3] = b'Z';
    match detect(&buf) {
        Err(CajError::UnknownFormat(magic)) => {
            assert_eq!(magic, [b'Z', b'Z', b'Z', b'Z']);
        }
        other => panic!("expected UnknownFormat error, got {other:?}"),
    }
}

#[test]
fn detect_arbitrary_binary() {
    let buf = vec![0x01u8, 0x02, 0x03, 0x04, 0, 0, 0, 0, 0, 0, 0, 0, 0, 0, 0, 0];
    match detect(&buf) {
        Err(CajError::UnknownFormat(_)) => {}
        other => panic!("expected UnknownFormat error, got {other:?}"),
    }
}

#[test]
fn detect_format_preserves_cursor() {
    // Detection looks at the four header bytes only; the rest of the data
    // is left as it was for the readers that follow.
    let mut buf = vec![0u8; 16];
    buf[0] = b'%';
    buf[1] = b'P';
    buf[2] = b'D';
    buf[3] = b'F';
    for (i, b) in buf.iter_mut().enumerate().take(16).skip(4) {
        *b = i as u8;
    }
    let snapshot = buf.clone();
    let header = [buf[0], buf[1], buf[2], buf[3]];
    let (fmt, _) = detect_format(&header).expect("PDF should be detected");
    assert_eq!(fmt, FileFormat::Pdf);
    let rest = buf[4..].to_vec();
    assert_eq!(rest, &snapshot[4..]);
}

#[test]
fn open_rejects_unknown_format() {
    let result = CajDocument::from_bytes(
        PathBuf::from("bogus.bin"),
        b"ZZZZnot-a-real-file!".to_vec(),
    );
    match result {
        Err(CajError::UnknownFormat(_)) => {}
        Err(e) => panic!("expected UnknownFormat, got {e:?}"),
        Ok(_) => panic!("expected error opening bogus file"),
    }
}

#[test]
fn detect_trailing_nuls_only_are_trimmed() {
    // "CA\0J" is not "CAJ": only trailing NULs are removed.
    assert!(matches!(detect(b"CA\0J"), Err(CajError::UnknownFormat(_))));
    // "%PD\0" is not "%PDF".
    assert!(matches!(detect(b"%PD\0"), Err(CajError::UnknownFormat(_))));
    // "KDH\0" is not "KDH ".
    assert!(matches!(detect(b"KDH\0"), Err(CajError::UnknownFormat(_))));
}

#[test]
fn detect_c8_wins_over_everything_else() {
    let (fmt, toc) = detect(&[0xC8, b'A', b'J', 0]).unwrap();
    assert_eq!(fmt, FileFormat::C8);
    assert_eq!(toc, None);
}

#[test]
fn unknown_format_message_shows_the_magic() {
    let err = detect(b"ZZZZ").unwrap_err();
    assert_eq!(
        err.message(),
        "unsupported or unknown file type (magic bytes: [90, 90, 90, 90])"
    );
}

#[test]
fn from_bytes_short_file_is_an_io_error() {
    let result = CajDocument::from_bytes(PathBuf::from("tiny"), vec![b'C', b'A']);
    assert!(matches!(result, Err(CajError::Io(_))));
}
