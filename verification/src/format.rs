//! Telling the six CAJ-family formats apart by the first four bytes of a
//! file.

use vstd::prelude::*;
use crate::bindings::{gbk_decode, gbk_decoded};
use crate::text::{trim_trailing_nul, trimmed_equals};
use crate::types::{CajError, CajResult, FileFormat};

verus! {

/// The format named by the magic bytes `h` (the first four bytes of a
/// file), and for HN whether the file carries an outline:
///
/// * `0xC8` first → C8;
/// * `HN\xc8\x00` → HN without an outline;
/// * otherwise the bytes are decoded as GBK; if that succeeds, the text
///   with trailing NULs removed is matched against `CAJ`, `HN` (HN with an
///   outline), `%PDF`, `KDH ` and `TEB`.
///
/// `None` for anything else.
pub open spec fn detected_format(h: Seq<u8>) -> Option<(FileFormat, Option<bool>)> {
    if h[0] == 0xC8 {
        Some((FileFormat::C8, None))
    } else if h[0] == 72 && h[1] == 78 && h[2] == 0xC8 && h[3] == 0 {
        Some((FileFormat::Hn, Some(false)))
    } else {
        let d = gbk_decoded(h);
        let t = trim_trailing_nul(d.0);
        if d.1 {
            None
        } else if t == "CAJ"@ {
            Some((FileFormat::Caj, None))
        } else if t == "HN"@ {
            Some((FileFormat::Hn, Some(true)))
        } else if t == "%PDF"@ {
            Some((FileFormat::Pdf, None))
        } else if t == "KDH "@ {
            Some((FileFormat::Kdh, None))
        } else if t == "TEB"@ {
            Some((FileFormat::Teb, None))
        } else {
            None
        }
    }
}

/// Detect the format of a file from its first four bytes.
///
/// The second value is `Some(true)` / `Some(false)` for HN files, where it
/// tells whether the document carries an outline tree; `None` for every
/// other format.
///
/// # Errors
/// [`CajError::UnknownFormat`] with the four bytes when they name none of
/// the six formats.
pub fn detect_format(header: &[u8; 4]) -> (r: CajResult<(FileFormat, Option<bool>)>)
    ensures
        match detected_format(header@) {
            Some(f) => r matches Ok(g) && g == f,
            None => r matches Err(CajError::UnknownFormat(m)) && m@ == header@,
        },
{
    if header[0] == 0xC8 {
        return Ok((FileFormat::C8, None));
    }
    if header[0] == 72 && header[1] == 78 && header[2] == 0xC8 && header[3] == 0 {
        return Ok((FileFormat::Hn, Some(false)));
    }
    let (decoded, had_errors) = gbk_decode(header.as_slice());
    if had_errors {
        return Err(CajError::UnknownFormat(*header));
    }
    let text = decoded.as_str();
    if trimmed_equals(text, "CAJ") {
        Ok((FileFormat::Caj, None))
    } else if trimmed_equals(text, "HN") {
        Ok((FileFormat::Hn, Some(true)))
    } else if trimmed_equals(text, "%PDF") {
        Ok((FileFormat::Pdf, None))
    } else if trimmed_equals(text, "KDH ") {
        Ok((FileFormat::Kdh, None))
    } else if trimmed_equals(text, "TEB") {
        Ok((FileFormat::Teb, None))
    } else {
        Err(CajError::UnknownFormat(*header))
    }
}

} // verus!
