//! The CAJ container: a page count, an outline and an embedded PDF.
//!
//! The page count lives at offset 0x10 and the outline at 0x110. The PDF
//! itself is found through a 4-byte little-endian pointer at 0x14 to
//! another 4-byte little-endian offset, the start of the PDF bytes.

use vstd::prelude::*;
use crate::bindings::unexpected_eof;
use crate::bytes::{
    contains, contains_bytes, i32_at, occurs_at, read_i32, read_u32, rfind, rfind_bytes,
    starts_with, u32_at,
};
use crate::text::{hex_lower, push_numeral, push_str};
use vstd::slice::slice_subrange;
use crate::document::{
    toc_entries, read_toc, CajDocument, CajDocumentView, Layout, ReadFailure, TOC_ENTRY_SIZE,
    failure_error,
};
use crate::text::{push_signed, signed_decimal, string_of};
use crate::types::{CajError, CajResult, OutlineEntryView};

verus! {

broadcast use crate::document::lemma_document_view;

/// Offset of the page count.
pub const PAGE_COUNT_OFFSET: usize = 0x10;

/// Offset of the pointer to the PDF start.
pub const PDF_START_POINTER_OFFSET: usize = 0x14;

/// Offset of the outline entry count; the entries follow it.
pub const TOC_COUNT_OFFSET: usize = 0x110;

/// Page count, outline and layout of a CAJ file: the page count (an
/// `i32` at 0x10, not negative), the outline (an `i32` count at 0x110,
/// not negative, then the entries), and the start of the PDF (a `u32`
/// read at the offset that the `u32` at 0x14 gives).
pub open spec fn caj_meta(data: Seq<u8>) -> Result<(u32, Seq<OutlineEntryView>, Layout), ReadFailure> {
    let pc = i32_at(data, 0x10);
    let tc = i32_at(data, 0x110);
    let p = u32_at(data, 0x14);
    if data.len() < 0x14 {
        Err(ReadFailure::Eof)
    } else if pc < 0 {
        Err(
            ReadFailure::Malformed(
                "page count must be non-negative, got "@ + signed_decimal(pc as int),
            ),
        )
    } else if data.len() < 0x114 {
        Err(ReadFailure::Eof)
    } else if tc < 0 {
        Err(
            ReadFailure::Malformed("toc count must be non-negative, got "@ + signed_decimal(tc as int)),
        )
    } else if 0x114 + tc * TOC_ENTRY_SIZE > data.len() {
        Err(ReadFailure::Eof)
    } else if p + 4 > data.len() {
        Err(ReadFailure::Eof)
    } else {
        Ok(
            (
                pc as u32,
                toc_entries(data, 0x114, tc as nat),
                Layout::Caj { pdf_start_offset: u32_at(data, p as int) as u64 },
            ),
        )
    }
}

/// Read the page count and the table of contents of a CAJ file, and
/// patch the document's layout with the start of the embedded PDF.
pub(crate) fn read_meta(doc: &mut CajDocument) -> (r: CajResult<()>)
    ensures
        final(doc).path == old(doc).path,
        match caj_meta(old(doc).data@) {
            Ok(m) => r is Ok && final(doc)@ == (CajDocumentView {
                page_count: m.0,
                toc: m.1,
                layout: m.2,
                ..old(doc)@
            }),
            Err(f) => r matches Err(e) && failure_error(f, old(doc).format, e),
        },
{
    let len = doc.data.len();
    if len < PAGE_COUNT_OFFSET + 4 {
        return Err(CajError::Io(unexpected_eof()));
    }
    let page_count = read_i32(doc.data.as_slice(), PAGE_COUNT_OFFSET);
    if page_count < 0 {
        let mut m = string_of("page count must be non-negative, got ");
        push_signed(&mut m, page_count as i64);
        return Err(CajError::malformed(doc.format, m));
    }
    doc.page_count = page_count as u32;
    if len < TOC_COUNT_OFFSET + 4 {
        return Err(CajError::Io(unexpected_eof()));
    }
    let toc_count = read_i32(doc.data.as_slice(), TOC_COUNT_OFFSET);
    if toc_count < 0 {
        let mut m = string_of("toc count must be non-negative, got ");
        push_signed(&mut m, toc_count as i64);
        return Err(CajError::malformed(doc.format, m));
    }
    let toc = match read_toc(doc.data.as_slice(), (TOC_COUNT_OFFSET + 4) as u64, toc_count as u64) {
        Some(t) => t,
        None => {
            return Err(CajError::Io(unexpected_eof()));
        },
    };
    doc.toc = toc;
    let pdf_start_pointer = read_u32(doc.data.as_slice(), PDF_START_POINTER_OFFSET);
    if pdf_start_pointer as u64 + 4 > len as u64 {
        return Err(CajError::Io(unexpected_eof()));
    }
    let pdf_start = read_u32(doc.data.as_slice(), pdf_start_pointer as usize);
    doc.layout = Layout::Caj { pdf_start_offset: pdf_start as u64 };
    Ok(())
}

/// The bytes `endobj`.
pub open spec fn endobj_marker() -> Seq<u8> {
    seq![101u8, 110, 100, 111, 98, 106]
}

/// The bytes `xref`.
pub open spec fn xref_marker() -> Seq<u8> {
    seq![120u8, 114, 101, 102]
}

/// The bytes `%%EOF`.
pub open spec fn eof_marker() -> Seq<u8> {
    seq![37u8, 37, 69, 79, 70]
}

/// The bytes `%PDF-`.
pub open spec fn pdf_magic() -> Seq<u8> {
    seq![37u8, 80, 68, 70, 45]
}

/// The bytes `%PDF-1.3\r\n`.
pub open spec fn pdf_header_line() -> Seq<u8> {
    seq![37u8, 80, 68, 70, 45, 49, 46, 51, 13, 10]
}

/// The bytes `\r\n`.
pub open spec fn crlf() -> Seq<u8> {
    seq![13u8, 10]
}

/// The end of the embedded PDF in the file `data`: just past the last
/// `endobj` (the end of the file if there is none), or just past the last
/// `%%EOF` when an `xref` and a `%%EOF` follow that `endobj`.
pub open spec fn embedded_pdf_end(data: Seq<u8>) -> int {
    let last_endobj = match rfind(data, endobj_marker()) {
        Some(p) => p + 6,
        None => data.len() as int,
    };
    let after = data.subrange(last_endobj, data.len() as int);
    if contains(after, xref_marker()) && contains(after, eof_marker()) {
        match rfind(data, eof_marker()) {
            Some(p) => p + 5,
            None => last_endobj,
        }
    } else {
        last_endobj
    }
}

/// The embedded PDF of a CAJ file whose PDF starts at `pdf_start`: the
/// raw bytes from there to [`embedded_pdf_end`]; or, when the start lies
/// past the end, the message of the error.
pub open spec fn embedded_pdf(data: Seq<u8>, pdf_start: int) -> Result<Seq<u8>, Seq<char>> {
    let end = embedded_pdf_end(data);
    if pdf_start > end {
        Err(
            "pdf_start (0x"@ + hex_lower(pdf_start as nat) + ") is past the last endobj (0x"@
                + hex_lower(end as nat) + ")"@,
        )
    } else {
        Ok(data.subrange(pdf_start, end))
    }
}

/// An embedded PDF made ready for a PDF reader: the bytes as they are
/// when they start with `%PDF-`, otherwise framed by a `%PDF-1.3\r\n`
/// header line and a closing `\r\n`.
pub open spec fn framed_pdf(body: Seq<u8>) -> Seq<u8> {
    if occurs_at(body, pdf_magic(), 0) {
        body
    } else {
        pdf_header_line() + body + crlf()
    }
}

/// A framed PDF always starts with `%PDF-`.
pub proof fn lemma_framed_pdf_has_header(body: Seq<u8>)
    ensures
        occurs_at(framed_pdf(body), pdf_magic(), 0),
{
    if !occurs_at(body, pdf_magic(), 0) {
        assert(framed_pdf(body).subrange(0, 5) =~= pdf_magic());
    }
}

/// Frame an embedded PDF for a PDF reader: see [`framed_pdf`].
pub fn frame_pdf(pdf_data: &[u8]) -> (r: Vec<u8>)
    ensures
        r@ == framed_pdf(pdf_data@),
{
    let magic: [u8; 5] = [37, 80, 68, 70, 45];
    proof {
        assert(magic@ =~= pdf_magic());
    }
    let already_has_header = starts_with(pdf_data, &magic);
    let mut out: Vec<u8> = Vec::new();
    if !already_has_header {
        out.push(37);
        out.push(80);
        out.push(68);
        out.push(70);
        out.push(45);
        out.push(49);
        out.push(46);
        out.push(51);
        out.push(13);
        out.push(10);
    }
    let ghost head = out@;
    let mut i: usize = 0;
    while i < pdf_data.len()
        invariant
            i <= pdf_data@.len(),
            out@ == head + pdf_data@.subrange(0, i as int),
        decreases pdf_data@.len() - i,
    {
        out.push(pdf_data[i]);
        proof {
            assert(pdf_data@.subrange(0, i + 1) =~= pdf_data@.subrange(0, i as int).push(
                pdf_data@[i as int],
            ));
        }
        i += 1;
    }
    proof {
        assert(pdf_data@.subrange(0, pdf_data@.len() as int) =~= pdf_data@);
    }
    if !already_has_header {
        out.push(13);
        out.push(10);
        proof {
            assert(head =~= pdf_header_line());
            assert(out@ =~= pdf_header_line() + pdf_data@ + crlf());
        }
    } else {
        proof {
            assert(out@ =~= pdf_data@);
        }
    }
    out
}

/// Extract the embedded PDF bytes from a CAJ file: the raw PDF as it sits
/// inside the container (no repair, no outline injection), from the
/// resolved PDF offset through the last `endobj`.
pub(crate) fn extract_pdf(doc: &CajDocument) -> (r: CajResult<Vec<u8>>)
    ensures
        match doc.layout {
            Layout::Caj { pdf_start_offset } => match embedded_pdf(
                doc.data@,
                pdf_start_offset as int,
            ) {
                Ok(b) => r matches Ok(v) && v@ == b,
                Err(m) => r matches Err(CajError::Malformed { format, message }) && format
                    == doc.format && message@ == m,
            },
            _ => r matches Err(CajError::Unsupported(m)) && m@
                == "extract_pdf called on a non-CAJ document"@,
        },
{
    let pdf_start = match doc.layout {
        Layout::Caj { pdf_start_offset } => pdf_start_offset,
        _ => {
            return Err(CajError::Unsupported("extract_pdf called on a non-CAJ document"));
        },
    };
    let bytes = doc.data.as_slice();
    let len = bytes.len();
    let endobj: [u8; 6] = [101, 110, 100, 111, 98, 106];
    let xref: [u8; 4] = [120, 114, 101, 102];
    let eof: [u8; 5] = [37, 37, 69, 79, 70];
    proof {
        assert(endobj@ =~= endobj_marker());
        assert(xref@ =~= xref_marker());
        assert(eof@ =~= eof_marker());
        crate::bytes::lemma_rfind_from(bytes@, endobj@, bytes@.len() - 6);
        crate::bytes::lemma_rfind_from(bytes@, eof@, bytes@.len() - 5);
    }
    let last_endobj = match rfind_bytes(bytes, &endobj) {
        Some(p) => p + 6,
        None => len,
    };
    let after = slice_subrange(bytes, last_endobj, len);
    let has_xref = contains_bytes(after, &xref);
    let has_eof = contains_bytes(after, &eof);
    let pdf_end = if has_xref && has_eof {
        match rfind_bytes(bytes, &eof) {
            Some(p) => p + 5,
            None => last_endobj,
        }
    } else {
        last_endobj
    };
    if pdf_start > pdf_end as u64 {
        let mut m = string_of("pdf_start (0x");
        push_numeral(&mut m, pdf_start, 16, false);
        push_str(&mut m, ") is past the last endobj (0x");
        push_numeral(&mut m, pdf_end as u64, 16, false);
        push_str(&mut m, ")");
        proof {
            reveal_strlit(")");
        }
        return Err(CajError::malformed(doc.format, m));
    }
    let pdf_data = slice_subrange(bytes, pdf_start as usize, pdf_end);
    Ok(vstd::slice::slice_to_vec(pdf_data))
}

} // verus!
