//! HN / C8 files: page count, outline and the per-page info table.

use vstd::prelude::*;
use crate::bindings::unexpected_eof;
use crate::bytes::{i16_at, i32_at, matches_at, occurs_at, read_i16, read_i32, read_u32, u32_at};
use crate::bindings::{zlib_inflate, zlib_inflated};
use crate::hn_page::{page_text, parse_page_text};
use crate::text::{decimal, hex_lower, push_numeral, push_signed, push_str, signed_decimal, string_of};
use crate::types::{ImageKind, Page, PageView, RawImage, RawImageView};
use vstd::slice::{slice_subrange, slice_to_vec};
use crate::document::{
    toc_entries, read_toc, CajDocument, CajDocumentView, Layout, ReadFailure, TOC_ENTRY_SIZE,
    failure_error,
};
use crate::types::{CajError, CajResult, FileFormat, OutlineEntryView};

verus! {

broadcast use crate::document::lemma_document_view;

/// Size of one entry of the page-info table.
pub const PAGE_INFO_ENTRY_SIZE: usize = 20;

/// Page count, outline and layout of an HN or C8 file:
///
/// * C8: page count (`u32`) at 0x08, no outline, page-info table at 0x50;
/// * HN without outline: page count at 0x90, page-info table at 0xD8;
/// * HN with outline: page count at 0x90, outline count (`u32`) at 0x158,
///   the entries from 0x15C, and the page-info table right after them.
pub open spec fn hn_meta(data: Seq<u8>, c8: bool, with_toc: bool) -> Result<
    (u32, Seq<OutlineEntryView>, Layout),
    ReadFailure,
> {
    let n = u32_at(data, 0x158);
    if c8 {
        if data.len() < 0x0C {
            Err(ReadFailure::Eof)
        } else {
            Ok((u32_at(data, 0x08), Seq::empty(), Layout::C8 { page_info_table_offset: 0x50 }))
        }
    } else if data.len() < 0x94 {
        Err(ReadFailure::Eof)
    } else if !with_toc {
        Ok(
            (
                u32_at(data, 0x90),
                Seq::empty(),
                Layout::Hn { page_info_table_offset: 0xD8, with_toc: false },
            ),
        )
    } else if data.len() < 0x15C {
        Err(ReadFailure::Eof)
    } else if 0x15C + n * TOC_ENTRY_SIZE > data.len() {
        Err(ReadFailure::Eof)
    } else {
        Ok(
            (
                u32_at(data, 0x90),
                toc_entries(data, 0x15C, n as nat),
                Layout::Hn {
                    page_info_table_offset: (0x15C + n * TOC_ENTRY_SIZE) as u64,
                    with_toc: true,
                },
            ),
        )
    }
}

/// Read the page count and (for HN with an outline) the table of contents
/// of an HN or C8 file, then patch the document's layout with the offset
/// of the page-info table.
pub(crate) fn read_meta(doc: &mut CajDocument) -> (r: CajResult<()>)
    requires
        old(doc).toc@.len() == 0,
    ensures
        final(doc).path == old(doc).path,
        match hn_meta(
            old(doc).data@,
            old(doc).layout is C8,
            old(doc).layout matches Layout::Hn { with_toc, .. } && with_toc,
        ) {
            Ok(m) => r is Ok && final(doc)@ == (CajDocumentView {
                page_count: m.0,
                toc: m.1,
                layout: m.2,
                ..old(doc)@
            }),
            Err(f) => r matches Err(e) && failure_error(f, old(doc).format, e),
        },
{
    let len = doc.data.len();
    let with_toc = match doc.layout {
        Layout::Hn { with_toc, .. } => with_toc,
        _ => false,
    };
    let c8 = match doc.layout {
        Layout::C8 { .. } => true,
        _ => false,
    };
    if c8 {
        if len < 0x0C {
            return Err(CajError::Io(unexpected_eof()));
        }
        doc.page_count = read_u32(doc.data.as_slice(), 0x08);
        doc.layout = Layout::C8 { page_info_table_offset: 0x50 };
        proof {
            assert(crate::types::outline_views(doc.toc@) =~= Seq::<OutlineEntryView>::empty());
        }
        return Ok(());
    }
    if len < 0x94 {
        return Err(CajError::Io(unexpected_eof()));
    }
    doc.page_count = read_u32(doc.data.as_slice(), 0x90);
    if !with_toc {
        doc.layout = Layout::Hn { page_info_table_offset: 0xD8, with_toc: false };
        proof {
            assert(crate::types::outline_views(doc.toc@) =~= Seq::<OutlineEntryView>::empty());
        }
        return Ok(());
    }
    if len < 0x15C {
        return Err(CajError::Io(unexpected_eof()));
    }
    let toc_count = read_u32(doc.data.as_slice(), 0x158);
    let toc = match read_toc(doc.data.as_slice(), 0x15C, toc_count as u64) {
        Some(t) => t,
        None => {
            return Err(CajError::Io(unexpected_eof()));
        },
    };
    doc.toc = toc;
    let toc_end_offset = 0x15C + (toc_count as u64) * (TOC_ENTRY_SIZE as u64);
    doc.layout = Layout::Hn { page_info_table_offset: toc_end_offset, with_toc: true };
    Ok(())
}

/// The bytes `COMPRESSTEXT` that mark a compressed text section.
pub open spec fn compress_magic() -> Seq<u8> {
    seq![67u8, 79, 77, 80, 82, 69, 83, 83, 84, 69, 88, 84]
}

/// A 32-bit offset as `i32 as u64` gives it (negative ones wrap).
pub open spec fn offset_u64(v: i32) -> int {
    if v < 0 {
        v + 0x1_0000_0000_0000_0000
    } else {
        v as int
    }
}

/// `"page N"`, the start of the messages about page `n`.
pub open spec fn page_label(n: int) -> Seq<char> {
    "page "@ + decimal(n as nat)
}

/// The image block whose 12-byte header is at `cur` on page `page_no`
/// (counted from 1): the image type, the offset of the data (which must
/// be the byte right after the header) and the size of the data; width
/// and height are read from bytes 4..12 of the data when it has at least
/// 16 bytes. The image and the offset after it.
pub open spec fn image_at(data: Seq<u8>, cur: int, page_no: int) -> Result<
    (RawImageView, int),
    ReadFailure,
> {
    let t = i32_at(data, cur);
    let o = offset_u64(i32_at(data, cur + 4));
    let sz = i32_at(data, cur + 8);
    if cur + 12 > data.len() {
        Err(ReadFailure::Eof)
    } else if o != cur + 12 {
        Err(
            ReadFailure::Malformed(
                page_label(page_no) + " unusual image offset: header says 0x"@ + hex_lower(o as nat)
                    + ", expected 0x"@ + hex_lower((cur + 12) as nat),
            ),
        )
    } else if sz < 0 || cur + 12 + sz > data.len() {
        Err(ReadFailure::Eof)
    } else {
        let bytes = data.subrange(cur + 12, cur + 12 + sz);
        let w: u32 = if sz >= 16 {
            u32_at(bytes, 4)
        } else {
            0
        };
        let h: u32 = if sz >= 16 {
            u32_at(bytes, 8)
        } else {
            0
        };
        let next = cur + 12 + sz;
        if t == 0 {
            Ok((RawImageView { kind: ImageKind::Jbig1, data: bytes, width_px: w, height_px: h }, next))
        } else if t == 1 || t == 2 {
            Ok(
                (
                    RawImageView {
                        kind: ImageKind::Jpeg { upside_down: t == 2 },
                        data: bytes,
                        width_px: w,
                        height_px: h,
                    },
                    next,
                ),
            )
        } else if t == 3 {
            Ok((RawImageView { kind: ImageKind::Jbig2, data: bytes, width_px: w, height_px: h }, next))
        } else {
            Err(
                ReadFailure::Malformed(
                    page_label(page_no) + " unknown image type "@ + signed_decimal(t as int),
                ),
            )
        }
    }
}

/// `k` image blocks one after another from `cur`.
pub open spec fn images_from(data: Seq<u8>, cur: int, k: nat, page_no: int) -> Result<
    Seq<RawImageView>,
    ReadFailure,
>
    decreases k,
{
    if k == 0 {
        Ok(Seq::empty())
    } else {
        match image_at(data, cur, page_no) {
            Err(f) => Err(f),
            Ok(p) => match images_from(data, p.1, (k - 1) as nat, page_no) {
                Err(f) => Err(f),
                Ok(rest) => Ok(seq![p.0] + rest),
            },
        }
    }
}

/// The text section of page `i` (counted from 0), `size` bytes at `pdo`:
/// zlib-compressed after a 16-byte header when it starts with
/// `COMPRESSTEXT` (or 8 bytes later when that is where the word is), the
/// expanded size in the header; raw bytes otherwise.
pub open spec fn text_section(data: Seq<u8>, pdo: int, size: int, i: int) -> Result<
    Seq<u8>,
    ReadFailure,
> {
    let c0 = occurs_at(data, compress_magic(), pdo);
    let c8 = occurs_at(data, compress_magic(), pdo + 8);
    let coff = if c0 {
        0int
    } else {
        8int
    };
    let expected = i32_at(data, pdo + 12 + coff);
    if c0 || c8 {
        if size < 16 + coff || pdo + size > data.len() {
            Err(ReadFailure::Eof)
        } else {
            match zlib_inflated(data.subrange(pdo + 16 + coff, pdo + size)) {
                Err(m) => Err(ReadFailure::Zlib(m)),
                Ok(out) => if out.len() != expected {
                    Err(
                        ReadFailure::Malformed(
                            page_label(i + 1) + " text size mismatch: got "@ + decimal(out.len())
                                + " expected "@ + decimal((expected as usize) as nat),
                        ),
                    )
                } else {
                    Ok(out)
                },
            }
        }
    } else if size < 0 || pdo + size > data.len() {
        Err(ReadFailure::Eof)
    } else {
        Ok(data.subrange(pdo, pdo + size))
    }
}

/// Page `i` (counted from 0) of the page-info table at `table`: the
/// 20-byte entry gives the offset of the page data, the size of its text
/// section, the number of image blocks (a negative one meaning none) and
/// the offset of the next page's data, which selects the record shapes of
/// the text. The 32 bytes at the page data are read in any case. The text
/// is parsed only when `parse_text` is set.
pub open spec fn page_at(data: Seq<u8>, table: int, i: int, parse_text: bool) -> Result<
    PageView,
    ReadFailure,
> {
    let info = table + 20 * i;
    let pdo = i32_at(data, info);
    let size = i32_at(data, info + 4);
    let nimg = i16_at(data, info + 8);
    let next = i32_at(data, info + 16);
    if info + 20 > data.len() {
        Err(ReadFailure::Eof)
    } else if pdo < 0 || pdo + 32 > data.len() {
        Err(ReadFailure::Eof)
    } else {
        match text_section(data, pdo as int, size as int, i) {
            Err(f) => Err(f),
            Ok(bytes) => {
                let old_style = next < 0 || next > pdo;
                let text = if parse_text {
                    page_text(bytes, old_style)
                } else {
                    Seq::empty()
                };
                let k: nat = if nimg < 0 {
                    0
                } else {
                    nimg as nat
                };
                match images_from(data, pdo + size, k, i + 1) {
                    Err(f) => Err(f),
                    Ok(images) => Ok(PageView { text, images }),
                }
            },
        }
    }
}

/// Reading the text section does not depend on the page number, which
/// only names the page in an error: both succeed or fail together, with
/// the same bytes.
proof fn lemma_text_section_any_page(data: Seq<u8>, pdo: int, size: int, i: int, j: int)
    ensures
        text_section(data, pdo, size, i) is Ok <==> text_section(data, pdo, size, j) is Ok,
        text_section(data, pdo, size, i) is Ok ==> text_section(data, pdo, size, i)
            == text_section(data, pdo, size, j),
{
}

/// Reading image blocks does not depend on the page number either.
proof fn lemma_images_any_page(data: Seq<u8>, cur: int, k: nat, p: int, q: int)
    ensures
        images_from(data, cur, k, p) is Ok <==> images_from(data, cur, k, q) is Ok,
        images_from(data, cur, k, p) is Ok ==> images_from(data, cur, k, p) == images_from(
            data,
            cur,
            k,
            q,
        ),
    decreases k,
{
    if k > 0 {
        match image_at(data, cur, p) {
            Ok(x) => {
                assert(image_at(data, cur, q) == image_at(data, cur, p));
                lemma_images_any_page(data, x.1, (k - 1) as nat, p, q);
            },
            Err(_) => {
                assert(image_at(data, cur, q) is Err);
            },
        }
    }
}

/// Page `i` is described by the `i`-th 20-byte entry of the page-info
/// table: what is read as page `i` of the table at `table` is what is
/// read as the first page of a table that starts `20 * i` bytes later
/// (the page number only names the page in an error).
pub proof fn lemma_page_entry_is_twenty_bytes(data: Seq<u8>, table: int, i: int, parse_text: bool)
    ensures
        page_at(data, table, i, parse_text) is Ok <==> page_at(data, table + 20 * i, 0, parse_text)
            is Ok,
        page_at(data, table, i, parse_text) is Ok ==> page_at(data, table, i, parse_text) == page_at(
            data,
            table + 20 * i,
            0,
            parse_text,
        ),
{
    let entry = table + 20 * i;
    let pdo = i32_at(data, entry);
    let size = i32_at(data, entry + 4);
    let nimg = i16_at(data, entry + 8);
    let k: nat = if nimg < 0 {
        0
    } else {
        nimg as nat
    };
    assert(table + 20 * i + 20 * 0 == entry);
    lemma_text_section_any_page(data, pdo as int, size as int, i, 0);
    lemma_images_any_page(data, pdo + size, k, i + 1, 1);
}

/// Pages `i..n` of the page-info table at `table`, stopping at the first
/// that cannot be read.
pub open spec fn pages_from(data: Seq<u8>, table: int, i: int, n: int, parse_text: bool) -> Result<
    Seq<PageView>,
    ReadFailure,
>
    decreases n - i,
{
    if i >= n {
        Ok(Seq::empty())
    } else {
        match page_at(data, table, i, parse_text) {
            Err(f) => Err(f),
            Ok(p) => match pages_from(data, table, i + 1, n, parse_text) {
                Err(f) => Err(f),
                Ok(rest) => Ok(seq![p] + rest),
            },
        }
    }
}

/// When pages `i..n` can all be read, the `j`-th of them is page `i + j`
/// of the table, read on its own.
pub proof fn lemma_pages_in_order(data: Seq<u8>, table: int, i: int, n: int, parse_text: bool)
    ensures
        pages_from(data, table, i, n, parse_text) matches Ok(ps) ==> ps.len() == (if n > i {
            n - i
        } else {
            0
        }) && forall|j: int|
            0 <= j < ps.len() ==> page_at(data, table, i + j, parse_text) == Ok::<
                PageView,
                ReadFailure,
            >(#[trigger] ps[j]),
    decreases n - i,
{
    if i < n {
        lemma_pages_in_order(data, table, i + 1, n, parse_text);
        match pages_from(data, table, i, n, parse_text) {
            Ok(ps) => {
                let p = page_at(data, table, i, parse_text)->Ok_0;
                let rest = pages_from(data, table, i + 1, n, parse_text)->Ok_0;
                assert(ps == seq![p] + rest);
                assert forall|j: int| 0 <= j < ps.len() implies page_at(data, table, i + j, parse_text)
                    == Ok::<PageView, ReadFailure>(#[trigger] ps[j]) by {
                    if j > 0 {
                        assert(ps[j] == rest[j - 1]);
                        assert(i + 1 + (j - 1) == i + j);
                    }
                }
            },
            Err(_) => {},
        }
    }
}

/// `pages` followed by what `r` holds, or the failure of `r`.
pub open spec fn after_pages(pages: Seq<PageView>, r: Result<Seq<PageView>, ReadFailure>) -> Result<
    Seq<PageView>,
    ReadFailure,
> {
    match r {
        Ok(rest) => Ok(pages + rest),
        Err(f) => Err(f),
    }
}

/// `images` followed by what `r` holds, or the failure of `r`.
pub open spec fn after_images(
    images: Seq<RawImageView>,
    r: Result<Seq<RawImageView>, ReadFailure>,
) -> Result<Seq<RawImageView>, ReadFailure> {
    match r {
        Ok(rest) => Ok(images + rest),
        Err(f) => Err(f),
    }
}

/// The views of a sequence of raw images.
pub open spec fn raw_views(s: Seq<RawImage>) -> Seq<RawImageView> {
    s.map_values(|r: RawImage| r@)
}

/// The views of a sequence of pages.
pub open spec fn page_views(s: Seq<Page>) -> Seq<PageView> {
    s.map_values(|p: Page| p@)
}

/// A 32-bit offset as `i32 as u64` gives it.
fn offset_of(v: i32) -> (r: u64)
    ensures
        r == offset_u64(v),
{
    if v < 0 {
        u64::MAX - ((-(v as i64) - 1) as u64)
    } else {
        v as u64
    }
}

/// Read the image block whose header is at `cur` on page `page_no`.
fn read_image(data: &[u8], cur: u64, page_no: u64, format: FileFormat) -> (r: Result<
    (RawImage, u64),
    CajError,
>)
    requires
        cur <= data@.len(),
        page_no <= 0x1_0000_0000,
    ensures
        match image_at(data@, cur as int, page_no as int) {
            Ok(p) => r matches Ok(q) && q.0@ == p.0 && q.1 == p.1,
            Err(f) => r matches Err(e) && failure_error(f, format, e),
        },
{
    let len = data.len() as u64;
    if len < 12 || cur > len - 12 {
        return Err(CajError::Io(unexpected_eof()));
    }
    let c = cur as usize;
    let image_type_enum = read_i32(data, c);
    let offset_to_image_data = offset_of(read_i32(data, c + 4));
    let size_of_image_data = read_i32(data, c + 8);
    if offset_to_image_data != cur + 12 {
        let mut m = string_of("page ");
        push_numeral(&mut m, page_no, 10, false);
        push_str(&mut m, " unusual image offset: header says 0x");
        push_numeral(&mut m, offset_to_image_data, 16, false);
        push_str(&mut m, ", expected 0x");
        push_numeral(&mut m, cur + 12, 16, false);
        proof {
            reveal_strlit("page ");
            assert(m@ =~= page_label(page_no as int) + " unusual image offset: header says 0x"@
                + hex_lower(offset_to_image_data as nat) + ", expected 0x"@ + hex_lower(
                (cur + 12) as nat,
            ));
        }
        return Err(CajError::malformed(format, m));
    }
    if size_of_image_data < 0 || (size_of_image_data as u64) > len - (cur + 12) {
        return Err(CajError::Io(unexpected_eof()));
    }
    let start = c + 12;
    let end = start + size_of_image_data as usize;
    let bytes = slice_to_vec(slice_subrange(data, start, end));
    let (width, height) = if bytes.len() >= 16 {
        (read_u32(bytes.as_slice(), 4), read_u32(bytes.as_slice(), 8))
    } else {
        (0, 0)
    };
    let kind = if image_type_enum == 0 {
        ImageKind::Jbig1
    } else if image_type_enum == 1 || image_type_enum == 2 {
        ImageKind::Jpeg { upside_down: image_type_enum == 2 }
    } else if image_type_enum == 3 {
        ImageKind::Jbig2
    } else {
        let mut m = string_of("page ");
        push_numeral(&mut m, page_no, 10, false);
        push_str(&mut m, " unknown image type ");
        push_signed(&mut m, image_type_enum as i64);
        proof {
            reveal_strlit("page ");
            assert(m@ =~= page_label(page_no as int) + " unknown image type "@ + signed_decimal(
                image_type_enum as int,
            ));
        }
        return Err(CajError::malformed(format, m));
    };
    Ok((RawImage { kind, data: bytes, width_px: width, height_px: height }, end as u64))
}

/// The bytes of the text section of page `i` (counted from 0): `size`
/// bytes at `pdo`, inflated when compressed.
fn read_text_section(data: &[u8], pdo: u64, size: i32, i: u32, format: FileFormat) -> (r: Result<
    Vec<u8>,
    CajError,
>)
    requires
        pdo + 32 <= data@.len(),
    ensures
        match text_section(data@, pdo as int, size as int, i as int) {
            Ok(b) => r matches Ok(v) && v@ == b,
            Err(f) => r matches Err(e) && failure_error(f, format, e),
        },
{
    let len = data.len() as u64;
    let p = pdo as usize;
    let magic: [u8; 12] = [67, 79, 77, 80, 82, 69, 83, 83, 84, 69, 88, 84];
    proof {
        assert(magic@ =~= compress_magic());
    }
    let c0 = matches_at(data, &magic, p);
    let c8 = matches_at(data, &magic, p + 8);
    if c0 || c8 {
        let coff: usize = if c0 {
            0
        } else {
            8
        };
        let expanded_text_size = read_i32(data, p + 12 + coff);
        if size < 16 + coff as i32 || (size as u64) > len - pdo {
            return Err(CajError::Io(unexpected_eof()));
        }
        let compressed = slice_subrange(data, p + 16 + coff, p + size as usize);
        match zlib_inflate(compressed) {
            Err(m) => Err(CajError::Zlib(m)),
            Ok(out) => {
                if expanded_text_size < 0 || out.len() as u64 != expanded_text_size as u64 {
                    let mut m = string_of("page ");
                    push_numeral(&mut m, i as u64 + 1, 10, false);
                    push_str(&mut m, " text size mismatch: got ");
                    push_numeral(&mut m, out.len() as u64, 10, false);
                    push_str(&mut m, " expected ");
                    let shown = expanded_text_size as usize;
                    push_numeral(&mut m, shown as u64, 10, false);
                    proof {
                        reveal_strlit("page ");
                        assert(m@ =~= page_label(i + 1) + " text size mismatch: got "@ + decimal(
                            out@.len(),
                        ) + " expected "@ + decimal((expanded_text_size as usize) as nat));
                    }
                    Err(CajError::malformed(format, m))
                } else {
                    Ok(out)
                }
            },
        }
    } else {
        if size < 0 || (size as u64) > len - pdo {
            return Err(CajError::Io(unexpected_eof()));
        }
        Ok(slice_to_vec(slice_subrange(data, p, p + size as usize)))
    }
}

/// Read `count` image blocks one after another from `cur` on page
/// `page_no`.
fn read_images(data: &[u8], start: u64, count: u64, page_no: u64, format: FileFormat) -> (r: Result<
    Vec<RawImage>,
    CajError,
>)
    requires
        start <= data@.len(),
        page_no <= 0x1_0000_0000,
    ensures
        match images_from(data@, start as int, count as nat, page_no as int) {
            Ok(v) => r matches Ok(w) && raw_views(w@) == v,
            Err(f) => r matches Err(e) && failure_error(f, format, e),
        },
{
    let ghost goal = images_from(data@, start as int, count as nat, page_no as int);
    let mut images: Vec<RawImage> = Vec::new();
    let mut cur = start;
    let mut k: u64 = 0;
    proof {
        assert(raw_views(images@) =~= Seq::<RawImageView>::empty());
        assert(after_images(raw_views(images@), goal) == goal) by {
            match goal {
                Ok(v) => {
                    assert(Seq::<RawImageView>::empty() + v =~= v);
                },
                Err(_) => {},
            }
        }
    }
    while k < count
        invariant
            k <= count,
            cur <= data@.len(),
            page_no <= 0x1_0000_0000,
            goal == images_from(data@, start as int, count as nat, page_no as int),
            goal == after_images(
                raw_views(images@),
                images_from(data@, cur as int, (count - k) as nat, page_no as int),
            ),
        decreases count - k,
    {
        match read_image(data, cur, page_no, format) {
            Ok((img, next)) => {
                let ghost before = raw_views(images@);
                let ghost rest = images_from(data@, next as int, (count - k - 1) as nat, page_no as int);
                images.push(img);
                proof {
                    assert(raw_views(images@) =~= before.push(img@));
                    match rest {
                        Ok(v) => {
                            assert(before + (seq![img@] + v) =~= before.push(img@) + v);
                        },
                        Err(_) => {},
                    }
                }
                cur = next;
            },
            Err(e) => {
                proof {
                    let f = image_at(data@, cur as int, page_no as int)->Err_0;
                    assert(images_from(data@, cur as int, (count - k) as nat, page_no as int)
                        == Err::<Seq<RawImageView>, ReadFailure>(f));
                    assert(goal == Err::<Seq<RawImageView>, ReadFailure>(f));
                }
                return Err(e);
            },
        }
        k += 1;
    }
    proof {
        assert(raw_views(images@) + Seq::<RawImageView>::empty() =~= raw_views(images@));
    }
    Ok(images)
}

/// Read page `i` (counted from 0) of the page-info table at `table`.
fn read_page(data: &[u8], table: u64, i: u32, parse_text: bool, format: FileFormat) -> (r: Result<
    Page,
    CajError,
>)
    ensures
        match page_at(data@, table as int, i as int, parse_text) {
            Ok(p) => r matches Ok(q) && q@ == p,
            Err(f) => r matches Err(e) && failure_error(f, format, e),
        },
{
    let len = data.len() as u64;
    if len < 20 || table > len - 20 || (i as u64) > (len - 20 - table) / 20 {
        return Err(CajError::Io(unexpected_eof()));
    }
    let info = (table + 20 * (i as u64)) as usize;
    let page_data_offset = read_i32(data, info);
    let size_of_text_section = read_i32(data, info + 4);
    let images_per_page = read_i16(data, info + 8);
    let next_page_data_offset = read_i32(data, info + 16);
    if page_data_offset < 0 || len < 32 || page_data_offset as u64 > len - 32 {
        return Err(CajError::Io(unexpected_eof()));
    }
    let pdo = page_data_offset as u64;
    let bytes = match read_text_section(data, pdo, size_of_text_section, i, format) {
        Ok(b) => b,
        Err(e) => {
            return Err(e);
        },
    };
    let old_style = next_page_data_offset < 0 || next_page_data_offset > page_data_offset;
    let text = if parse_text {
        parse_page_text(bytes.as_slice(), old_style)
    } else {
        String::new()
    };
    let count: u64 = if images_per_page < 0 {
        0
    } else {
        images_per_page as u64
    };
    let images = match read_images(data, pdo + size_of_text_section as u64, count, i as u64 + 1, format) {
        Ok(v) => v,
        Err(e) => {
            return Err(e);
        },
    };
    Ok(Page { text, images })
}

/// The result of reading pages: the pages when `expected` holds some, the
/// error of its failure otherwise.
pub open spec fn pages_result(
    r: CajResult<Vec<Page>>,
    expected: Result<Seq<PageView>, ReadFailure>,
    format: FileFormat,
) -> bool {
    match expected {
        Ok(ps) => r matches Ok(v) && page_views(v@) == ps,
        Err(f) => r matches Err(e) && failure_error(f, format, e),
    }
}

/// Read every page of the page-info table at `page_info_table_offset`;
/// the text is parsed only when `parse_toc` is set (HN, not C8).
fn iter_pages_inner(doc: &CajDocument, page_info_table_offset: u64, parse_toc: bool) -> (r: CajResult<
    Vec<Page>,
>)
    ensures
        pages_result(
            r,
            pages_from(
                doc.data@,
                page_info_table_offset as int,
                0,
                doc.page_count as int,
                parse_toc,
            ),
            doc.format,
        ),
{
    let ghost goal = pages_from(
        doc.data@,
        page_info_table_offset as int,
        0,
        doc.page_count as int,
        parse_toc,
    );
    let mut pages: Vec<Page> = Vec::new();
    let mut i: u32 = 0;
    proof {
        assert(page_views(pages@) =~= Seq::<PageView>::empty());
        assert(after_pages(page_views(pages@), goal) == goal) by {
            match goal {
                Ok(v) => {
                    assert(Seq::<PageView>::empty() + v =~= v);
                },
                Err(_) => {},
            }
        }
    }
    while i < doc.page_count
        invariant
            i <= doc.page_count,
            goal == pages_from(
                doc.data@,
                page_info_table_offset as int,
                0,
                doc.page_count as int,
                parse_toc,
            ),
            goal == after_pages(
                page_views(pages@),
                pages_from(
                    doc.data@,
                    page_info_table_offset as int,
                    i as int,
                    doc.page_count as int,
                    parse_toc,
                ),
            ),
        decreases doc.page_count - i,
    {
        match read_page(doc.data.as_slice(), page_info_table_offset, i, parse_toc, doc.format) {
            Ok(p) => {
                let ghost before = page_views(pages@);
                let ghost rest = pages_from(
                    doc.data@,
                    page_info_table_offset as int,
                    i + 1,
                    doc.page_count as int,
                    parse_toc,
                );
                pages.push(p);
                proof {
                    assert(page_views(pages@) =~= before.push(p@));
                    match rest {
                        Ok(v) => {
                            assert(before + (seq![p@] + v) =~= before.push(p@) + v);
                        },
                        Err(_) => {},
                    }
                }
            },
            Err(e) => {
                return Err(e);
            },
        }
        i += 1;
    }
    proof {
        assert(page_views(pages@) + Seq::<PageView>::empty() =~= page_views(pages@));
    }
    Ok(pages)
}

/// The pages of a document: for an HN layout the pages of its page-info
/// table with their text, for a C8 layout without text, and for any other
/// layout a failure.
pub open spec fn hn_pages(doc: CajDocumentView) -> Result<Seq<PageView>, ReadFailure> {
    match doc.layout {
        Layout::Hn { page_info_table_offset: t, .. } => pages_from(
            doc.data,
            t as int,
            0,
            doc.page_count as int,
            true,
        ),
        Layout::C8 { page_info_table_offset: t } => pages_from(
            doc.data,
            t as int,
            0,
            doc.page_count as int,
            false,
        ),
        _ => Err(ReadFailure::Malformed("iter_pages called on a non-HN/C8 document"@)),
    }
}

/// Iterate the per-page info table of an HN or C8 file, yielding a
/// [`Page`] for each entry. Image blocks are kept as [`RawImage`] ready
/// for decoding.
pub fn iter_pages(doc: &CajDocument) -> (r: CajResult<Vec<Page>>)
    ensures
        pages_result(r, hn_pages(doc@), doc@.format),
{
    match doc.layout {
        Layout::Hn { page_info_table_offset, .. } => iter_pages_inner(
            doc,
            page_info_table_offset,
            true,
        ),
        Layout::C8 { page_info_table_offset } => iter_pages_inner(
            doc,
            page_info_table_offset,
            false,
        ),
        _ => Err(
            CajError::Malformed {
                format: doc.format,
                message: string_of("iter_pages called on a non-HN/C8 document"),
            },
        ),
    }
}

} // verus!
