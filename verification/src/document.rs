//! An opened CAJ-family document: its format, page count, outline and the
//! offsets that locate its page data.

use vstd::prelude::*;
use vstd::slice::slice_subrange;
use crate::bindings::{gbk_decode, gbk_decoded};
use crate::types::{outline_views, CajError, CajResult, FileFormat, OutlineEntry, OutlineEntryView};
use crate::bindings::unexpected_eof;
use crate::format::{detect_format, detected_format};

verus! {

/// Length of one outline entry on disk.
pub const TOC_ENTRY_SIZE: usize = 0x134;

/// The number of bytes of `s` from `i` on before the first NUL, counted
/// from the start of `s` (the length of `s` when there is none).
pub open spec fn first_nul(s: Seq<u8>, i: int) -> int
    decreases s.len() - i,
{
    if i >= s.len() {
        s.len() as int
    } else if s[i] == 0 {
        i
    } else {
        first_nul(s, i + 1)
    }
}

/// The length of the NUL-terminated text at `start` in a field of `n`
/// bytes.
fn nul_end(data: &[u8], start: usize, n: usize) -> (r: usize)
    requires
        start + n <= data@.len(),
    ensures
        r == first_nul(data@.subrange(start as int, start + n), 0),
        r <= n,
{
    let ghost s = data@.subrange(start as int, start + n);
    let len = data.len();
    let mut i: usize = 0;
    while i < n && data[start + i] != 0
        invariant
            len == data@.len(),
            i <= n,
            start + n <= data@.len(),
            s == data@.subrange(start as int, start + n),
            first_nul(s, 0) == first_nul(s, i as int),
        decreases n - i,
    {
        i += 1;
    }
    i
}

/// The value of a sequence of ASCII decimal digits.
pub open spec fn digits_value(s: Seq<u8>) -> nat
    decreases s.len(),
{
    if s.len() == 0 {
        0
    } else {
        digits_value(s.drop_last()) * 10 + (s.last() - 48) as nat
    }
}

/// An ASCII decimal digit.
pub open spec fn is_digit(b: u8) -> bool {
    48 <= b <= 57
}

/// The bytes after an optional leading `+`.
pub open spec fn unsigned_part(s: Seq<u8>) -> Seq<u8> {
    if s.len() > 0 && s[0] == 43 {
        s.drop_first()
    } else {
        s
    }
}

/// Every byte is an ASCII decimal digit.
pub open spec fn all_digits(t: Seq<u8>) -> bool {
    forall|i: int| 0 <= i < t.len() ==> #[trigger] is_digit(t[i])
}

/// The page number of an outline entry, as `str::parse::<u32>` reads the
/// bytes (an optional `+`, then one or more decimal digits, no overflow),
/// and 0 for anything that does not parse.
pub open spec fn page_number(s: Seq<u8>) -> u32 {
    let t = unsigned_part(s);
    if t.len() > 0 && all_digits(t) && digits_value(t) <= u32::MAX {
        digits_value(t) as u32
    } else {
        0
    }
}

/// Parse the page number of an outline entry.
fn parse_page_number(s: &[u8]) -> (r: u32)
    ensures
        r == page_number(s@),
{
    let n = s.len();
    let start: usize = if n > 0 && s[0] == 43 {
        1
    } else {
        0
    };
    let ghost t = s@.subrange(start as int, n as int);
    proof {
        assert(t =~= unsigned_part(s@));
    }
    if start == n {
        return 0;
    }
    let mut v: u64 = 0;
    let mut i: usize = start;
    while i < n
        invariant
            start <= i <= n,
            n == s@.len(),
            t == s@.subrange(start as int, n as int),
            t == unsigned_part(s@),
            forall|k: int| 0 <= k < i - start ==> #[trigger] is_digit(t[k]),
            v == if digits_value(t.subrange(0, i - start)) > u32::MAX {
                0x1_0000_0000
            } else {
                digits_value(t.subrange(0, i - start))
            },
        decreases n - i,
    {
        let b = s[i];
        if b < 48 || b > 57 {
            assert(t[i - start] == b);
            assert(!is_digit(t[i - start]));
            assert(!all_digits(t));
            return 0;
        }
        proof {
            assert(t.subrange(0, i + 1 - start).drop_last() =~= t.subrange(0, i - start));
        }
        if v <= u32::MAX as u64 {
            v = v * 10 + (b - 48) as u64;
            if v > u32::MAX as u64 {
                v = 0x1_0000_0000;
            }
        }
        i += 1;
    }
    proof {
        assert(t.subrange(0, n - start) =~= t);
    }
    if v > u32::MAX as u64 {
        0
    } else {
        v as u32
    }
}

/// The outline entry held by the 308 bytes `e`: a GBK title up to the
/// first NUL of its 256 bytes, the page number at 0x118 up to the first
/// NUL of its 12 bytes, and the low byte of the level at 0x130.
pub open spec fn toc_entry(e: Seq<u8>) -> OutlineEntryView {
    OutlineEntryView {
        title: gbk_decoded(e.subrange(0, first_nul(e.subrange(0, 0x100), 0))).0,
        page: page_number(e.subrange(0x118, 0x118 + first_nul(e.subrange(0x118, 0x124), 0))),
        level: e[0x130],
    }
}

/// The `count` outline entries stored one after another from `start`.
pub open spec fn toc_entries(data: Seq<u8>, start: int, count: nat) -> Seq<OutlineEntryView> {
    Seq::new(
        count,
        |i: int|
            toc_entry(
                data.subrange(start + i * TOC_ENTRY_SIZE, start + i * TOC_ENTRY_SIZE + TOC_ENTRY_SIZE),
            ),
    )
}

/// Read the outline entry stored at `off`.
fn read_toc_entry(data: &[u8], off: usize) -> (r: OutlineEntry)
    requires
        off + TOC_ENTRY_SIZE <= data@.len(),
    ensures
        r@ == toc_entry(data@.subrange(off as int, off + TOC_ENTRY_SIZE)),
{
    let ghost e = data@.subrange(off as int, off + TOC_ENTRY_SIZE);
    let len = data.len();
    let ttl_end = nul_end(data, off, 0x100);
    proof {
        assert(data@.subrange(off as int, off + 0x100) =~= e.subrange(0, 0x100));
    }
    let (title, _) = gbk_decode(slice_subrange(data, off, off + ttl_end));
    proof {
        assert(data@.subrange(off as int, off + ttl_end) =~= e.subrange(0, ttl_end as int));
    }
    let pg_end = nul_end(data, off + 0x118, 12);
    proof {
        assert(data@.subrange(off + 0x118, off + 0x118 + 12) =~= e.subrange(0x118, 0x124));
    }
    let page = parse_page_number(slice_subrange(data, off + 0x118, off + 0x118 + pg_end));
    proof {
        assert(data@.subrange(off + 0x118, off + 0x118 + pg_end) =~= e.subrange(
            0x118,
            0x118 + pg_end,
        ));
    }
    let level = data[off + 0x130];
    OutlineEntry { title, page, level }
}

/// Read `count` outline entries stored one after another from `start`;
/// `None` when the data ends before the last of them.
pub(crate) fn read_toc(data: &[u8], start: u64, count: u64) -> (r: Option<Vec<OutlineEntry>>)
    requires
        start <= 0x1_0000_0000,
        count <= 0x1_0000_0000,
    ensures
        start + count * TOC_ENTRY_SIZE > data@.len() ==> r is None,
        start + count * TOC_ENTRY_SIZE <= data@.len() ==> (r matches Some(v) && outline_views(v@)
            == toc_entries(data@, start as int, count as nat)),
{
    let ulen = data.len();
    let len = ulen as u64;
    if start + count * (TOC_ENTRY_SIZE as u64) > len {
        return None;
    }
    let mut toc: Vec<OutlineEntry> = Vec::new();
    let mut i: u64 = 0;
    while i < count
        invariant
            i <= count,
            start + count * TOC_ENTRY_SIZE <= data@.len(),
            len == data@.len(),
            ulen == data@.len(),
            toc@.len() == i,
            forall|k: int|
                0 <= k < i ==> (#[trigger] toc@[k])@ == toc_entries(
                    data@,
                    start as int,
                    count as nat,
                )[k],
        decreases count - i,
    {
        proof {
            assert(start + i * TOC_ENTRY_SIZE + TOC_ENTRY_SIZE <= start + count * TOC_ENTRY_SIZE)
                by (nonlinear_arith)
                requires
                    i < count,
            ;
        }
        let off64 = start + i * (TOC_ENTRY_SIZE as u64);
        assert(off64 + TOC_ENTRY_SIZE <= data@.len());
        let off = off64 as usize;
        let entry = read_toc_entry(data, off);
        toc.push(entry);
        i += 1;
    }
    proof {
        assert(outline_views(toc@) =~= toc_entries(data@, start as int, count as nat));
    }
    Some(toc)
}

/// Format-specific page-data layout.
///
/// For HN there are two sub-variants:
///
/// * `with_toc = true`  – the long-form HN file, with an outline at 0x158.
/// * `with_toc = false` – the short-form HN file (`HN\xc8\x00` magic), no
///   outline, page-info table at 0xD8.
#[derive(Debug, Clone, Copy, PartialEq, Eq, Structural)]
pub enum Layout {
    Caj {
        /// Offset of the first byte of the embedded PDF.
        pdf_start_offset: u64,
    },
    Hn {
        /// Offset of the first 20-byte PageInfo struct.
        page_info_table_offset: u64,
        /// True if the document has an outline tree at 0x158.
        with_toc: bool,
    },
    C8 { page_info_table_offset: u64 },
    Pdf,
    Kdh,
    Teb,
}

/// Why reading the structure of a document stopped: the data ended
/// before a field, a field is invalid, or a text section did not inflate.
pub enum ReadFailure {
    Eof,
    Malformed(Seq<char>),
    Zlib(Seq<char>),
}

/// The error that a failure becomes, in a document of format `format`.
pub open spec fn failure_error(f: ReadFailure, format: FileFormat, e: CajError) -> bool {
    match f {
        ReadFailure::Eof => e is Io,
        ReadFailure::Malformed(m) => e matches CajError::Malformed { format: g, message } && g
            == format && message@ == m,
        ReadFailure::Zlib(m) => e matches CajError::Zlib(t) && t@ == m,
    }
}

/// Handle to an opened CAJ-family file: where it came from, its format,
/// page count and outline, the offsets of its page data, and its bytes.
#[derive(Debug, Clone)]
pub struct CajDocument {
    pub(crate) path: std::path::PathBuf,
    pub(crate) format: FileFormat,
    pub(crate) page_count: u32,
    pub(crate) toc: Vec<OutlineEntry>,
    /// Offsets into the file that locate the page-data array.
    pub(crate) layout: Layout,
    /// The bytes of the file.
    pub(crate) data: Vec<u8>,
}

/// The mathematical content of a document.
pub struct CajDocumentView {
    pub path: std::path::PathBuf,
    pub format: FileFormat,
    pub page_count: u32,
    pub toc: Seq<OutlineEntryView>,
    pub layout: Layout,
    pub data: Seq<u8>,
}

impl View for CajDocument {
    type V = CajDocumentView;

    closed spec fn view(&self) -> CajDocumentView {
        CajDocumentView {
            path: self.path,
            format: self.format,
            page_count: self.page_count,
            toc: outline_views(self.toc@),
            layout: self.layout,
            data: self.data@,
        }
    }
}

/// Inside the crate, the view of a document is made of its fields.
pub(crate) broadcast proof fn lemma_document_view(d: CajDocument)
    ensures
        #[trigger] d@ == (CajDocumentView {
            path: d.path,
            format: d.format,
            page_count: d.page_count,
            toc: outline_views(d.toc@),
            layout: d.layout,
            data: d.data@,
        }),
{
}

/// The layout is the one of the format: a CAJ layout for CAJ, an HN layout
/// for HN, and so on.
pub open spec fn layout_fits(format: FileFormat, layout: Layout) -> bool {
    match format {
        FileFormat::Caj => layout is Caj,
        FileFormat::Hn => layout is Hn,
        FileFormat::C8 => layout is C8,
        FileFormat::Pdf => layout is Pdf,
        FileFormat::Kdh => layout is Kdh,
        FileFormat::Teb => layout is Teb,
    }
}

impl CajDocumentView {
    /// A document as reading one makes it: its layout fits its format.
    pub open spec fn wf(self) -> bool {
        layout_fits(self.format, self.layout)
    }
}

/// The layout a freshly detected document starts with, before its
/// metadata is read.
pub open spec fn initial_layout(format: FileFormat, hn_with_toc: Option<bool>) -> Layout {
    match format {
        FileFormat::Caj => Layout::Caj { pdf_start_offset: 0 },
        FileFormat::Hn => Layout::Hn {
            page_info_table_offset: 0,
            with_toc: match hn_with_toc {
                Some(b) => b,
                None => true,
            },
        },
        FileFormat::C8 => Layout::C8 { page_info_table_offset: 0 },
        FileFormat::Pdf => Layout::Pdf,
        FileFormat::Kdh => Layout::Kdh,
        FileFormat::Teb => Layout::Teb,
    }
}

/// The layout a freshly detected document starts with.
pub(crate) fn detect_layout(format: FileFormat, hn_with_toc: Option<bool>) -> (r: CajResult<Layout>)
    ensures
        r matches Ok(l) && l == initial_layout(format, hn_with_toc),
{
    Ok(
        match format {
            FileFormat::Caj => Layout::Caj { pdf_start_offset: 0 },
            FileFormat::Hn => Layout::Hn {
                page_info_table_offset: 0,
                with_toc: match hn_with_toc {
                    Some(b) => b,
                    None => true,
                },
            },
            FileFormat::C8 => Layout::C8 { page_info_table_offset: 0 },
            FileFormat::Pdf => Layout::Pdf,
            FileFormat::Kdh => Layout::Kdh,
            FileFormat::Teb => Layout::Teb,
        },
    )
}

/// Page count, outline and layout of a document whose layout before
/// reading is `layout`: CAJ by [`crate::caj::caj_meta`], HN and C8 by
/// [`crate::hn::hn_meta`]; the other formats have none of them.
pub open spec fn document_meta(data: Seq<u8>, format: FileFormat, layout: Layout) -> Result<
    (u32, Seq<OutlineEntryView>, Layout),
    ReadFailure,
> {
    match layout {
        Layout::Caj { .. } => crate::caj::caj_meta(data),
        Layout::Hn { with_toc, .. } => crate::hn::hn_meta(data, false, with_toc),
        Layout::C8 { .. } => crate::hn::hn_meta(data, true, false),
        _ => Ok((0, Seq::empty(), layout)),
    }
}

impl CajDocument {
    /// Detect the format of the bytes of a file, and read its page count
    /// and outline.
    ///
    /// # Errors
    /// * [`CajError::Io`] – the data ends before a field that is read.
    /// * [`CajError::UnknownFormat`] – the 4-byte magic is none of the six
    ///   known formats.
    /// * [`CajError::Malformed`] – a count in the header is negative.
    pub fn from_bytes(path: std::path::PathBuf, data: Vec<u8>) -> (r: CajResult<Self>)
        ensures
            data@.len() < 4 ==> r matches Err(CajError::Io(_)),
            data@.len() >= 4 ==> match detected_format(data@.subrange(0, 4)) {
                None => r matches Err(CajError::UnknownFormat(m)) && m@ == data@.subrange(0, 4),
                Some(d) => match document_meta(data@, d.0, initial_layout(d.0, d.1)) {
                    Ok(m) => r matches Ok(doc) && doc@.wf() && doc@ == (CajDocumentView {
                        path,
                        format: d.0,
                        page_count: m.0,
                        toc: m.1,
                        layout: m.2,
                        data: data@,
                    }),
                    Err(f) => r matches Err(e) && failure_error(f, d.0, e),
                },
            },
    {
        if data.len() < 4 {
            return Err(CajError::Io(unexpected_eof()));
        }
        let header: [u8; 4] = [data[0], data[1], data[2], data[3]];
        proof {
            assert(header@ =~= data@.subrange(0, 4));
        }
        let (format, hn_with_toc) = match detect_format(&header) {
            Ok(d) => d,
            Err(e) => {
                return Err(e);
            },
        };
        let layout = match detect_layout(format, hn_with_toc) {
            Ok(l) => l,
            Err(e) => {
                return Err(e);
            },
        };
        let mut doc = Self { path, format, page_count: 0, toc: Vec::new(), layout, data };
        proof {
            assert(outline_views(doc.toc@) =~= Seq::<OutlineEntryView>::empty());
        }
        match doc.read_page_count_and_toc() {
            Ok(()) => Ok(doc),
            Err(e) => Err(e),
        }
    }

    /// Read the page count and outline of the format, and the offsets of
    /// the page data.
    pub(crate) fn read_page_count_and_toc(&mut self) -> (r: CajResult<()>)
        requires
            old(self).page_count == 0,
            old(self).toc@.len() == 0,
        ensures
            final(self).path == old(self).path,
            match document_meta(old(self).data@, old(self).format, old(self).layout) {
                Ok(m) => r is Ok && final(self)@ == (CajDocumentView {
                    page_count: m.0,
                    toc: m.1,
                    layout: m.2,
                    ..old(self)@
                }),
                Err(f) => r matches Err(e) && failure_error(f, old(self).format, e),
            },
    {
        match self.layout {
            Layout::Caj { .. } => crate::caj::read_meta(self),
            Layout::Hn { .. } | Layout::C8 { .. } => crate::hn::read_meta(self),
            Layout::Pdf | Layout::Kdh | Layout::Teb => {
                proof {
                    assert(outline_views(self.toc@) =~= Seq::<OutlineEntryView>::empty());
                }
                Ok(())
            },
        }
    }

    /// The detected file format.
    pub fn format(&self) -> (r: FileFormat)
        ensures
            r == self@.format,
    {
        self.format
    }

    /// The number of pages in the document.
    pub fn page_count(&self) -> (r: u32)
        ensures
            r == self@.page_count,
    {
        self.page_count
    }

    /// The number of outline entries (zero for some formats).
    pub fn toc_entry_count(&self) -> (r: usize)
        ensures
            r == self@.toc.len(),
    {
        self.toc.len()
    }

    /// The parsed outline, in the on-disk order.
    pub fn toc(&self) -> (r: &[OutlineEntry])
        ensures
            outline_views(r@) == self@.toc,
    {
        self.toc.as_slice()
    }

    /// The pages of an HN / C8 document: the parsed text and raw image
    /// blocks of each.
    ///
    /// For CAJ / PDF / KDH / TEB, returns [`CajError::Unsupported`]: use
    /// [`CajDocument::extract_pdf`] for CAJ and PDF, or rely on
    /// [`crate::convert::convert`] for the high-level conversion.
    pub fn pages(&self) -> (r: CajResult<Vec<crate::types::Page>>)
        ensures
            (self@.format == FileFormat::Hn || self@.format == FileFormat::C8)
                ==> crate::hn::pages_result(r, crate::hn::hn_pages(self@), self@.format),
            !(self@.format == FileFormat::Hn || self@.format == FileFormat::C8) ==> (r matches Err(
                CajError::Unsupported(m),
            ) && m@ == "pages is only supported for HN and C8 documents"@),
    {
        match self.format {
            FileFormat::Hn | FileFormat::C8 => crate::hn::iter_pages(self),
            _ => Err(CajError::Unsupported("pages is only supported for HN and C8 documents")),
        }
    }

    /// The embedded PDF of a CAJ document, or the bytes of a PDF document.
    ///
    /// For CAJ the returned bytes are the raw PDF as it sits inside the
    /// container, without any repair. For most workflows you want
    /// [`crate::convert::convert`] instead.
    pub fn extract_pdf(&self) -> (r: CajResult<Vec<u8>>)
        ensures
            self@.format == FileFormat::Caj ==> match self@.layout {
                Layout::Caj { pdf_start_offset } => match crate::caj::embedded_pdf(
                    self@.data,
                    pdf_start_offset as int,
                ) {
                    Ok(b) => r matches Ok(v) && v@ == b,
                    Err(m) => r matches Err(CajError::Malformed { format, message }) && format
                        == self@.format && message@ == m,
                },
                _ => r matches Err(CajError::Unsupported(m)) && m@
                    == "extract_pdf called on a non-CAJ document"@,
            },
            self@.format == FileFormat::Pdf ==> (r matches Ok(v) && v@ == self@.data),
            !(self@.format == FileFormat::Caj || self@.format == FileFormat::Pdf) ==> (r matches Err(
                CajError::Unsupported(m),
            ) && m@ == "extract_pdf is only supported for CAJ and PDF documents"@),
    {
        match self.format {
            FileFormat::Caj => crate::caj::extract_pdf(self),
            FileFormat::Pdf => Ok(self.data.clone()),
            _ => Err(
                CajError::Unsupported("extract_pdf is only supported for CAJ and PDF documents"),
            ),
        }
    }

    /// Where the page data of the document lies, by format.
    pub fn layout(&self) -> (r: Layout)
        ensures
            r == self@.layout,
    {
        self.layout
    }

    /// The on-disk path the document was opened from.
    pub fn path(&self) -> (r: &std::path::PathBuf)
        ensures
            *r == self@.path,
    {
        &self.path
    }
}

} // verus!
