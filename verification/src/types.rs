//! The data model shared by every part of the library: errors, file
//! formats, outline entries and page contents.

use vstd::prelude::*;
use crate::bindings::io_error_text;
use crate::text::{decimal, push_numeral, push_str, string_of};

verus! {

/// Errors that can occur while opening, parsing, or extracting pages
/// from a CAJ-family file.
#[derive(Debug)]
pub enum CajError {
    Io(std::io::Error),
    UnknownFormat([u8; 4]),
    Unsupported(&'static str),
    Malformed { format: FileFormat, message: String },
    PageOutOfRange { index: usize, count: usize },
    Text(String),
    Zlib(String),
}

pub type CajResult<T> = Result<T, CajError>;

/// The name of a format as `{:?}` writes it.
pub open spec fn format_debug(f: FileFormat) -> Seq<char> {
    match f {
        FileFormat::Caj => "Caj"@,
        FileFormat::Hn => "Hn"@,
        FileFormat::C8 => "C8"@,
        FileFormat::Pdf => "Pdf"@,
        FileFormat::Kdh => "Kdh"@,
        FileFormat::Teb => "Teb"@,
    }
}

/// Four bytes as `{:?}` writes them: `[a, b, c, d]`.
pub open spec fn magic_debug(m: Seq<u8>) -> Seq<char> {
    "["@ + decimal(m[0] as nat) + ", "@ + decimal(m[1] as nat) + ", "@ + decimal(m[2] as nat)
        + ", "@ + decimal(m[3] as nat) + "]"@
}

/// The text of an error other than an I/O error, as it is shown to users.
pub open spec fn caj_error_text(e: CajError) -> Seq<char> {
    match e {
        CajError::Io(_) => "I/O error: "@,
        CajError::UnknownFormat(m) => "unsupported or unknown file type (magic bytes: "@
            + magic_debug(m@) + ")"@,
        CajError::Unsupported(s) => "unsupported feature: "@ + s@,
        CajError::Malformed { format, message } => "malformed "@ + format_debug(format)
            + " file: "@ + message@,
        CajError::PageOutOfRange { index, count } => "page index "@ + decimal(index as nat)
            + " out of range (page count is "@ + decimal(count as nat) + ")"@,
        CajError::Text(s) => "text decoding error: "@ + s@,
        CajError::Zlib(s) => "zlib decompression failed: "@ + s@,
    }
}

impl FileFormat {
    /// The name of the format as `{:?}` writes it.
    pub fn debug_name(&self) -> (r: &'static str)
        ensures
            r@ == format_debug(*self),
    {
        match self {
            FileFormat::Caj => "Caj",
            FileFormat::Hn => "Hn",
            FileFormat::C8 => "C8",
            FileFormat::Pdf => "Pdf",
            FileFormat::Kdh => "Kdh",
            FileFormat::Teb => "Teb",
        }
    }
}

impl CajError {
    /// The text of the error, as it is shown to users; for an I/O error
    /// the text of the I/O error follows `I/O error: `.
    pub fn message(&self) -> (r: String)
        ensures
            !(self is Io) ==> r@ == caj_error_text(*self),
            self is Io ==> r@.subrange(0, 11) == "I/O error: "@,
    {
        match self {
            CajError::Io(e) => {
                let mut m = string_of("I/O error: ");
                let t = io_error_text(e);
                m.append(t.as_str());
                proof {
                    reveal_strlit("I/O error: ");
                    assert(m@.subrange(0, 11) =~= "I/O error: "@);
                }
                m
            },
            CajError::UnknownFormat(b) => {
                let mut m = string_of("unsupported or unknown file type (magic bytes: [");
                push_numeral(&mut m, b[0] as u64, 10, false);
                push_str(&mut m, ", ");
                push_numeral(&mut m, b[1] as u64, 10, false);
                push_str(&mut m, ", ");
                push_numeral(&mut m, b[2] as u64, 10, false);
                push_str(&mut m, ", ");
                push_numeral(&mut m, b[3] as u64, 10, false);
                push_str(&mut m, "])");
                proof {
                    reveal_strlit("unsupported or unknown file type (magic bytes: [");
                    reveal_strlit("unsupported or unknown file type (magic bytes: ");
                    reveal_strlit("[");
                    reveal_strlit("])");
                    reveal_strlit("]");
                    reveal_strlit(")");
                    assert(m@ =~= caj_error_text(*self));
                }
                m
            },
            CajError::Unsupported(s) => {
                let mut m = string_of("unsupported feature: ");
                push_str(&mut m, s);
                m
            },
            CajError::Malformed { format, message } => {
                let mut m = string_of("malformed ");
                push_str(&mut m, format.debug_name());
                push_str(&mut m, " file: ");
                m.append(message.as_str());
                m
            },
            CajError::PageOutOfRange { index, count } => {
                let mut m = string_of("page index ");
                push_numeral(&mut m, *index as u64, 10, false);
                push_str(&mut m, " out of range (page count is ");
                push_numeral(&mut m, *count as u64, 10, false);
                push_str(&mut m, ")");
                m
            },
            CajError::Text(s) => {
                let mut m = string_of("text decoding error: ");
                m.append(s.as_str());
                m
            },
            CajError::Zlib(s) => {
                let mut m = string_of("zlib decompression failed: ");
                m.append(s.as_str());
                m
            },
        }
    }

    /// Convenience constructor for the [`CajError::Malformed`] variant.
    pub fn malformed(format: FileFormat, message: String) -> (r: CajError)
        ensures
            r matches CajError::Malformed { format: f, message: m } && f == format && m@ == message@,
    {
        CajError::Malformed { format, message }
    }
}

/// The on-disk format of an academic-journal file.
#[derive(Debug, Clone, Copy, PartialEq, Eq, Hash, Structural)]
pub enum FileFormat {
    /// Older CAJ format.
    Caj,
    /// HN8 / HN format.
    Hn,
    /// "C8" magic byte followed by a tiny header before page data.
    C8,
    /// PDF wrapped in a CAJ container.
    Pdf,
    /// KDH encrypted format.
    Kdh,
    /// Teb/Apabi format.
    Teb,
}

/// The short upper-case name of a format, as shown to users.
pub open spec fn format_name(f: FileFormat) -> Seq<char> {
    match f {
        FileFormat::Caj => "CAJ"@,
        FileFormat::Hn => "HN"@,
        FileFormat::C8 => "C8"@,
        FileFormat::Pdf => "PDF"@,
        FileFormat::Kdh => "KDH"@,
        FileFormat::Teb => "TEB"@,
    }
}

impl FileFormat {
    /// The short upper-case name of the format ("CAJ", "HN", ...).
    pub fn name(&self) -> (r: &'static str)
        ensures
            r@ == format_name(*self),
    {
        match self {
            FileFormat::Caj => "CAJ",
            FileFormat::Hn => "HN",
            FileFormat::C8 => "C8",
            FileFormat::Pdf => "PDF",
            FileFormat::Kdh => "KDH",
            FileFormat::Teb => "TEB",
        }
    }
}

/// One entry in the document's outline / table of contents.
///
/// `page` is 1-based.
#[derive(Debug, PartialEq, Eq)]
pub struct OutlineEntry {
    pub title: String,
    pub page: u32,
    pub level: u8,
}

/// The mathematical content of an outline entry.
pub struct OutlineEntryView {
    pub title: Seq<char>,
    pub page: u32,
    pub level: u8,
}

impl View for OutlineEntry {
    type V = OutlineEntryView;

    open spec fn view(&self) -> OutlineEntryView {
        OutlineEntryView { title: self.title@, page: self.page, level: self.level }
    }
}

impl Clone for OutlineEntry {
    fn clone(&self) -> (r: Self)
        ensures
            r@ == self@,
    {
        OutlineEntry { title: self.title.clone(), page: self.page, level: self.level }
    }
}

/// The views of a sequence of outline entries.
pub open spec fn outline_views(s: Seq<OutlineEntry>) -> Seq<OutlineEntryView> {
    s.map_values(|e: OutlineEntry| e@)
}

/// Codec used to encode a single page image inside the container.
#[derive(Debug, Clone, Copy, PartialEq, Eq, Hash, Structural)]
pub enum ImageKind {
    /// Custom JBIG1 variant.
    Jbig1,
    /// JBIG2.
    Jbig2,
    /// JPEG (possibly upside-down depending on the variant byte).
    Jpeg { upside_down: bool },
}

/// A still-undecoded image block.
#[derive(Debug)]
pub struct RawImage {
    pub kind: ImageKind,
    pub data: Vec<u8>,
    pub width_px: u32,
    pub height_px: u32,
}

/// The mathematical content of a raw image block.
pub struct RawImageView {
    pub kind: ImageKind,
    pub data: Seq<u8>,
    pub width_px: u32,
    pub height_px: u32,
}

impl View for RawImage {
    type V = RawImageView;

    open spec fn view(&self) -> RawImageView {
        RawImageView {
            kind: self.kind,
            data: self.data@,
            width_px: self.width_px,
            height_px: self.height_px,
        }
    }
}

impl Clone for RawImage {
    fn clone(&self) -> (r: Self)
        ensures
            r@ == self@,
    {
        RawImage {
            kind: self.kind,
            data: self.data.clone(),
            width_px: self.width_px,
            height_px: self.height_px,
        }
    }
}

/// A decoded image ready to be embedded in a PDF.
#[derive(Debug)]
pub enum DecodedImage {
    /// 1-bit-per-pixel monochrome bitmap.
    Mono {
        width_px: u32,
        height_px: u32,
        /// Packed bits, rows padded to whole bytes.
        bits: Vec<u8>,
    },
    /// 8-bit JPEG.
    Jpeg { width_px: u32, height_px: u32, jpeg_bytes: Vec<u8> },
}

/// The mathematical content of a decoded image.
pub enum DecodedImageView {
    Mono { width_px: u32, height_px: u32, bits: Seq<u8> },
    Jpeg { width_px: u32, height_px: u32, jpeg_bytes: Seq<u8> },
}

impl View for DecodedImage {
    type V = DecodedImageView;

    open spec fn view(&self) -> DecodedImageView {
        match self {
            DecodedImage::Mono { width_px, height_px, bits } => DecodedImageView::Mono {
                width_px: *width_px,
                height_px: *height_px,
                bits: bits@,
            },
            DecodedImage::Jpeg { width_px, height_px, jpeg_bytes } => DecodedImageView::Jpeg {
                width_px: *width_px,
                height_px: *height_px,
                jpeg_bytes: jpeg_bytes@,
            },
        }
    }
}

impl Clone for DecodedImage {
    fn clone(&self) -> (r: Self)
        ensures
            r@ == self@,
    {
        match self {
            DecodedImage::Mono { width_px, height_px, bits } => DecodedImage::Mono {
                width_px: *width_px,
                height_px: *height_px,
                bits: bits.clone(),
            },
            DecodedImage::Jpeg { width_px, height_px, jpeg_bytes } => DecodedImage::Jpeg {
                width_px: *width_px,
                height_px: *height_px,
                jpeg_bytes: jpeg_bytes.clone(),
            },
        }
    }
}

impl DecodedImage {
    /// Pixel width of the image.
    pub fn width_px(&self) -> (r: u32)
        ensures
            r == match self@ {
                DecodedImageView::Mono { width_px, .. } => width_px,
                DecodedImageView::Jpeg { width_px, .. } => width_px,
            },
    {
        match self {
            DecodedImage::Mono { width_px, .. } => *width_px,
            DecodedImage::Jpeg { width_px, .. } => *width_px,
        }
    }

    /// Pixel height of the image.
    pub fn height_px(&self) -> (r: u32)
        ensures
            r == match self@ {
                DecodedImageView::Mono { height_px, .. } => height_px,
                DecodedImageView::Jpeg { height_px, .. } => height_px,
            },
    {
        match self {
            DecodedImage::Mono { height_px, .. } => *height_px,
            DecodedImage::Jpeg { height_px, .. } => *height_px,
        }
    }
}

/// Raw content of a single page.
#[derive(Debug)]
pub struct Page {
    /// Plain text extracted from the dispatch records (GBK → UTF-8).
    pub text: String,
    /// Image blocks present on this page, in the order they appear.
    pub images: Vec<RawImage>,
}

/// The mathematical content of a page.
pub struct PageView {
    pub text: Seq<char>,
    pub images: Seq<RawImageView>,
}

impl View for Page {
    type V = PageView;

    open spec fn view(&self) -> PageView {
        PageView { text: self.text@, images: self.images@.map_values(|r: RawImage| r@) }
    }
}

impl Default for Page {
    fn default() -> (r: Self)
        ensures
            r@.text.len() == 0,
            r@.images.len() == 0,
    {
        Page { text: String::new(), images: Vec::new() }
    }
}

} // verus!
