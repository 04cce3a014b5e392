//! The high-level conversion: what a CAJ-family document becomes on its way
//! to a PDF, for every format.
//!
//! * **CAJ** – the embedded PDF, re-serialised (which rebuilds its
//!   cross-reference table) with the outline injected.
//! * **HN / C8** – the page images, decoded (JBIG1 / JBIG2 / JPEG), and
//!   the outline, to be assembled into a new PDF.
//! * **PDF** – the file as it is.
//! * **KDH** – the file decrypted with [`KDH_PASSPHRASE`].
//! * **TEB** – not yet supported.

use vstd::prelude::*;
use vstd::slice::slice_subrange;
use crate::bytes::{contains, contains_bytes, occurs_at, rfind, rfind_bytes, starts_with};
use crate::caj::{embedded_pdf, eof_marker, pdf_magic};
use crate::document::{failure_error, CajDocument, Layout};
use crate::hn::{hn_pages, page_views};
use crate::jbig1::{jbig1_result, jbig_error_text};
use crate::jbig2::{jbig2_error_text, jbig2_result};
use crate::pdf::{inject_outlines, injected_pdf, injection_fits, PageInput, PageInputView};
use crate::bindings::pdf_loaded;
use crate::caj::framed_pdf;
use crate::text::{decimal, push_numeral, push_str, string_of};
use crate::types::{
    outline_views, CajError, CajResult, DecodedImage, DecodedImageView, FileFormat, ImageKind,
    OutlineEntry, OutlineEntryView, Page, PageView, RawImage, RawImageView,
};

verus! {

broadcast use crate::document::lemma_document_view;

/// XOR key used by the KDH format's "encryption": `FZHMEI`.
pub const KDH_PASSPHRASE: [u8; 6] = [70, 90, 72, 77, 69, 73];

/// The bytes of [`KDH_PASSPHRASE`].
pub open spec fn kdh_key() -> Seq<u8> {
    seq![70u8, 90, 72, 77, 69, 73]
}

/// `s` XORed with the KDH keystream: the key repeated from its first byte.
pub open spec fn kdh_xor(s: Seq<u8>) -> Seq<u8> {
    Seq::new(s.len(), |i: int| s[i] ^ kdh_key()[i % 6])
}

/// `s` cut just past its last `%%EOF`, or the whole of `s` when it has
/// none.
pub open spec fn through_last_eof(s: Seq<u8>) -> Seq<u8> {
    match rfind(s, eof_marker()) {
        Some(p) => s.subrange(0, p + 5),
        None => s,
    }
}

/// A KDH file decrypted: nothing when it is no longer than its 254-byte
/// header; otherwise the bytes after the header XORed with the keystream,
/// cut just past the last `%%EOF`.
pub open spec fn kdh_decrypted(input: Seq<u8>) -> Seq<u8> {
    if input.len() <= 254 {
        Seq::empty()
    } else {
        through_last_eof(kdh_xor(input.subrange(254, input.len() as int)))
    }
}

/// Decrypt a KDH file by applying a fixed 6-byte XOR keystream
/// ([`KDH_PASSPHRASE`]) after skipping the 254-byte container header, then
/// truncate the result to the last `%%EOF` marker.
///
/// 1. Drop the first 254 bytes (the KDH container header).
/// 2. XOR each remaining byte with the keystream (`FZHMEI` repeated
///    cyclically).
/// 3. Truncate to the byte just past the last occurrence of `%%EOF`.
pub fn decrypt_kdh(input: &[u8]) -> (r: Vec<u8>)
    ensures
        r@ == kdh_decrypted(input@),
{
    if input.len() <= 254 {
        return Vec::new();
    }
    let payload = slice_subrange(input, 254, input.len());
    let mut output: Vec<u8> = Vec::with_capacity(payload.len());
    let mut i: usize = 0;
    while i < payload.len()
        invariant
            i <= payload@.len(),
            output@ == kdh_xor(payload@).subrange(0, i as int),
        decreases payload@.len() - i,
    {
        output.push(payload[i] ^ KDH_PASSPHRASE[i % KDH_PASSPHRASE.len()]);
        proof {
            assert(kdh_xor(payload@).subrange(0, i + 1) =~= kdh_xor(payload@).subrange(
                0,
                i as int,
            ).push(payload@[i as int] ^ kdh_key()[(i % 6) as int]));
        }
        i += 1;
    }
    proof {
        assert(output@ =~= kdh_xor(payload@));
    }
    let eof: [u8; 5] = [37, 37, 69, 79, 70];
    proof {
        assert(eof@ =~= eof_marker());
        crate::bytes::lemma_rfind_from(output@, eof@, output@.len() - 5);
    }
    match rfind_bytes(output.as_slice(), &eof) {
        Some(pos) => {
            output.truncate(pos + 5);
        },
        None => {},
    }
    output
}

/// The KDH keystream undoes itself: XORing twice gives the bytes back.
pub proof fn lemma_kdh_xor_involution(s: Seq<u8>)
    ensures
        kdh_xor(kdh_xor(s)) == s,
{
    assert forall|i: int| 0 <= i < s.len() implies kdh_xor(kdh_xor(s))[i] == s[i] by {
        let b = s[i];
        let k = kdh_key()[i % 6];
        assert((b ^ k) ^ k == b) by (bit_vector);
    }
    assert(kdh_xor(kdh_xor(s)) =~= s);
}

/// Decrypting a file made of any 254-byte header and the encryption of a
/// plaintext gives the plaintext back, cut just past its last `%%EOF`.
pub proof fn lemma_kdh_round_trip(header: Seq<u8>, plain: Seq<u8>)
    requires
        header.len() == 254,
    ensures
        kdh_decrypted(header + kdh_xor(plain)) == through_last_eof(plain),
{
    let input = header + kdh_xor(plain);
    if plain.len() == 0 {
        assert(rfind(plain, eof_marker()) is None) by {
            crate::bytes::lemma_rfind_from(plain, eof_marker(), plain.len() - 5);
        }
    } else {
        assert(input.subrange(254, input.len() as int) =~= kdh_xor(plain));
        lemma_kdh_xor_involution(plain);
    }
}

/// The decrypted output is a prefix of the decrypted payload; when the
/// payload holds a `%%EOF`, the output ends with one and no `%%EOF` of the
/// payload starts past it; otherwise the output is the whole payload.
pub proof fn lemma_kdh_output_ends_at_last_eof(input: Seq<u8>)
    requires
        input.len() > 254,
    ensures
        ({
            let x = kdh_xor(input.subrange(254, input.len() as int));
            let out = kdh_decrypted(input);
            &&& out.len() <= x.len()
            &&& out == x.subrange(0, out.len() as int)
            &&& contains(x, eof_marker()) ==> {
                &&& occurs_at(out, eof_marker(), out.len() - 5)
                &&& forall|j: int| occurs_at(x, eof_marker(), j) ==> j + 5 <= out.len()
            }
            &&& !contains(x, eof_marker()) ==> out == x
        }),
{
    let x = kdh_xor(input.subrange(254, input.len() as int));
    let out = kdh_decrypted(input);
    crate::bytes::lemma_rfind_from(x, eof_marker(), x.len() - 5);
    match rfind(x, eof_marker()) {
        Some(p) => {
            assert(out =~= x.subrange(0, p + 5));
            assert(out.subrange(p, p + 5) =~= x.subrange(p, p + 5));
            assert forall|j: int| occurs_at(x, eof_marker(), j) implies j + 5 <= out.len() by {
                if j > x.len() - 5 {
                }
            }
        },
        None => {
            assert forall|j: int| !occurs_at(x, eof_marker(), j) by {
                if j > x.len() - 5 {
                }
            }
            assert(x.subrange(0, x.len() as int) =~= x);
        },
    }
}

/// The number of bytes of the CNKI header in front of a JPEG stream.
pub const JPEG_HEADER_LEN: usize = 48;

/// What an image block decodes to, or the text of the error: JBIG1 and
/// JBIG2 blocks become monochrome bitmaps of the declared size; a JPEG
/// block becomes the JPEG stream after its 48-byte header, the height
/// negated (two's complement) when the image is upside-down.
pub open spec fn decoded_image(raw: RawImageView) -> Result<DecodedImageView, Seq<char>> {
    match raw.kind {
        ImageKind::Jbig1 => match jbig1_result(raw.data, raw.width_px, raw.height_px) {
            Ok(bits) => Ok(
                DecodedImageView::Mono { width_px: raw.width_px, height_px: raw.height_px, bits },
            ),
            Err(t) => Err("JBIG1 decode failed: "@ + t),
        },
        ImageKind::Jbig2 => match jbig2_result(raw.data, raw.width_px, raw.height_px) {
            Ok(bits) => Ok(
                DecodedImageView::Mono { width_px: raw.width_px, height_px: raw.height_px, bits },
            ),
            Err(t) => Err("JBIG2 decode failed: "@ + t),
        },
        ImageKind::Jpeg { upside_down } => if raw.data.len() < JPEG_HEADER_LEN {
            Err(
                "JPEG block is only "@ + decimal(raw.data.len()) + " bytes; need at least "@
                    + decimal(JPEG_HEADER_LEN as nat),
            )
        } else {
            Ok(
                DecodedImageView::Jpeg {
                    width_px: raw.width_px,
                    height_px: if upside_down {
                        vstd::wrapping::u32_specs::wrapping_sub(0u32, raw.height_px)
                    } else {
                        raw.height_px
                    },
                    jpeg_bytes: raw.data.subrange(JPEG_HEADER_LEN as int, raw.data.len() as int),
                },
            )
        },
    }
}

/// A decoded JBIG1 or JBIG2 block is a monochrome bitmap of the size the
/// block declares: the width and height are the block's, in that order.
pub proof fn lemma_bilevel_block_keeps_size(raw: RawImageView)
    requires
        raw.kind is Jbig1 || raw.kind is Jbig2,
    ensures
        decoded_image(raw) matches Ok(d) ==> (d matches DecodedImageView::Mono {
            width_px,
            height_px,
            ..
        } && width_px == raw.width_px && height_px == raw.height_px),
{
}

/// A JPEG block is its bytes after the CNKI header, kept as they are, of
/// the declared width; a block too short for the header is refused.
pub proof fn lemma_jpeg_block_is_its_bytes(raw: RawImageView)
    requires
        raw.kind is Jpeg,
    ensures
        raw.data.len() < JPEG_HEADER_LEN ==> decoded_image(raw) is Err,
        raw.data.len() >= JPEG_HEADER_LEN ==> (decoded_image(raw) matches Ok(
            DecodedImageView::Jpeg { width_px, jpeg_bytes, .. },
        ) && width_px == raw.width_px && jpeg_bytes.len() == raw.data.len() - JPEG_HEADER_LEN
            && forall|i: int|
            0 <= i < jpeg_bytes.len() ==> #[trigger] jpeg_bytes[i] == raw.data[i + JPEG_HEADER_LEN]),
{
}

/// Decode one raw image block.
pub fn decode_image(raw: &RawImage) -> (r: CajResult<DecodedImage>)
    ensures
        match decoded_image(raw@) {
            Ok(d) => r matches Ok(img) && img@ == d,
            Err(t) => r matches Err(CajError::Malformed { format, message }) && format
                == FileFormat::Hn && message@ == t,
        },
{
    match raw.kind {
        ImageKind::Jbig1 => {
            match crate::jbig1::decode(raw.data.as_slice(), raw.width_px, raw.height_px) {
                Ok(bmp) => Ok(
                    DecodedImage::Mono { width_px: bmp.width, height_px: bmp.height, bits: bmp.bits },
                ),
                Err(e) => {
                    let mut m = string_of("JBIG1 decode failed: ");
                    let t = e.message();
                    m.append(t.as_str());
                    Err(CajError::Malformed { format: FileFormat::Hn, message: m })
                },
            }
        },
        ImageKind::Jbig2 => {
            match crate::jbig2::decode(raw.data.as_slice(), raw.width_px, raw.height_px) {
                Ok(bmp) => Ok(
                    DecodedImage::Mono { width_px: bmp.width, height_px: bmp.height, bits: bmp.bits },
                ),
                Err(e) => {
                    let mut m = string_of("JBIG2 decode failed: ");
                    let t = e.message();
                    m.append(t.as_str());
                    Err(CajError::Malformed { format: FileFormat::Hn, message: m })
                },
            }
        },
        ImageKind::Jpeg { upside_down } => {
            let height = if upside_down {
                0u32.wrapping_sub(raw.height_px)
            } else {
                raw.height_px
            };
            if raw.data.len() < JPEG_HEADER_LEN {
                let mut m = string_of("JPEG block is only ");
                push_numeral(&mut m, raw.data.len() as u64, 10, false);
                push_str(&mut m, " bytes; need at least ");
                push_numeral(&mut m, JPEG_HEADER_LEN as u64, 10, false);
                return Err(CajError::Malformed { format: FileFormat::Hn, message: m });
            }
            let jpeg_bytes = vstd::slice::slice_to_vec(
                slice_subrange(raw.data.as_slice(), JPEG_HEADER_LEN, raw.data.len()),
            );
            Ok(DecodedImage::Jpeg { width_px: raw.width_px, height_px: height, jpeg_bytes })
        },
    }
}

/// The images of a list of blocks that decode, in order; the others are
/// left out.
pub open spec fn decoded_images(raws: Seq<RawImageView>) -> Seq<DecodedImageView>
    decreases raws.len(),
{
    if raws.len() == 0 {
        Seq::empty()
    } else {
        decoded_images(raws.drop_last()) + match decoded_image(raws.last()) {
            Ok(d) => seq![d],
            Err(_) => Seq::empty(),
        }
    }
}

/// The views of a sequence of decoded images.
pub open spec fn image_views(s: Seq<DecodedImage>) -> Seq<DecodedImageView> {
    s.map_values(|d: DecodedImage| d@)
}

/// Decode every image on a page, returning the successfully decoded ones.
pub fn decode_page(page: &Page) -> (r: CajResult<Vec<DecodedImage>>)
    ensures
        r matches Ok(v) && image_views(v@) == decoded_images(page@.images),
{
    let mut out: Vec<DecodedImage> = Vec::new();
    let mut i: usize = 0;
    let ghost raws = page@.images;
    proof {
        assert(raws.subrange(0, 0) =~= Seq::<RawImageView>::empty());
        assert(image_views(out@) =~= Seq::<DecodedImageView>::empty());
    }
    while i < page.images.len()
        invariant
            i <= page.images@.len(),
            raws == page@.images,
            raws.len() == page.images@.len(),
            image_views(out@) == decoded_images(raws.subrange(0, i as int)),
        decreases page.images@.len() - i,
    {
        let ghost before = image_views(out@);
        proof {
            assert(raws[i as int] == page.images@[i as int]@);
            assert(raws.subrange(0, i + 1).drop_last() =~= raws.subrange(0, i as int));
            assert(raws.subrange(0, i + 1).last() == raws[i as int]);
        }
        match decode_image(&page.images[i]) {
            Ok(img) => {
                out.push(img);
                proof {
                    assert(image_views(out@) =~= before + seq![img@]);
                }
            },
            Err(_) => {
                proof {
                    assert(before + Seq::<DecodedImageView>::empty() =~= before);
                }
            },
        }
        i += 1;
    }
    proof {
        assert(raws.subrange(0, raws.len() as int) =~= raws);
    }
    Ok(out)
}

/// What a page contributes to a new PDF: its first image that decodes,
/// with its text as an overlay when it has any; nothing when no image
/// decodes.
pub open spec fn page_input(p: PageView) -> Option<PageInputView> {
    let imgs = decoded_images(p.images);
    if imgs.len() == 0 {
        None
    } else {
        Some(
            PageInputView {
                image: imgs[0],
                text_overlay: if p.text.len() == 0 {
                    None
                } else {
                    Some(p.text)
                },
            },
        )
    }
}

/// What a list of pages contributes to a new PDF, in order.
pub open spec fn page_inputs(ps: Seq<PageView>) -> Seq<PageInputView>
    decreases ps.len(),
{
    if ps.len() == 0 {
        Seq::empty()
    } else {
        page_inputs(ps.drop_last()) + match page_input(ps.last()) {
            Some(x) => seq![x],
            None => Seq::empty(),
        }
    }
}

/// The views of a sequence of page inputs.
pub open spec fn input_views(s: Seq<PageInput>) -> Seq<PageInputView> {
    s.map_values(|p: PageInput| p@)
}

/// What a document becomes on its way to a PDF.
#[derive(Debug)]
pub enum Conversion {
    /// A complete PDF, to be written out as it is.
    Pdf(Vec<u8>),
    /// Pages to assemble into a new PDF, with the outline.
    Assemble { pages: Vec<PageInput>, outline: Vec<OutlineEntry> },
}

/// The mathematical content of a conversion.
pub enum ConversionView {
    Pdf(Seq<u8>),
    Assemble { pages: Seq<PageInputView>, outline: Seq<OutlineEntryView> },
}

impl View for Conversion {
    type V = ConversionView;

    open spec fn view(&self) -> ConversionView {
        match self {
            Conversion::Pdf(b) => ConversionView::Pdf(b@),
            Conversion::Assemble { pages, outline } => ConversionView::Assemble {
                pages: input_views(pages@),
                outline: outline_views(outline@),
            },
        }
    }
}

/// A copy of an outline.
fn clone_toc(toc: &Vec<OutlineEntry>) -> (r: Vec<OutlineEntry>)
    ensures
        outline_views(r@) == outline_views(toc@),
{
    let mut out: Vec<OutlineEntry> = Vec::new();
    let mut i: usize = 0;
    while i < toc.len()
        invariant
            i <= toc@.len(),
            out@.len() == i,
            forall|k: int| 0 <= k < i ==> (#[trigger] out@[k])@ == toc@[k]@,
        decreases toc@.len() - i,
    {
        out.push(toc[i].clone());
        i += 1;
    }
    assert(outline_views(out@) =~= outline_views(toc@));
    out
}

/// The prefix of the error that a failed outline injection gives.
pub open spec fn injection_failure_prefix() -> Seq<char> {
    "xref repair / outline injection failed: "@
}

/// What a CAJ document becomes once its embedded PDF has been through
/// [`inject_outlines`]: the repaired PDF, or, where that failed (with the
/// error text `injected` carries), a `Malformed` error that says so.
pub fn caj_conversion(format: FileFormat, injected: Result<Vec<u8>, String>) -> (r: CajResult<
    Conversion,
>)
    ensures
        match injected {
            Ok(b) => r matches Ok(c) && c@ == ConversionView::Pdf(b@),
            Err(m) => r matches Err(CajError::Malformed { format: f, message }) && f == format
                && message@ == injection_failure_prefix() + m@,
        },
{
    match injected {
        Ok(b) => Ok(Conversion::Pdf(b)),
        Err(m) => {
            let mut message = string_of("xref repair / outline injection failed: ");
            message.append(m.as_str());
            proof {
                reveal_strlit("xref repair / outline injection failed: ");
            }
            Err(CajError::Malformed { format, message })
        },
    }
}

/// What converting a CAJ document whose framed embedded PDF is `f` and
/// whose outline is `toc` gives: success exactly when lopdf reads `f` and
/// its ids leave room, and then the PDF that [`injected_pdf`] describes;
/// otherwise a `Malformed` error that says the injection failed.
pub open spec fn caj_outcome(
    f: Seq<u8>,
    toc: Seq<OutlineEntryView>,
    format: FileFormat,
    r: CajResult<Conversion>,
) -> bool {
    &&& (r is Ok <==> (pdf_loaded(f) is Some && injection_fits(f, toc.len())))
    &&& r matches Ok(c) ==> (c matches Conversion::Pdf(x) && injected_pdf(f, toc, x@))
    &&& r matches Err(e) ==> (e matches CajError::Malformed { format: g, message } && g == format
        && message@.len() >= injection_failure_prefix().len() && message@.subrange(
        0,
        injection_failure_prefix().len() as int,
    ) == injection_failure_prefix())
}

/// CAJ: the embedded PDF, framed for a PDF reader, with its
/// cross-reference table rebuilt and the outline injected.
fn convert_caj(doc: &CajDocument) -> (r: CajResult<Conversion>)
    requires
        doc.format == FileFormat::Caj,
    ensures
        match doc.layout {
            Layout::Caj { pdf_start_offset } => match embedded_pdf(
                doc.data@,
                pdf_start_offset as int,
            ) {
                Ok(b) => caj_outcome(framed_pdf(b), doc@.toc, doc.format, r),
                Err(m) => r matches Err(CajError::Malformed { format, message }) && format
                    == doc.format && message@ == m,
            },
            _ => r matches Err(CajError::Unsupported(m)) && m@
                == "extract_pdf called on a non-CAJ document"@,
        },
{
    let pdf_bytes = match doc.extract_pdf() {
        Ok(b) => b,
        Err(e) => {
            return Err(e);
        },
    };
    let framed = crate::caj::frame_pdf(pdf_bytes.as_slice());
    let injected = match inject_outlines(framed.as_slice(), doc.toc.as_slice()) {
        Ok(b) => Ok(b),
        Err(e) => Err(e.message()),
    };
    proof {
        let p = injection_failure_prefix();
        assert forall|m: Seq<char>| #[trigger] (p + m).subrange(0, p.len() as int) == p by {
            assert((p + m).subrange(0, p.len() as int) =~= p);
        }
    }
    caj_conversion(doc.format, injected)
}

/// HN / C8: the first decodable image of every page that has one, with
/// the page's text, and the outline.
fn convert_hn(doc: &CajDocument) -> (r: CajResult<Conversion>)
    requires
        doc.format == FileFormat::Hn || doc.format == FileFormat::C8,
    ensures
        match hn_pages(doc@) {
            Err(f) => r matches Err(e) && failure_error(f, doc.format, e),
            Ok(ps) => if page_inputs(ps).len() == 0 {
                r matches Err(CajError::Malformed { format, message }) && format == doc.format
                    && message@ == "file is pure-text; no images to embed"@
            } else {
                r matches Ok(c) && c@ == ConversionView::Assemble {
                    pages: page_inputs(ps),
                    outline: doc@.toc,
                }
            },
        },
{
    let pages = match doc.pages() {
        Ok(p) => p,
        Err(e) => {
            return Err(e);
        },
    };
    let ghost ps = page_views(pages@);
    let mut page_inputs_v: Vec<PageInput> = Vec::new();
    let mut i: usize = 0;
    proof {
        assert(ps.subrange(0, 0) =~= Seq::<PageView>::empty());
        assert(input_views(page_inputs_v@) =~= Seq::<PageInputView>::empty());
    }
    while i < pages.len()
        invariant
            i <= pages@.len(),
            ps == page_views(pages@),
            ps.len() == pages@.len(),
            input_views(page_inputs_v@) == page_inputs(ps.subrange(0, i as int)),
        decreases pages@.len() - i,
    {
        let ghost before = input_views(page_inputs_v@);
        proof {
            assert(ps[i as int] == pages@[i as int]@);
            assert(ps.subrange(0, i + 1).drop_last() =~= ps.subrange(0, i as int));
            assert(ps.subrange(0, i + 1).last() == ps[i as int]);
        }
        let page = &pages[i];
        let mut decoded = match decode_page(page) {
            Ok(d) => d,
            Err(e) => {
                return Err(e);
            },
        };
        if decoded.len() == 0 {
            proof {
                assert(before + Seq::<PageInputView>::empty() =~= before);
            }
        } else {
            let image = decoded.remove(0);
            let text_overlay = if page.text.as_str().unicode_len() == 0 {
                None
            } else {
                Some(page.text.clone())
            };
            let input = PageInput { image, text_overlay };
            page_inputs_v.push(input);
            proof {
                assert(input_views(page_inputs_v@) =~= before + seq![input@]);
            }
        }
        i += 1;
    }
    proof {
        assert(ps.subrange(0, ps.len() as int) =~= ps);
    }
    if page_inputs_v.len() == 0 {
        return Err(
            CajError::Malformed {
                format: doc.format,
                message: string_of("file is pure-text; no images to embed"),
            },
        );
    }
    Ok(Conversion::Assemble { pages: page_inputs_v, outline: clone_toc(&doc.toc) })
}

/// PDF: the file as it is.
fn convert_pdf(doc: &CajDocument) -> (r: CajResult<Conversion>)
    ensures
        r matches Ok(c) && c@ == ConversionView::Pdf(doc.data@),
{
    Ok(Conversion::Pdf(doc.data.clone()))
}

/// KDH: the file decrypted, which must be a complete PDF.
fn convert_kdh(doc: &CajDocument) -> (r: CajResult<Conversion>)
    ensures
        ({
            let d = kdh_decrypted(doc.data@);
            if !occurs_at(d, pdf_magic(), 0) {
                r matches Err(CajError::Malformed { format, message }) && format == doc.format
                    && message@ == "decrypted KDH does not start with %PDF- — wrong XOR key?"@
            } else if !contains(d, eof_marker()) {
                r matches Err(CajError::Malformed { format, message }) && format == doc.format
                    && message@ == "decrypted KDH is missing %%EOF marker"@
            } else {
                r matches Ok(c) && c@ == ConversionView::Pdf(d)
            }
        }),
{
    let decrypted = decrypt_kdh(doc.data.as_slice());
    let magic: [u8; 5] = [37, 80, 68, 70, 45];
    let eof: [u8; 5] = [37, 37, 69, 79, 70];
    proof {
        assert(magic@ =~= pdf_magic());
        assert(eof@ =~= eof_marker());
    }
    if !starts_with(decrypted.as_slice(), &magic) {
        return Err(
            CajError::Malformed {
                format: doc.format,
                message: string_of("decrypted KDH does not start with %PDF- — wrong XOR key?"),
            },
        );
    }
    if !contains_bytes(decrypted.as_slice(), &eof) {
        return Err(
            CajError::Malformed {
                format: doc.format,
                message: string_of("decrypted KDH is missing %%EOF marker"),
            },
        );
    }
    Ok(Conversion::Pdf(decrypted))
}

/// Convert a CAJ-family document towards a PDF.
///
/// This is the single high-level entry point shared by every front-end.
/// The per-format pipeline is:
///
/// * **CAJ** – extract the embedded PDF, repair its cross-reference table
///   and inject the outline tree.
/// * **HN / C8** – iterate the per-page text and image blocks, decode the
///   JBIG / JBIG2 / JPEG images; they are to be assembled into a new PDF
///   with the outline tree.
/// * **PDF** – the file verbatim.
/// * **KDH** – apply the XOR decryption with [`KDH_PASSPHRASE`], drop the
///   254-byte header, truncate to the last `%%EOF` marker.
/// * **TEB** – not yet supported; returns [`CajError::Unsupported`].
pub fn convert(doc: &CajDocument) -> (r: CajResult<Conversion>)
    ensures
        doc@.format == FileFormat::Caj ==> match doc@.layout {
            Layout::Caj { pdf_start_offset } => match embedded_pdf(
                doc@.data,
                pdf_start_offset as int,
            ) {
                Ok(b) => caj_outcome(framed_pdf(b), doc@.toc, doc@.format, r),
                Err(m) => r matches Err(CajError::Malformed { format, message }) && format
                    == doc@.format && message@ == m,
            },
            _ => r matches Err(CajError::Unsupported(m)) && m@
                == "extract_pdf called on a non-CAJ document"@,
        },
        (doc@.format == FileFormat::Hn || doc@.format == FileFormat::C8) ==> match hn_pages(doc@) {
            Err(f) => r matches Err(e) && failure_error(f, doc@.format, e),
            Ok(ps) => if page_inputs(ps).len() == 0 {
                r matches Err(CajError::Malformed { format, message }) && format == doc@.format
                    && message@ == "file is pure-text; no images to embed"@
            } else {
                r matches Ok(c) && c@ == ConversionView::Assemble {
                    pages: page_inputs(ps),
                    outline: doc@.toc,
                }
            },
        },
        doc@.format == FileFormat::Pdf ==> (r matches Ok(c) && c@ == ConversionView::Pdf(doc@.data)),
        doc@.format == FileFormat::Kdh ==> ({
            let d = kdh_decrypted(doc@.data);
            if !occurs_at(d, pdf_magic(), 0) {
                r matches Err(CajError::Malformed { format, message }) && format == doc@.format
                    && message@ == "decrypted KDH does not start with %PDF- — wrong XOR key?"@
            } else if !contains(d, eof_marker()) {
                r matches Err(CajError::Malformed { format, message }) && format == doc@.format
                    && message@ == "decrypted KDH is missing %%EOF marker"@
            } else {
                r matches Ok(c) && c@ == ConversionView::Pdf(d)
            }
        }),
        doc@.format == FileFormat::Teb ==> (r matches Err(CajError::Unsupported(m)) && m@
            == "TEB format not yet implemented"@),
{
    match doc.format {
        FileFormat::Caj => convert_caj(doc),
        FileFormat::Hn | FileFormat::C8 => convert_hn(doc),
        FileFormat::Pdf => convert_pdf(doc),
        FileFormat::Kdh => convert_kdh(doc),
        FileFormat::Teb => Err(CajError::Unsupported("TEB format not yet implemented")),
    }
}

} // verus!
