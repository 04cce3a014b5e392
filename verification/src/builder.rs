//! Assembling a new PDF from page images: one page per image, the image
//! painted over the whole page, then the page tree, the catalog and the
//! outline.

use vstd::prelude::*;
use crate::bindings::{
    add_dictionary, add_stream, dict_set_dict, dict_set_object, new_dictionary,
    new_document, new_object_id, object_dict_mut, save_pdf, set_object, string_bytes, trailer_mut,
};
use crate::bindings::{
    pdf_catalog, pdf_dict_entries, pdf_max_id, pdf_objects, pdf_serialized, pdf_streams, pdf_trailer, pdf_value_of,
    stream_compressed,
};
use crate::bytes::occurs_at;
use crate::caj::{eof_marker, pdf_magic};
use crate::pdf::{
    build_outline_dict, dict_after, dict_set, entry_value, entry_views, lemma_dict_after_absent, lemma_dict_after_distinct, lemma_put_entry_other, fresh_ids, fresh_setting, image_content_for,
    lemma_outline_object_ids, lemma_put_entry_value, lemma_write_objects_at, lemma_write_objects_frame,
    mono_raster_len, numbered_pages, outline_built, outline_objects_spec, put_entry, same_stream_at,
    stored_value, write_objects, PageInput, PageInputView, PdfError, PdfObjects, PdfStreams, PdfValue, PdfValueView,
};
use crate::text::{decimal, digit_char, push_numeral, push_str, string_of};
use crate::types::{outline_views, DecodedImage, DecodedImageView, OutlineEntry, OutlineEntryView};

verus! {

/// A length of `n` pixels in PDF points at 300 DPI (72 n / 300, which is
/// 6 n / 25), written as the shortest decimal that gives it: the whole
/// part, and when the hundredths are not zero a point and the hundredths
/// without a trailing zero.
pub open spec fn points_text(n: u32) -> Seq<char> {
    let q = (6 * n) / 25;
    let h = ((6 * n) % 25) * 4;
    if h == 0 {
        decimal(q as nat)
    } else if h % 10 == 0 {
        decimal(q as nat) + seq!['.', digit_char((h / 10) as nat, false)]
    } else {
        decimal(q as nat) + seq![
            '.',
            digit_char((h / 10) as nat, false),
            digit_char((h % 10) as nat, false),
        ]
    }
}

/// The content stream of a page that paints the image `/Im0` over the
/// whole page, the image `width_px` x `height_px` pixels:
/// `q <w> 0 0 <h> 0 0 cm /Im0 Do Q`, one operation a line.
pub open spec fn page_content(width_px: u32, height_px: u32) -> Seq<char> {
    "q\n"@ + points_text(width_px) + " 0 0 "@ + points_text(height_px) + " 0 0 cm\n/Im0 Do\nQ\n"@
}

/// The characters of a decimal numeral are ASCII digits.
proof fn lemma_decimal_ascii(n: nat)
    ensures
        forall|i: int| 0 <= i < decimal(n).len() ==> 48 <= (#[trigger] decimal(n)[i]) as u32 <= 57,
    decreases n,
{
    reveal_with_fuel(crate::text::numeral, 1);
    if n >= 10 {
        lemma_decimal_ascii(n / 10);
        let a = decimal(n / 10);
        assert(decimal(n) == a + seq![digit_char(n % 10, false)]);
        assert forall|i: int| 0 <= i < decimal(n).len() implies 48 <= (#[trigger] decimal(n)[i]) as u32
            <= 57 by {
            if i < a.len() {
                assert(decimal(n)[i] == a[i]);
            }
        }
    }
}

/// Append the text of a length in points.
fn push_points(out: &mut String, n: u32)
    ensures
        final(out)@ == old(out)@ + points_text(n),
{
    let six: u64 = 6 * (n as u64);
    let q = six / 25;
    let h = (six % 25) * 4;
    push_numeral(out, q, 10, false);
    if h != 0 {
        push_str(out, ".");
        push_numeral(out, h / 10, 10, false);
        if h % 10 != 0 {
            push_numeral(out, h % 10, 10, false);
        }
    }
    proof {
        reveal_strlit(".");
        reveal_with_fuel(crate::text::numeral, 2);
        assert(final(out)@ =~= old(out)@ + points_text(n));
    }
}

/// The content stream of a page that paints its image over the whole
/// page: see [`page_content`].
pub fn page_content_stream(width_px: u32, height_px: u32) -> (r: Vec<u8>)
    ensures
        r@ == page_content(width_px, height_px).map_values(|c: char| c as u8),
{
    let mut s = string_of("q\n");
    push_points(&mut s, width_px);
    push_str(&mut s, " 0 0 ");
    push_points(&mut s, height_px);
    push_str(&mut s, " 0 0 cm\n/Im0 Do\nQ\n");
    let ghost t = s@;
    proof {
        reveal_strlit("q\n");
        reveal_strlit(" 0 0 ");
        reveal_strlit(" 0 0 cm\n/Im0 Do\nQ\n");
        let w = 6 * width_px;
        let h = 6 * height_px;
        lemma_decimal_ascii((w / 25) as nat);
        lemma_decimal_ascii((h / 25) as nat);
        assert forall|i: int| 0 <= i < t.len() implies (#[trigger] t[i] as u32) < 128 by {
            let a = "q\n"@;
            let pw = points_text(width_px);
            let b = " 0 0 "@;
            let ph = points_text(height_px);
            assert(t == a + pw + b + ph + " 0 0 cm\n/Im0 Do\nQ\n"@);
            let dw = decimal((w / 25) as nat);
            let dh = decimal((h / 25) as nat);
            if a.len() <= i < a.len() + pw.len() {
                let k = i - a.len();
                assert(t[i] == pw[k]);
                if k < dw.len() {
                    assert(pw[k] == dw[k]);
                }
            } else if a.len() + pw.len() + b.len() <= i < a.len() + pw.len() + b.len() + ph.len() {
                let k = i - a.len() - pw.len() - b.len();
                assert(t[i] == ph[k]);
                if k < dh.len() {
                    assert(ph[k] == dh[k]);
                }
            }
        }
    }
    string_bytes(s)
}

/// The entries of the image dictionary of an image, `flate` telling
/// whether its content is flate-compressed: a 1-bit `DeviceGray` image
/// whose bits 1 paint black (`/Decode [1 0]`) for a monochrome bitmap, an
/// 8-bit `DeviceRGB` `DCTDecode` image for a JPEG.
pub open spec fn image_entries(image: DecodedImageView, flate: bool) -> Seq<(Seq<char>, PdfValueView)> {
    match image {
        DecodedImageView::Mono { width_px, height_px, .. } => seq![
            ("Type"@, PdfValueView::Name("XObject"@)),
            ("Subtype"@, PdfValueView::Name("Image"@)),
            ("Width"@, PdfValueView::Integer(width_px as i64)),
            ("Height"@, PdfValueView::Integer(height_px as i64)),
            ("ColorSpace"@, PdfValueView::Name("DeviceGray"@)),
            ("BitsPerComponent"@, PdfValueView::Integer(1)),
            ("Decode"@, PdfValueView::Integers(seq![1i64, 0i64])),
        ] + if flate {
            seq![("Filter"@, PdfValueView::Name("FlateDecode"@))]
        } else {
            Seq::empty()
        },
        DecodedImageView::Jpeg { width_px, height_px, .. } => seq![
            ("Type"@, PdfValueView::Name("XObject"@)),
            ("Subtype"@, PdfValueView::Name("Image"@)),
            ("Width"@, PdfValueView::Integer(width_px as i64)),
            ("Height"@, PdfValueView::Integer(height_px as i64)),
            ("ColorSpace"@, PdfValueView::Name("DeviceRGB"@)),
            ("BitsPerComponent"@, PdfValueView::Integer(8)),
            ("Filter"@, PdfValueView::Name("DCTDecode"@)),
        ],
    }
}

/// The image dictionary of a monochrome bitmap maps bit 1 (ink, as the
/// JBIG decoders produce it) to black: its `/Decode` array is `[1 0]`,
/// whether or not the content is compressed.
pub proof fn lemma_mono_ink_paints_black(image: DecodedImageView, flate: bool)
    requires
        image is Mono,
    ensures
        entry_value(dict_after(image_entries(image, flate)), "Decode"@) == Some(
            PdfValueView::Integers(seq![1i64, 0i64]),
        ),
{
    let es = image_entries(image, flate);
    let decode = PdfValueView::Integers(seq![1i64, 0i64]);
    let base = match image {
        DecodedImageView::Mono { width_px, height_px, .. } => seq![
            ("Type"@, PdfValueView::Name("XObject"@)),
            ("Subtype"@, PdfValueView::Name("Image"@)),
            ("Width"@, PdfValueView::Integer(width_px as i64)),
            ("Height"@, PdfValueView::Integer(height_px as i64)),
            ("ColorSpace"@, PdfValueView::Name("DeviceGray"@)),
            ("BitsPerComponent"@, PdfValueView::Integer(1)),
            ("Decode"@, decode),
        ],
        _ => Seq::empty(),
    };
    assert(base.last() == ("Decode"@, decode));
    assert(dict_after(base) == put_entry(dict_after(base.drop_last()), "Decode"@, decode));
    lemma_put_entry_value(dict_after(base.drop_last()), "Decode"@, decode);
    if flate {
        assert(es =~= base + seq![("Filter"@, PdfValueView::Name("FlateDecode"@))]);
        assert(es.drop_last() =~= base);
        reveal_strlit("Filter");
        reveal_strlit("Decode");
        assert("Filter"@[0] != "Decode"@[0]);
        assert(dict_after(es) == put_entry(
            dict_after(base),
            "Filter"@,
            PdfValueView::Name("FlateDecode"@),
        ));
        lemma_put_entry_other(dict_after(base), "Filter"@, PdfValueView::Name("FlateDecode"@), "Decode"@);
    } else {
        assert(es =~= base);
    }
}

/// The image dictionary of a page image, by key: an image XObject of the
/// image's width and height; for a monochrome bitmap 1 bit per pixel in
/// `DeviceGray` with `/Decode [1 0]` (bit 1, ink, paints black) and
/// `/Filter /FlateDecode` exactly when the content is compressed; for a
/// JPEG 8 bits per component in `DeviceRGB` with `/Filter /DCTDecode`.
pub proof fn lemma_image_dictionary(image: DecodedImageView, flate: bool)
    ensures
        ({
            let d = dict_after(image_entries(image, flate));
            let (w, h) = match image {
                DecodedImageView::Mono { width_px, height_px, .. } => (width_px, height_px),
                DecodedImageView::Jpeg { width_px, height_px, .. } => (width_px, height_px),
            };
            &&& entry_value(d, "Type"@) == Some(PdfValueView::Name("XObject"@))
            &&& entry_value(d, "Subtype"@) == Some(PdfValueView::Name("Image"@))
            &&& entry_value(d, "Width"@) == Some(PdfValueView::Integer(w as i64))
            &&& entry_value(d, "Height"@) == Some(PdfValueView::Integer(h as i64))
            &&& image is Mono ==> {
                &&& entry_value(d, "ColorSpace"@) == Some(PdfValueView::Name("DeviceGray"@))
                &&& entry_value(d, "BitsPerComponent"@) == Some(PdfValueView::Integer(1))
                &&& entry_value(d, "Decode"@) == Some(PdfValueView::Integers(seq![1i64, 0i64]))
                &&& entry_value(d, "Filter"@) == (if flate {
                    Some(PdfValueView::Name("FlateDecode"@))
                } else {
                    None
                })
            }
            &&& image is Jpeg ==> {
                &&& entry_value(d, "ColorSpace"@) == Some(PdfValueView::Name("DeviceRGB"@))
                &&& entry_value(d, "BitsPerComponent"@) == Some(PdfValueView::Integer(8))
                &&& entry_value(d, "Filter"@) == Some(PdfValueView::Name("DCTDecode"@))
            }
        }),
{
    reveal_strlit("Type");
    reveal_strlit("Subtype");
    reveal_strlit("Width");
    reveal_strlit("Height");
    reveal_strlit("ColorSpace");
    reveal_strlit("BitsPerComponent");
    reveal_strlit("Decode");
    reveal_strlit("Filter");
    let es = image_entries(image, flate);
    assert("Height"@[0] != "Decode"@[0] && "Height"@[0] != "Filter"@[0] && "Decode"@[0]
        != "Filter"@[0]);
    assert forall|a: int, b: int| 0 <= a < b < es.len() implies es[a].0 != es[b].0 by {
        if es[a].0.len() == es[b].0.len() {
            assert(es[a].0[0] != es[b].0[0]);
        }
    }
    let d = dict_after(es);
    lemma_dict_after_distinct(es, 0);
    lemma_dict_after_distinct(es, 1);
    lemma_dict_after_distinct(es, 2);
    lemma_dict_after_distinct(es, 3);
    lemma_dict_after_distinct(es, 4);
    lemma_dict_after_distinct(es, 5);
    lemma_dict_after_distinct(es, 6);
    if image is Mono {
        if flate {
            lemma_dict_after_distinct(es, 7);
        } else {
            assert forall|a: int| 0 <= a < es.len() implies es[a].0 != "Filter"@ by {
                if es[a].0.len() == 6 {
                    assert(es[a].0[0] != "Filter"@[0]);
                }
            }
            lemma_dict_after_absent(es, "Filter"@);
        }
    }
}

/// Append one entry.
fn push_entry(entries: &mut Vec<(&'static str, PdfValue)>, key: &'static str, v: PdfValue)
    ensures
        entry_views(final(entries)@) == entry_views(old(entries)@) + seq![(key@, v@)],
{
    entries.push((key, v));
    proof {
        assert(entry_views(entries@) =~= entry_views(old(entries)@) + seq![(key@, v@)]);
    }
}

/// The entries of the image dictionary of an image: see
/// [`image_entries`].
pub fn image_dict_entries(image: &DecodedImage, flate: bool) -> (r: Vec<(&'static str, PdfValue)>)
    ensures
        entry_views(r@) == image_entries(image@, flate),
{
    let mut e: Vec<(&'static str, PdfValue)> = Vec::new();
    proof {
        assert(entry_views(e@) =~= Seq::<(Seq<char>, PdfValueView)>::empty());
    }
    push_entry(&mut e, "Type", PdfValue::Name(string_of("XObject")));
    push_entry(&mut e, "Subtype", PdfValue::Name(string_of("Image")));
    match image {
        DecodedImage::Mono { width_px, height_px, .. } => {
            push_entry(&mut e, "Width", PdfValue::Integer(*width_px as i64));
            push_entry(&mut e, "Height", PdfValue::Integer(*height_px as i64));
            push_entry(&mut e, "ColorSpace", PdfValue::Name(string_of("DeviceGray")));
            push_entry(&mut e, "BitsPerComponent", PdfValue::Integer(1));
            let decode: Vec<i64> = vec![1i64, 0i64];
            proof {
                assert(decode@ =~= seq![1i64, 0i64]);
            }
            push_entry(&mut e, "Decode", PdfValue::Integers(decode));
            if flate {
                push_entry(&mut e, "Filter", PdfValue::Name(string_of("FlateDecode")));
            }
        },
        DecodedImage::Jpeg { width_px, height_px, .. } => {
            push_entry(&mut e, "Width", PdfValue::Integer(*width_px as i64));
            push_entry(&mut e, "Height", PdfValue::Integer(*height_px as i64));
            push_entry(&mut e, "ColorSpace", PdfValue::Name(string_of("DeviceRGB")));
            push_entry(&mut e, "BitsPerComponent", PdfValue::Integer(8));
            push_entry(&mut e, "Filter", PdfValue::Name(string_of("DCTDecode")));
        },
    }
    proof {
        assert(entry_views(e@) =~= image_entries(image@, flate));
    }
    e
}

/// A dictionary holding the entries, set in order.
pub fn dictionary_of(entries: &Vec<(&'static str, PdfValue)>) -> (r: lopdf::Dictionary)
    ensures
        pdf_dict_entries(r) == Some(dict_after(entry_views(entries@))),
{
    let ghost es = entry_views(entries@);
    let mut d = new_dictionary();
    let mut i: usize = 0;
    while i < entries.len()
        invariant
            i <= entries@.len(),
            es == entry_views(entries@),
            pdf_dict_entries(d) == Some(dict_after(es.subrange(0, i as int))),
        decreases entries@.len() - i,
    {
        let (key, value) = &entries[i];
        let v = value.clone();
        dict_set(&mut d, key, v);
        proof {
            let sub = es.subrange(0, i + 1);
            assert(sub.drop_last() =~= es.subrange(0, i as int));
            assert(sub.last() == (key@, value@));
        }
        i += 1;
    }
    proof {
        assert(es.subrange(0, es.len() as int) =~= es);
    }
    d
}

/// Whether the content of the image stream of `image` cannot be made: a
/// monochrome bitmap with fewer bytes than its rows take.
pub open spec fn image_content_fails(image: DecodedImageView) -> bool {
    image matches DecodedImageView::Mono { width_px, height_px, bits } && bits.len()
        < mono_raster_len(width_px, height_px)
}

/// The message of the error about a monochrome bitmap that is too small.
pub open spec fn too_small_message(image: DecodedImageView) -> Seq<char> {
    match image {
        DecodedImageView::Mono { width_px, height_px, bits } => "mono bitmap is too small: got "@
            + decimal(bits.len()) + " bytes, expected at least "@ + decimal(
            mono_raster_len(width_px, height_px) as nat,
        ),
        _ => Seq::empty(),
    }
}

/// Object number `k` of generation 0.
pub open spec fn obj(k: int) -> (u32, u16) {
    (k as u32, 0u16)
}

/// The content of the image stream of an image whose content can be made,
/// and whether it is flate-compressed: see [`image_content_for`].
pub open spec fn image_stream(image: DecodedImageView) -> (Seq<u8>, bool) {
    match image {
        DecodedImageView::Mono { width_px, height_px, bits } => {
            let raw = bits.subrange(0, mono_raster_len(width_px, height_px));
            (stream_compressed(raw), stream_compressed(raw) != raw)
        },
        DecodedImageView::Jpeg { jpeg_bytes, .. } => (jpeg_bytes, false),
    }
}

/// The bytes of the content stream of the page of an image.
pub open spec fn page_content_of(image: DecodedImageView) -> Seq<u8> {
    let (w, h) = match image {
        DecodedImageView::Mono { width_px, height_px, .. } => (width_px, height_px),
        DecodedImageView::Jpeg { width_px, height_px, .. } => (width_px, height_px),
    };
    page_content(w, h).map_values(|c: char| c as u8)
}

/// A stream's dictionary entries once `/Length` is set to its content's
/// length.
pub open spec fn with_length(e: Seq<(Seq<char>, PdfValueView)>, content: Seq<u8>) -> Seq<
    (Seq<char>, PdfValueView),
> {
    put_entry(e, "Length"@, PdfValueView::Integer(content.len() as i64))
}

/// The image stream of a page: its dictionary and its content.
pub open spec fn image_stream_object(image: DecodedImageView) -> (
    Option<Seq<(Seq<char>, PdfValueView)>>,
    Seq<u8>,
) {
    let (content, flate) = image_stream(image);
    (Some(with_length(dict_after(image_entries(image, flate)), content)), content)
}

/// The content stream of a page: its dictionary and its content.
pub open spec fn content_stream_object(image: DecodedImageView) -> (
    Option<Seq<(Seq<char>, PdfValueView)>>,
    Seq<u8>,
) {
    (Some(with_length(Seq::empty(), page_content_of(image))), page_content_of(image))
}

/// The `/Resources` of a page: `/XObject` holding `/Im0`, the image.
pub open spec fn resources_entries(image_id: (u32, u16)) -> Seq<(Seq<char>, PdfValueView)> {
    put_entry(
        Seq::empty(),
        "XObject"@,
        PdfValueView::Dict(put_entry(Seq::empty(), "Im0"@, PdfValueView::Reference(image_id))),
    )
}

/// A page dictionary before its `/Parent` is set: `/Type /Page`, the
/// `/MediaBox`, `/Resources` and `/Contents`.
pub open spec fn page_entries(
    media_box: PdfValueView,
    resources_id: (u32, u16),
    content_id: (u32, u16),
) -> Seq<(Seq<char>, PdfValueView)> {
    put_entry(
        put_entry(
            put_entry(
                put_entry(Seq::empty(), "Type"@, PdfValueView::Name("Page"@)),
                "MediaBox"@,
                media_box,
            ),
            "Resources"@,
            PdfValueView::Reference(resources_id),
        ),
        "Contents"@,
        PdfValueView::Reference(content_id),
    )
}

/// Add one page that paints its image over the whole page, `media_box`
/// being its `/MediaBox`; the id of the page.
fn add_single_page(
    doc: &mut lopdf::Document,
    page_input: &PageInput,
    media_box: &lopdf::Object,
) -> (r: Result<(u32, u16), PdfError>)
    requires
        pdf_max_id(*old(doc)) + 4 <= u32::MAX,
    ensures
        image_content_fails(page_input.image@) ==> (r matches Err(PdfError::Assembly(m)) && m@
            == too_small_message(page_input.image@)) && *final(doc) == *old(doc),
        !image_content_fails(page_input.image@) ==> ({
            let m = pdf_max_id(*old(doc)) as int;
            let base = pdf_objects(*old(doc)).insert(obj(m + 1), None).insert(obj(m + 2), None).insert(
                obj(m + 3),
                Some(resources_entries(obj(m + 1))),
            );
            &&& r == Ok::<(u32, u16), PdfError>(obj(m + 4))
            &&& pdf_max_id(*final(doc)) == m + 4
            &&& pdf_objects(*final(doc)) == base.insert(obj(m + 4), pdf_objects(*final(doc))[obj(m + 4)])
            &&& pdf_value_of(*media_box) matches Some(v) ==> pdf_objects(*final(doc))[obj(m + 4)]
                == Some(page_entries(v, obj(m + 3), obj(m + 2)))
            &&& pdf_streams(*final(doc)) == pdf_streams(*old(doc)).insert(
                obj(m + 1),
                image_stream_object(page_input.image@),
            ).insert(obj(m + 2), content_stream_object(page_input.image@)).remove(obj(m + 3)).remove(
                obj(m + 4),
            )
            &&& pdf_trailer(*final(doc)) == pdf_trailer(*old(doc))
        }),
{
    let (content, flate) = match image_content_for(&page_input.image) {
        Ok(c) => c,
        Err(e) => {
            return Err(e);
        },
    };
    let entries = image_dict_entries(&page_input.image, flate);
    let image_id = add_stream(doc, dictionary_of(&entries), content);
    let width = page_input.image.width_px();
    let height = page_input.image.height_px();
    let stream = page_content_stream(width, height);
    let content_id = add_stream(doc, new_dictionary(), stream);
    let mut xobjects = new_dictionary();
    dict_set(&mut xobjects, "Im0", PdfValue::Reference(image_id));
    let mut resources = new_dictionary();
    dict_set_dict(&mut resources, "XObject", xobjects);
    let resources_id = add_dictionary(doc, resources);
    let mut page = new_dictionary();
    dict_set(&mut page, "Type", PdfValue::Name(string_of("Page")));
    dict_set_object(&mut page, "MediaBox", media_box);
    dict_set(&mut page, "Resources", PdfValue::Reference(resources_id));
    dict_set(&mut page, "Contents", PdfValue::Reference(content_id));
    Ok(add_dictionary(doc, page))
}

/// Object `id` of `objs` is a dictionary with the entries `e`.
pub open spec fn holds_dict(objs: PdfObjects, id: (u32, u16), e: Seq<(Seq<char>, PdfValueView)>) -> bool {
    objs.dom().contains(id) && objs[id] == Some(e)
}

/// Object `id` is the stream `st` (dictionary entries and content).
pub open spec fn holds_stream(
    streams: PdfStreams,
    id: (u32, u16),
    st: (Option<Seq<(Seq<char>, PdfValueView)>>, Seq<u8>),
) -> bool {
    streams.dom().contains(id) && streams[id] == st
}

/// The page dictionary of page `i`, with `/Parent` when there is one.
pub open spec fn page_dict_of(media_box: PdfValueView, i: int, parent: Option<(u32, u16)>) -> Seq<
    (Seq<char>, PdfValueView),
> {
    let e = page_entries(media_box, obj(4 + 4 * i), obj(3 + 4 * i));
    match parent {
        Some(p) => put_entry(e, "Parent"@, PdfValueView::Reference(p)),
        None => e,
    }
}

/// The objects of page `i` (0-based) of a built document: its image
/// stream (object `2 + 4i`), its content stream (`3 + 4i`), its resources
/// (`4 + 4i`) and its page dictionary (`5 + 4i`).
pub open spec fn page_built(
    objs: PdfObjects,
    streams: PdfStreams,
    image: DecodedImageView,
    media_box: PdfValueView,
    i: int,
    parent: Option<(u32, u16)>,
) -> bool {
    &&& holds_stream(streams, obj(2 + 4 * i), image_stream_object(image))
    &&& holds_stream(streams, obj(3 + 4 * i), content_stream_object(image))
    &&& holds_dict(objs, obj(4 + 4 * i), resources_entries(obj(2 + 4 * i)))
    &&& holds_dict(objs, obj(5 + 4 * i), page_dict_of(media_box, i, parent))
}

/// The `/Parent` of page `k` while the pages before `j` have theirs.
spec fn parent_below(k: int, j: int, p: (u32, u16)) -> Option<(u32, u16)> {
    if k < j {
        Some(p)
    } else {
        None
    }
}

/// The ids of the page dictionaries of a built document of `n` pages.
pub open spec fn page_kids(n: nat) -> Seq<(u32, u16)> {
    Seq::new(n, |i: int| obj(5 + 4 * i))
}

/// The `/Pages` dictionary of `n` pages: `/Type /Pages`, `/Kids`, `/Count`.
pub open spec fn pages_entries(n: nat) -> Seq<(Seq<char>, PdfValueView)> {
    put_entry(
        put_entry(
            put_entry(Seq::empty(), "Type"@, PdfValueView::Name("Pages"@)),
            "Kids"@,
            stored_value(PdfValueView::References(page_kids(n))),
        ),
        "Count"@,
        PdfValueView::Integer(n as i64),
    )
}

/// The catalog of a document of `n` pages: `/Type /Catalog`, `/Pages`,
/// and `/Outlines` (object `4 + 4n`) when there is an outline.
pub open spec fn catalog_entries(n: nat, with_outline: bool) -> Seq<(Seq<char>, PdfValueView)> {
    let c = put_entry(
        put_entry(Seq::empty(), "Type"@, PdfValueView::Name("Catalog"@)),
        "Pages"@,
        PdfValueView::Reference(obj(2 + 4 * (n as int))),
    );
    if with_outline {
        put_entry(c, "Outlines"@, PdfValueView::Reference(obj(4 + 4 * (n as int))))
    } else {
        c
    }
}

/// The trailer of a document of `n` pages: `/Info` and `/Root`.
pub open spec fn trailer_entries(n: nat) -> Seq<(Seq<char>, PdfValueView)> {
    put_entry(
        put_entry(Seq::empty(), "Info"@, PdfValueView::Reference(obj(1))),
        "Root"@,
        PdfValueView::Reference(obj(3 + 4 * (n as int))),
    )
}

/// The objects, streams and trailer of the document built from `pages`
/// (page `i` with `/MediaBox` `media_boxes[i]`) and `outlines`: an empty
/// `/Info` (object 1); each page ([`page_built`]) with `/Parent` the
/// `/Pages` dictionary (object `2 + 4n`), whose `/Kids` are the pages in
/// order; the catalog (`3 + 4n`); and the outline's objects as
/// [`outline_objects_spec`] gives them, under the ids from `4 + 4n` on,
/// each item's `/Dest` the page of its number.
pub open spec fn document_built(
    objs: PdfObjects,
    streams: PdfStreams,
    trailer: Option<Seq<(Seq<char>, PdfValueView)>>,
    pages: Seq<PageInputView>,
    media_boxes: Seq<PdfValueView>,
    outlines: Seq<OutlineEntryView>,
) -> bool {
    let n = pages.len();
    &&& trailer == Some(trailer_entries(n))
    &&& pages_part(objs, streams, pages, media_boxes)
    &&& holds_dict(objs, obj(3 + 4 * (n as int)), catalog_entries(n, outlines.len() > 0))
    &&& outlines.len() > 0 ==> outline_part(objs, n, outlines)
}

/// The `/Info` dictionary, the pages and the `/Pages` dictionary of a
/// built document: see [`document_built`].
pub open spec fn pages_part(
    objs: PdfObjects,
    streams: PdfStreams,
    pages: Seq<PageInputView>,
    media_boxes: Seq<PdfValueView>,
) -> bool {
    let n = pages.len();
    &&& holds_dict(objs, obj(1), Seq::empty())
    &&& forall|i: int|
        0 <= i < n ==> #[trigger] page_built(
            objs,
            streams,
            pages[i].image,
            media_boxes[i],
            i,
            Some(obj(2 + 4 * (n as int))),
        )
    &&& holds_dict(objs, obj(2 + 4 * (n as int)), pages_entries(n))
}

/// The outline objects of a built document of `n` pages: see
/// [`document_built`].
pub open spec fn outline_part(objs: PdfObjects, n: nat, outlines: Seq<OutlineEntryView>) -> bool {
    let os = outline_objects_spec(
        outlines,
        fresh_ids((3 + 4 * n) as u32, outlines.len()),
        numbered_pages(page_kids(n)),
    );
    forall|q: int| 0 <= q < os.len() ==> holds_dict(objs, (#[trigger] os[q]).id, dict_after(os[q].entries))
}

/// Building the outline in a document whose pages are built and whose
/// catalog is object `3 + 4n` keeps the pages, links the catalog to the
/// outline and writes the outline's objects.
proof fn lemma_outline_keeps_pages(
    before: PdfObjects,
    sbefore: PdfStreams,
    after: PdfObjects,
    safter: PdfStreams,
    m_after: u32,
    pages: Seq<PageInputView>,
    media_boxes: Seq<PdfValueView>,
    entries: Seq<OutlineEntryView>,
)
    requires
        entries.len() > 0,
        4 * pages.len() + entries.len() + 5 <= u32::MAX,
        pages_part(before, sbefore, pages, media_boxes),
        holds_dict(before, obj(3 + 4 * (pages.len() as int)), catalog_entries(pages.len(), false)),
        forall|t: (u32, u16)| #[trigger] before.dom().contains(t) ==> 1 <= t.0 <= 3 + 4 * pages.len(),
        outline_built(
            before,
            (3 + 4 * pages.len()) as u32,
            Some(obj(3 + 4 * (pages.len() as int))),
            after,
            m_after,
            entries,
            numbered_pages(page_kids(pages.len())),
        ),
        forall|t: (u32, u16)|
            t.0 <= 3 + 4 * pages.len() ==> #[trigger] same_stream_at(sbefore, safter, t),
    ensures
        pages_part(after, safter, pages, media_boxes),
        holds_dict(after, obj(3 + 4 * (pages.len() as int)), catalog_entries(pages.len(), true)),
        outline_part(after, pages.len(), entries),
{
    let n = pages.len();
    let m = (3 + 4 * n) as u32;
    let cat = obj(3 + 4 * (n as int));
    let ids = fresh_ids(m, entries.len());
    let nums = numbered_pages(page_kids(n));
    let os = outline_objects_spec(entries, ids, nums);
    let w = write_objects(before, os);
    lemma_outline_object_ids(entries, ids, nums);
    assert forall|k: int| 0 <= k < ids.len() implies !before.dom().contains(#[trigger] ids[k]) by {
        assert(ids[k].0 == m + 1 + k);
    }
    assert(fresh_setting(before, ids, Some(cat)));
    assert forall|i: int| 0 <= i < os.len() implies (#[trigger] os[i]).id.0 > m by {
        if i < entries.len() {
            assert(os[i].id == ids[i + 1]);
        } else {
            assert(os[i].id == ids[0]);
        }
    }
    assert forall|x: (u32, u16)| before.dom().contains(x) && x != cat implies #[trigger] after.dom().contains(x)
        && after[x] == before[x] by {
        assert forall|i: int| 0 <= i < os.len() implies (#[trigger] os[i]).id != x by {
            assert(os[i].id.0 > m);
        }
        lemma_write_objects_frame(before, os, x);
    }
    assert(obj(1).0 == 1 && cat.0 == 3 + 4 * n && obj(2 + 4 * (n as int)).0 == 2 + 4 * n);
    assert(holds_dict(before, obj(1), Seq::empty()));
    assert(before.dom().contains(obj(1)));
    assert(obj(1) != cat);
    assert(after.dom().contains(obj(1)));
    assert(holds_dict(after, obj(1), Seq::empty()));
    assert(holds_dict(before, obj(2 + 4 * (n as int)), pages_entries(n)));
    assert(obj(2 + 4 * (n as int)) != cat);
    assert(after.dom().contains(obj(2 + 4 * (n as int))));
    assert(holds_dict(after, obj(2 + 4 * (n as int)), pages_entries(n)));
    assert forall|i: int| 0 <= i < n implies #[trigger] page_built(
        after,
        safter,
        pages[i].image,
        media_boxes[i],
        i,
        Some(obj(2 + 4 * (n as int))),
    ) by {
        assert(page_built(before, sbefore, pages[i].image, media_boxes[i], i, Some(obj(2 + 4 * (n as int)))));
        assert(obj(4 + 4 * i).0 == 4 + 4 * i && obj(5 + 4 * i).0 == 5 + 4 * i);
        assert(obj(4 + 4 * i) != cat && obj(5 + 4 * i) != cat);
        assert(after.dom().contains(obj(4 + 4 * i)) && after.dom().contains(obj(5 + 4 * i)));
        assert(same_stream_at(sbefore, safter, obj(2 + 4 * i)));
        assert(same_stream_at(sbefore, safter, obj(3 + 4 * i)));
    }
    assert(ids[0] == obj(4 + 4 * (n as int)));
    assert forall|q: int| 0 <= q < os.len() implies holds_dict(
        after,
        (#[trigger] os[q]).id,
        dict_after(os[q].entries),
    ) by {
        assert forall|i: int| q < i < os.len() implies (#[trigger] os[i]).id != os[q].id by {
            if i < entries.len() {
                assert(os[i].id == ids[i + 1]);
                assert(os[q].id == ids[q + 1]);
            } else {
                assert(os[i].id == ids[0]);
                assert(os[q].id == ids[q + 1]);
            }
        }
        lemma_write_objects_at(before, os, q);
        assert(os[q].id != cat);
    }
}

/// The views of the pages.
pub open spec fn page_views(pages: Seq<PageInput>) -> Seq<PageInputView> {
    pages.map_values(|p: PageInput| p@)
}

/// The media boxes as values, where each has a description.
pub open spec fn media_box_values(media_boxes: Seq<lopdf::Object>) -> Seq<PdfValueView> {
    media_boxes.map_values(|o: lopdf::Object| pdf_value_of(o)->Some_0)
}

/// Every media box has a description ([`pdf_value_of`]): an array of
/// numbers has one.
pub open spec fn media_boxes_described(media_boxes: Seq<lopdf::Object>) -> bool {
    forall|i: int| 0 <= i < media_boxes.len() ==> (#[trigger] pdf_value_of(media_boxes[i])) is Some
}

/// Build a new PDF from the pages and the outline: an `/Info`
/// dictionary, one page per input (painting its image over the whole
/// page, `media_boxes[i]` the `/MediaBox` of page `i`), the `/Pages`
/// tree, the catalog, and the outline tree when there is one. The bytes
/// of the document, which lopdf writes for a document whose objects are
/// those [`document_built`] gives.
///
/// # Errors
/// The first page whose image content cannot be made stops the build:
/// [`PdfError::Assembly`] for a monochrome bitmap that is too small; the
/// build succeeds otherwise. There must be room for the document's object
/// ids (`u32`).
pub fn build_document(
    pages: &[PageInput],
    outlines: &[OutlineEntry],
    media_boxes: &Vec<lopdf::Object>,
) -> (r: Result<Vec<u8>, PdfError>)
    requires
        media_boxes@.len() == pages@.len(),
        4 * pages@.len() + outlines@.len() + 5 <= u32::MAX,
    ensures
        r matches Err(e) ==> e is Assembly,
        (forall|i: int| 0 <= i < pages@.len() ==> !image_content_fails(#[trigger] pages@[i].image@))
            ==> r is Ok,
        r matches Err(PdfError::Assembly(m)) ==> exists|i: int|
            0 <= i < pages@.len() && image_content_fails(#[trigger] pages@[i].image@) && m@
                == too_small_message(pages@[i].image@) && forall|j: int|
                0 <= j < i ==> !image_content_fails(#[trigger] pages@[j].image@),
        (exists|i: int| 0 <= i < pages@.len() && image_content_fails(#[trigger] pages@[i].image@))
            ==> r is Err,
        r matches Ok(b) ==> occurs_at(b@, pdf_magic(), 0) && occurs_at(b@, eof_marker(), b@.len() - 5),
        r matches Ok(b) ==> exists|d: lopdf::Document|
            #[trigger] pdf_serialized(d) == b@ && (media_boxes_described(media_boxes@) ==> document_built(
                pdf_objects(d),
                pdf_streams(d),
                pdf_trailer(d),
                page_views(pages@),
                media_box_values(media_boxes@),
                outline_views(outlines@),
            )),
{
    let ghost n = pages@.len();
    let ghost pv = page_views(pages@);
    let ghost mbv = media_box_values(media_boxes@);
    let ghost described = media_boxes_described(media_boxes@);
    let ghost info_entries = put_entry(Seq::empty(), "Info"@, PdfValueView::Reference(obj(1)));
    let mut doc = new_document("1.4");
    let info_id = add_dictionary(&mut doc, new_dictionary());
    dict_set(trailer_mut(&mut doc), "Info", PdfValue::Reference(info_id));
    let mut page_ids: Vec<(u32, (u32, u16))> = Vec::new();
    let mut kids: Vec<(u32, u16)> = Vec::new();
    let mut i: usize = 0;
    proof {
        assert(kids@ =~= page_kids(0));
        assert(page_ids@ =~= numbered_pages(page_kids(0)));
    }
    while i < pages.len()
        invariant
            i <= pages@.len(),
            n == pages@.len(),
            pv == page_views(pages@),
            mbv == media_box_values(media_boxes@),
            described == media_boxes_described(media_boxes@),
            info_entries == put_entry(Seq::empty(), "Info"@, PdfValueView::Reference(obj(1))),
            media_boxes@.len() == pages@.len(),
            4 * pages@.len() + outlines@.len() + 5 <= u32::MAX,
            pdf_max_id(doc) == 1 + 4 * i,
            forall|t: (u32, u16)| #[trigger] pdf_objects(doc).dom().contains(t) ==> 1 <= t.0 <= 1 + 4 * i,
            pdf_trailer(doc) == Some(info_entries),
            holds_dict(pdf_objects(doc), obj(1), Seq::empty()),
            kids@ == page_kids(i as nat),
            page_ids@ == numbered_pages(page_kids(i as nat)),
            forall|j: int| 0 <= j < i ==> !image_content_fails(#[trigger] pages@[j].image@),
            described ==> forall|j: int|
                0 <= j < i ==> #[trigger] page_built(
                    pdf_objects(doc),
                    pdf_streams(doc),
                    pv[j].image,
                    mbv[j],
                    j,
                    None,
                ),
        decreases pages@.len() - i,
    {
        let ghost objs0 = pdf_objects(doc);
        let ghost streams0 = pdf_streams(doc);
        let page_id = match add_single_page(&mut doc, &pages[i], &media_boxes[i]) {
            Ok(id) => id,
            Err(e) => {
                proof {
                    assert forall|k: int|
                        0 <= k < pages@.len() && image_content_fails(
                            #[trigger] pages@[k].image@,
                        ) && !image_content_fails(pages@[i as int].image@) implies k > i by {}
                }
                return Err(e);
            },
        };
        proof {
            let m = 1 + 4 * i;
            assert(pv[i as int] == pages@[i as int]@);
            if described {
                assert(pdf_value_of(media_boxes@[i as int]) is Some);
                assert(mbv[i as int] == pdf_value_of(media_boxes@[i as int])->Some_0);
            }
            assert forall|t: (u32, u16)| #[trigger] pdf_objects(doc).dom().contains(t) implies 1 <= t.0
                <= 1 + 4 * (i + 1) by {
                if !objs0.dom().contains(t) {
                    assert(t == obj(m + 1) || t == obj(m + 2) || t == obj(m + 3) || t == obj(m + 4));
                }
            }
            if described {
                assert forall|j: int| 0 <= j < i + 1 implies #[trigger] page_built(
                    pdf_objects(doc),
                    pdf_streams(doc),
                    pv[j].image,
                    mbv[j],
                    j,
                    None,
                ) by {
                    if j < i {
                        assert(page_built(objs0, streams0, pv[j].image, mbv[j], j, None));
                        assert(obj(2 + 4 * j) != obj(m + 3) && obj(2 + 4 * j) != obj(m + 4));
                        assert(obj(3 + 4 * j) != obj(m + 3) && obj(3 + 4 * j) != obj(m + 4));
                        assert(obj(2 + 4 * j) != obj(m + 1) && obj(2 + 4 * j) != obj(m + 2));
                        assert(obj(3 + 4 * j) != obj(m + 1) && obj(3 + 4 * j) != obj(m + 2));
                    }
                }
            }
        }
        let page_num = (i + 1) as u32;
        page_ids.push((page_num, page_id));
        kids.push(page_id);
        proof {
            assert(kids@ =~= page_kids((i + 1) as nat));
            assert(page_ids@ =~= numbered_pages(page_kids((i + 1) as nat)));
        }
        i += 1;
    }
    let pages_id = new_object_id(&mut doc);
    let mut pages_dict = new_dictionary();
    dict_set(&mut pages_dict, "Type", PdfValue::Name(string_of("Pages")));
    let count = kids.len() as i64;
    dict_set(&mut pages_dict, "Kids", PdfValue::References(kids));
    dict_set(&mut pages_dict, "Count", PdfValue::Integer(count));
    let ghost objs1 = pdf_objects(doc);
    let ghost streams1 = pdf_streams(doc);
    set_object(&mut doc, pages_id, pages_dict);
    proof {
        assert(pages_id == obj(2 + 4 * (n as int)));
        if described {
            assert forall|j: int| 0 <= j < n implies #[trigger] page_built(
                pdf_objects(doc),
                pdf_streams(doc),
                pv[j].image,
                mbv[j],
                j,
                None,
            ) by {
                assert(page_built(objs1, streams1, pv[j].image, mbv[j], j, None));
            }
        }
    }
    let mut j: usize = 0;
    while j < page_ids.len()
        invariant
            j <= page_ids@.len(),
            n == pages@.len(),
            page_ids@.len() == pages@.len(),
            page_ids@ == numbered_pages(page_kids(n)),
            pages_id == obj(2 + 4 * (n as int)),
            4 * pages@.len() + outlines@.len() + 5 <= u32::MAX,
            pdf_max_id(doc) == 2 + 4 * pages@.len(),
            forall|t: (u32, u16)| #[trigger] pdf_objects(doc).dom().contains(t) ==> 1 <= t.0 <= 2 + 4 * n,
            pdf_trailer(doc) == Some(info_entries),
            described ==> holds_dict(pdf_objects(doc), obj(1), Seq::empty()),
            described ==> holds_dict(pdf_objects(doc), obj(2 + 4 * (n as int)), pages_entries(n)),
            described ==> forall|k: int|
                0 <= k < n ==> #[trigger] page_built(
                    pdf_objects(doc),
                    pdf_streams(doc),
                    pv[k].image,
                    mbv[k],
                    k,
                    parent_below(k, j as int, obj(2 + 4 * (n as int))),
                ),
        decreases page_ids@.len() - j,
    {
        let ghost objs2 = pdf_objects(doc);
        let ghost streams2 = pdf_streams(doc);
        proof {
            if described {
                assert(page_built(
                    objs2,
                    streams2,
                    pv[j as int].image,
                    mbv[j as int],
                    j as int,
                    parent_below(j as int, j as int, obj(2 + 4 * (n as int))),
                ));
            }
        }
        match object_dict_mut(&mut doc, page_ids[j].1) {
            Some(page) => {
                dict_set(page, "Parent", PdfValue::Reference(pages_id));
            },
            None => {},
        }
        proof {
            assert forall|t: (u32, u16)| #[trigger] pdf_objects(doc).dom().contains(t) implies 1 <= t.0
                <= 2 + 4 * n by {
                assert(objs2.dom().contains(t));
            }
            if described {
                let pid = obj(5 + 4 * j);
                assert(page_ids@[j as int].1 == pid);
                assert(pdf_objects(doc) == objs2.insert(pid, pdf_objects(doc)[pid]));
                assert forall|k: int| 0 <= k < n implies #[trigger] page_built(
                    pdf_objects(doc),
                    pdf_streams(doc),
                    pv[k].image,
                    mbv[k],
                    k,
                    parent_below(k, j + 1, obj(2 + 4 * (n as int))),
                ) by {
                    assert(page_built(
                        objs2,
                        streams2,
                        pv[k].image,
                        mbv[k],
                        k,
                        parent_below(k, j as int, obj(2 + 4 * (n as int))),
                    ));
                    if k != j {
                        assert(obj(4 + 4 * k) != pid && obj(5 + 4 * k) != pid);
                    }
                }
            }
        }
        j += 1;
    }
    let mut catalog = new_dictionary();
    dict_set(&mut catalog, "Type", PdfValue::Name(string_of("Catalog")));
    dict_set(&mut catalog, "Pages", PdfValue::Reference(pages_id));
    let ghost objs3 = pdf_objects(doc);
    let ghost streams3 = pdf_streams(doc);
    let catalog_id = add_dictionary(&mut doc, catalog);
    dict_set(trailer_mut(&mut doc), "Root", PdfValue::Reference(catalog_id));
    proof {
        assert(catalog_id == obj(3 + 4 * (n as int)));
        lemma_put_entry_value(info_entries, "Root"@, PdfValueView::Reference(catalog_id));
        assert(pdf_trailer(doc) == Some(trailer_entries(n)));
        assert(pdf_objects(doc)[catalog_id] is Some);
        assert forall|t: (u32, u16)| #[trigger] pdf_objects(doc).dom().contains(t) implies 1 <= t.0
            <= 3 + 4 * n by {
            if t != catalog_id {
                assert(objs3.dom().contains(t));
            }
        }
        if described {
            assert forall|k: int| 0 <= k < n implies #[trigger] page_built(
                pdf_objects(doc),
                pdf_streams(doc),
                pv[k].image,
                mbv[k],
                k,
                Some(obj(2 + 4 * (n as int))),
            ) by {
                assert(page_built(objs3, streams3, pv[k].image, mbv[k], k, parent_below(k, n as int, obj(2 + 4 * (n as int)))));
            }
        }
    }
    let ghost objs4 = pdf_objects(doc);
    let ghost streams4 = pdf_streams(doc);
    if outlines.len() > 0 {
        match build_outline_dict(&mut doc, outlines, &page_ids) {
            Ok(()) => {},
            Err(e) => {
                return Err(e);
            },
        }
        proof {
            if described {
                lemma_outline_keeps_pages(
                    objs4,
                    streams4,
                    pdf_objects(doc),
                    pdf_streams(doc),
                    pdf_max_id(doc),
                    pv,
                    mbv,
                    outline_views(outlines@),
                );
            }
        }
    }
    let ghost d = doc;
    match save_pdf(&mut doc) {
        Ok(buf) => {
            proof {
                assert(pdf_serialized(d) == buf@);
                if described {
                    assert(document_built(
                        pdf_objects(d),
                        pdf_streams(d),
                        pdf_trailer(d),
                        pv,
                        mbv,
                        outline_views(outlines@),
                    ));
                }
            }
            Ok(buf)
        },
        Err(e) => Err(PdfError::Io(e)),
    }
}

} // verus!
