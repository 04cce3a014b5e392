//! Calls into std and the outside crates that the library cannot verify,
//! each with the contract that the rest of the library relies on.

use vstd::prelude::*;
use crate::bytes::occurs_at;
use crate::caj::{eof_marker, pdf_magic};
use crate::jbig2::{PixelEvent, PixelLog};
use crate::pdf::{entry_value, put_entry, PdfObjects, PdfStreams, PdfValueView};

verus! {

/// `std::io::Error`, carried unchanged by `CajError::Io`.
#[verifier::external_type_specification]
#[verifier::external_body]
pub struct ExIoError(std::io::Error);

/// `std::path::PathBuf`, the path a document was opened from.
#[verifier::external_type_specification]
#[verifier::external_body]
pub struct ExPathBuf(std::path::PathBuf);

/// `PathBuf::clone` gives a path equal to the one cloned.
pub assume_specification[ <std::path::PathBuf as Clone>::clone ](p: &std::path::PathBuf) -> (r:
    std::path::PathBuf)
    ensures
        r == *p,
;

/// `String::push` appends one character to the string.
pub assume_specification[ String::push ](s: &mut String, ch: char)
    ensures
        final(s)@ == old(s)@.push(ch),
;

/// The error that `std::io::Read::read_exact` reports when the input ends
/// before the requested bytes: kind `UnexpectedEof`, message
/// "failed to fill whole buffer". Nothing is stated of the opaque value.
#[verifier::external_body]
pub(crate) fn unexpected_eof() -> std::io::Error {
    std::io::Error::new(std::io::ErrorKind::UnexpectedEof, "failed to fill whole buffer")
}

/// The text and the "had malformed sequences" flag that
/// `encoding_rs::GBK.decode` gives for these bytes (BOM sniffing included).
pub uninterp spec fn gbk_decoded(bytes: Seq<u8>) -> (Seq<char>, bool);

/// Decodes bytes as GBK with `encoding_rs::Encoding::decode` on
/// `encoding_rs::GBK`. Claims: the text and the error flag are the ones
/// named by `gbk_decoded`; and bytes below 0x80 decode to the same code
/// points without error (GBK is ASCII-compatible, and no BOM is ASCII).
#[verifier::external_body]
pub(crate) fn gbk_decode(bytes: &[u8]) -> (r: (String, bool))
    ensures
        r.0@ == gbk_decoded(bytes@).0,
        r.1 == gbk_decoded(bytes@).1,
        (forall|i: int| 0 <= i < bytes@.len() ==> #[trigger] bytes@[i] < 0x80) ==> (!r.1 && r.0@
            =~= Seq::new(bytes@.len(), |i: int| bytes@[i] as char)),
{
    let (text, _, had_errors) = encoding_rs::GBK.decode(bytes);
    (text.into_owned(), had_errors)
}

/// What `flate2::read::ZlibDecoder`, drained by `std::io::copy`, gives for
/// these bytes: the inflated bytes, or the text of the I/O error.
pub uninterp spec fn zlib_inflated(data: Seq<u8>) -> Result<Seq<u8>, Seq<char>>;

/// Inflates a zlib stream with `flate2::read::ZlibDecoder` read to its end
/// by `std::io::copy`. Claims: the bytes, or the error's text, are the
/// ones named by `zlib_inflated`.
#[verifier::external_body]
pub(crate) fn zlib_inflate(data: &[u8]) -> (r: Result<Vec<u8>, String>)
    ensures
        r is Ok <==> zlib_inflated(data@) is Ok,
        r matches Ok(v) ==> v@ == zlib_inflated(data@)->Ok_0,
        r matches Err(m) ==> m@ == zlib_inflated(data@)->Err_0,
{
    let mut decoder = flate2::read::ZlibDecoder::new(data);
    let mut out = Vec::new();
    match std::io::copy(&mut decoder, &mut out) {
        Ok(_) => Ok(out),
        Err(e) => Err(e.to_string()),
    }
}

/// What `pdfluent_jbig2::decode_embedded` (with no global segments) makes
/// of an embedded JBIG2 stream: the text of its error, or the width and
/// height of the image and what `Image::decode` hands its decoder, call by
/// call, until it returns (having finished or stopped on an error).
pub uninterp spec fn jbig2_decoded(stream: Seq<u8>) -> Result<(u32, u32, Seq<PixelEvent>), Seq<char>>;

/// Parses an embedded JBIG2 stream with `pdfluent_jbig2::decode_embedded`
/// and, when that succeeds, decodes the image with `Image::decode` into a
/// [`PixelLog`], keeping what was decoded whether or not `decode` ends in
/// an error. Claims: the outcome is the one named by `jbig2_decoded`, and a
/// parsed image is never empty (the crate refuses a zero width or height).
#[verifier::external_body]
pub(crate) fn jbig2_decode(stream: &[u8]) -> (r: Result<(u32, u32, Vec<PixelEvent>), String>)
    ensures
        r is Ok <==> jbig2_decoded(stream@) is Ok,
        r matches Err(m) ==> m@ == jbig2_decoded(stream@)->Err_0,
        r matches Ok(d) ==> {
            let n = jbig2_decoded(stream@)->Ok_0;
            &&& d.0 == n.0
            &&& d.1 == n.1
            &&& d.0 > 0
            &&& d.1 > 0
            &&& d.2@ == n.2
        },
{
    match pdfluent_jbig2::decode_embedded(stream, None) {
        Err(e) => Err(e.to_string()),
        Ok(img) => {
            let mut log = PixelLog { events: Vec::new() };
            let _ = img.decode(&mut log);
            Ok((img.width(), img.height(), log.events))
        },
    }
}

/// `lopdf::Document`, a PDF document held as objects.
#[verifier::external_type_specification]
#[verifier::external_body]
pub struct ExPdfDocument(lopdf::Document);

/// `lopdf::Dictionary`, a PDF dictionary.
#[verifier::external_type_specification]
#[verifier::external_body]
pub struct ExPdfDictionary(lopdf::Dictionary);

/// `lopdf::Error`, why lopdf could not read or build a document.
#[verifier::external_type_specification]
#[verifier::external_body]
pub struct ExPdfError(lopdf::Error);

/// The entries of a `lopdf::Dictionary` in their order, each key as
/// text and each value as [`pdf_value_of`] describes it; `None` when a key
/// is not UTF-8 text or a value has no description.
pub uninterp spec fn pdf_dict_entries(d: lopdf::Dictionary) -> Option<
    Seq<(Seq<char>, PdfValueView)>,
>;

/// A `lopdf::Object` as a [`PdfValueView`]: a reference, a name, an
/// integer, a literal string, an array of integers or of references (an
/// empty array counts as an empty array of integers), the array `[page
/// /XYZ null null null]` as a destination, a dictionary as `Dict` of its
/// entries ([`pdf_dict_entries`]), and any other object as `Other`; `None`
/// when a name or string that is the value, or a key or value of a
/// dictionary that is the value, is not UTF-8 text.
pub uninterp spec fn pdf_value_of(o: lopdf::Object) -> Option<PdfValueView>;

/// The streams of a `lopdf::Document` by id: the entries of each stream's
/// dictionary (as [`pdf_dict_entries`] gives them) and its content.
/// [`pdf_objects`] gives `None` for these objects.
pub uninterp spec fn pdf_streams(doc: lopdf::Document) -> PdfStreams;

/// The entries of the trailer dictionary of a `lopdf::Document`, as
/// [`pdf_dict_entries`] gives them.
pub uninterp spec fn pdf_trailer(doc: lopdf::Document) -> Option<Seq<(Seq<char>, PdfValueView)>>;

/// The objects of a `lopdf::Document` by id: for a dictionary, what
/// [`pdf_dict_entries`] gives of it; `None` for any other object (a
/// stream is described by [`pdf_streams`]).
pub uninterp spec fn pdf_objects(doc: lopdf::Document) -> Map<
    (u32, u16),
    Option<Seq<(Seq<char>, PdfValueView)>>,
>;

/// The counter of object ids of a `lopdf::Document` (its `max_id`): the
/// next id it hands out is one more.
pub uninterp spec fn pdf_max_id(doc: lopdf::Document) -> u32;

/// The object that `lopdf::Document::catalog_mut` gives, the one the
/// trailer's `/Root` reference leads to after references are followed,
/// when that object is a dictionary; `None` when `catalog_mut` fails.
pub uninterp spec fn pdf_catalog(doc: lopdf::Document) -> Option<(u32, u16)>;

/// The pages of a `lopdf::Document` in the order of its page tree (what
/// `Document::page_iter` yields), by object id.
pub uninterp spec fn pdf_page_ids(doc: lopdf::Document) -> Seq<(u32, u16)>;

/// What `lopdf::Document::load_mem` makes of these bytes: `None` when it
/// fails; otherwise the objects, the counter of ids, the catalog, the
/// pages and the streams of the document it reads, as [`pdf_objects`],
/// [`pdf_max_id`], [`pdf_catalog`], [`pdf_page_ids`] and [`pdf_streams`]
/// describe a document.
pub uninterp spec fn pdf_loaded(bytes: Seq<u8>) -> Option<
    (PdfObjects, u32, Option<(u32, u16)>, Seq<(u32, u16)>, PdfStreams),
>;

/// The bytes that `lopdf::Document::save_to` writes for a document.
pub uninterp spec fn pdf_serialized(doc: lopdf::Document) -> Seq<u8>;

/// The counter of object ids of a document, its `max_id` field.
#[verifier::external_body]
pub(crate) fn max_object_id(doc: &lopdf::Document) -> (r: u32)
    ensures
        r == pdf_max_id(*doc),
{
    doc.max_id
}

/// Parses a PDF held in memory with `lopdf::Document::load_mem`. Claims:
/// it succeeds exactly when [`pdf_loaded`] is `Some`, and the document is
/// then the one that name describes. Nothing is stated of the error.
/// lopdf is taken without its `rayon` feature, so the objects are read one
/// after the other and the document depends on the bytes alone. A
/// cross-reference that names object `u32::MAX` makes the parse fail
/// (`checked_add`) or, when the table is rebuilt by scanning, is capped
/// (`saturating_add`); the counter does not overflow.
#[verifier::external_body]
pub(crate) fn load_pdf(bytes: &[u8]) -> (r: Result<lopdf::Document, lopdf::Error>)
    ensures
        r is Ok <==> pdf_loaded(bytes@) is Some,
        r matches Ok(d) ==> pdf_loaded(bytes@) == Some(
            (pdf_objects(d), pdf_max_id(d), pdf_catalog(d), pdf_page_ids(d), pdf_streams(d)),
        ),
{
    lopdf::Document::load_mem(bytes)
}

/// The pages of a document, with `lopdf::Document::get_pages`: each
/// page number paired with the object id of its page dictionary, in the
/// order of the numbers. Claims: with fewer than `u32::MAX` pages, page
/// `k + 1` is the `k`-th of the page tree (`get_pages` numbers
/// `page_iter` from 1; the map is walked in key order).
#[verifier::external_body]
pub(crate) fn page_ids(doc: &lopdf::Document) -> (r: Vec<(u32, (u32, u16))>)
    ensures
        pdf_page_ids(*doc).len() < u32::MAX ==> r@ == Seq::new(
            pdf_page_ids(*doc).len(),
            |k: int| ((k + 1) as u32, pdf_page_ids(*doc)[k]),
        ),
{
    doc.get_pages().into_iter().collect()
}

/// A fresh object id of the document, with
/// `lopdf::Document::new_object_id`, which increments `max_id` and panics
/// at `u32::MAX` (so the counter must be below it). Claims: the id is the counter plus
/// one with generation 0, the counter moves up by one, and the objects and
/// the catalog are left as they are.
#[verifier::external_body]
pub(crate) fn new_object_id(doc: &mut lopdf::Document) -> (r: (u32, u16))
    requires
        pdf_max_id(*old(doc)) < u32::MAX,
    ensures
        r == ((pdf_max_id(*old(doc)) + 1) as u32, 0u16),
        pdf_max_id(*final(doc)) == pdf_max_id(*old(doc)) + 1,
        pdf_objects(*final(doc)) == pdf_objects(*old(doc)),
        pdf_streams(*final(doc)) == pdf_streams(*old(doc)),
        pdf_trailer(*final(doc)) == pdf_trailer(*old(doc)),
        pdf_catalog(*final(doc)) == pdf_catalog(*old(doc)),
{
    doc.new_object_id()
}

/// An empty dictionary, with `lopdf::Dictionary::new`. Claims: it has no
/// entries.
#[verifier::external_body]
pub(crate) fn new_dictionary() -> (r: lopdf::Dictionary)
    ensures
        pdf_dict_entries(r) == Some(Seq::<(Seq<char>, PdfValueView)>::empty()),
{
    lopdf::Dictionary::new()
}

/// Sets `key` of the dictionary to a reference to object `id`, with
/// `lopdf::Dictionary::set`. Claims, for a dictionary that
/// [`pdf_dict_entries`] describes: the entry is set as [`put_entry`]
/// says (an `IndexMap` insert). The same holds of the setters below.
#[verifier::external_body]
pub(crate) fn set_reference(d: &mut lopdf::Dictionary, key: &str, id: (u32, u16))
    ensures
        pdf_dict_entries(*old(d)) matches Some(e) ==> pdf_dict_entries(*final(d)) == Some(
            put_entry(e, key@, PdfValueView::Reference(id)),
        ),
{
    d.set(key, lopdf::Object::Reference(id));
}

/// Sets `key` of the dictionary to the name `n`, with
/// `lopdf::Dictionary::set`.
#[verifier::external_body]
pub(crate) fn set_name(d: &mut lopdf::Dictionary, key: &str, n: String)
    ensures
        pdf_dict_entries(*old(d)) matches Some(e) ==> pdf_dict_entries(*final(d)) == Some(
            put_entry(e, key@, PdfValueView::Name(n@)),
        ),
{
    d.set(key, lopdf::Object::Name(n.into_bytes()));
}

/// Sets `key` of the dictionary to the integer `v`, with
/// `lopdf::Dictionary::set`.
#[verifier::external_body]
pub(crate) fn set_integer(d: &mut lopdf::Dictionary, key: &str, v: i64)
    ensures
        pdf_dict_entries(*old(d)) matches Some(e) ==> pdf_dict_entries(*final(d)) == Some(
            put_entry(e, key@, PdfValueView::Integer(v)),
        ),
{
    d.set(key, lopdf::Object::Integer(v));
}

/// Sets `key` of the dictionary to the literal string `t`, with
/// `lopdf::Dictionary::set`.
#[verifier::external_body]
pub(crate) fn set_text(d: &mut lopdf::Dictionary, key: &str, t: String)
    ensures
        pdf_dict_entries(*old(d)) matches Some(e) ==> pdf_dict_entries(*final(d)) == Some(
            put_entry(e, key@, PdfValueView::Text(t@)),
        ),
{
    d.set(key, lopdf::Object::String(t.into_bytes(), lopdf::StringFormat::Literal));
}

/// Sets `key` of the dictionary to an array of the integers, with
/// `lopdf::Dictionary::set`.
#[verifier::external_body]
pub(crate) fn set_integers(d: &mut lopdf::Dictionary, key: &str, v: Vec<i64>)
    ensures
        pdf_dict_entries(*old(d)) matches Some(e) ==> pdf_dict_entries(*final(d)) == Some(
            put_entry(e, key@, PdfValueView::Integers(v@)),
        ),
{
    d.set(key, lopdf::Object::Array(v.into_iter().map(lopdf::Object::Integer).collect()));
}

/// Sets `key` of the dictionary to an array of references to the
/// objects, with `lopdf::Dictionary::set`.
#[verifier::external_body]
pub(crate) fn set_references(d: &mut lopdf::Dictionary, key: &str, v: Vec<(u32, u16)>)
    ensures
        pdf_dict_entries(*old(d)) matches Some(e) ==> pdf_dict_entries(*final(d)) == Some(
            put_entry(e, key@, if v@.len() == 0 {
                PdfValueView::Integers(Seq::empty())
            } else {
                PdfValueView::References(v@)
            }),
        ),
{
    d.set(key, lopdf::Object::Array(v.into_iter().map(lopdf::Object::Reference).collect()));
}

/// Sets `key` of the dictionary to the destination "top of page `page`"
/// (`[page /XYZ null null null]`), with `lopdf::Dictionary::set`.
#[verifier::external_body]
pub(crate) fn set_destination(d: &mut lopdf::Dictionary, key: &str, page: (u32, u16))
    ensures
        pdf_dict_entries(*old(d)) matches Some(e) ==> pdf_dict_entries(*final(d)) == Some(
            put_entry(e, key@, PdfValueView::Destination(page)),
        ),
{
    d.set(key, vec![
        lopdf::Object::Reference(page),
        lopdf::Object::Name(b"XYZ".to_vec()),
        lopdf::Object::Null,
        lopdf::Object::Null,
        lopdf::Object::Null,
    ]);
}

/// `lopdf::Object`, one PDF object, carried unchanged.
#[verifier::external_type_specification]
#[verifier::external_body]
pub struct ExPdfObject(lopdf::Object);

/// Sets `key` of the dictionary to a copy of `object`, with
/// `lopdf::Dictionary::set` (`Object::clone` copies the object).
#[verifier::external_body]
pub(crate) fn dict_set_object(d: &mut lopdf::Dictionary, key: &str, object: &lopdf::Object)
    ensures
        pdf_dict_entries(*old(d)) matches Some(e) ==> (pdf_value_of(*object) matches Some(v)
            ==> pdf_dict_entries(*final(d)) == Some(put_entry(e, key@, v))),
{
    d.set(key, object.clone());
}

/// Sets `key` of the dictionary to the dictionary `inner`, with
/// `lopdf::Dictionary::set`.
#[verifier::external_body]
pub(crate) fn dict_set_dict(d: &mut lopdf::Dictionary, key: &str, inner: lopdf::Dictionary)
    ensures
        pdf_dict_entries(*old(d)) matches Some(e) ==> (pdf_dict_entries(inner) matches Some(i)
            ==> pdf_dict_entries(*final(d)) == Some(put_entry(e, key@, PdfValueView::Dict(i)))),
{
    d.set(key, lopdf::Object::Dictionary(inner));
}

/// An empty document of the given PDF version, with
/// `lopdf::Document::with_version`. Claims: no objects, counter 0, an
/// empty trailer.
#[verifier::external_body]
pub(crate) fn new_document(version: &str) -> (r: lopdf::Document)
    ensures
        pdf_max_id(r) == 0,
        pdf_objects(r) == PdfObjects::empty(),
        pdf_streams(r) == PdfStreams::empty(),
        pdf_trailer(r) == Some(Seq::<(Seq<char>, PdfValueView)>::empty()),
{
    lopdf::Document::with_version(version)
}

/// Adds the dictionary to the document under a fresh object id, with
/// `lopdf::Document::add_object`, which increments `max_id` and panics at
/// `u32::MAX` (so the counter must be below it), and gives the id. Claims: the id is
/// the counter plus one with generation 0, the counter moves up by one,
/// and the dictionary is stored under the id, replacing what was there.
#[verifier::external_body]
pub(crate) fn add_dictionary(doc: &mut lopdf::Document, d: lopdf::Dictionary) -> (r: (u32, u16))
    requires
        pdf_max_id(*old(doc)) < u32::MAX,
    ensures
        r == ((pdf_max_id(*old(doc)) + 1) as u32, 0u16),
        pdf_max_id(*final(doc)) == pdf_max_id(*old(doc)) + 1,
        pdf_objects(*final(doc)) == pdf_objects(*old(doc)).insert(r, pdf_dict_entries(d)),
        pdf_streams(*final(doc)) == pdf_streams(*old(doc)).remove(r),
        pdf_trailer(*final(doc)) == pdf_trailer(*old(doc)),
{
    doc.add_object(d)
}

/// Adds a stream of the given dictionary and content to the document
/// under a fresh object id (`lopdf::Stream::new`, then
/// `lopdf::Document::add_object`, which increments `max_id` and panics at
/// `u32::MAX`), and gives the id. Claims: the id is the counter plus one with generation 0, the
/// counter moves up by one, and a stream is stored under the id: its
/// dictionary is `d` with `/Length` set to the length of the content
/// (`Stream::new` sets it), its content is `content`.
#[verifier::external_body]
pub(crate) fn add_stream(doc: &mut lopdf::Document, d: lopdf::Dictionary, content: Vec<u8>) -> (r: (
    u32,
    u16,
))
    requires
        pdf_max_id(*old(doc)) < u32::MAX,
    ensures
        r == ((pdf_max_id(*old(doc)) + 1) as u32, 0u16),
        pdf_max_id(*final(doc)) == pdf_max_id(*old(doc)) + 1,
        pdf_objects(*final(doc)) == pdf_objects(*old(doc)).insert(r, None),
        pdf_streams(*final(doc)) == pdf_streams(*old(doc)).insert(
            r,
            (
                match pdf_dict_entries(d) {
                    Some(e) => Some(put_entry(e, "Length"@, PdfValueView::Integer(content@.len() as i64))),
                    None => None,
                },
                content@,
            ),
        ),
        pdf_trailer(*final(doc)) == pdf_trailer(*old(doc)),
{
    doc.add_object(lopdf::Stream::new(d, content))
}

/// The trailer dictionary of the document. Claims: what is done to it is
/// what the trailer becomes, and it leaves the objects, the streams and
/// the counter of ids as they were (the trailer is a field of its own).
/// Then, as `Document::catalog_mut` reads the trailer: when its `/Root`
/// references an object that is a dictionary, that object is the catalog.
#[verifier::external_body]
pub(crate) fn trailer_mut(doc: &mut lopdf::Document) -> (r: &mut lopdf::Dictionary)
    ensures
        pdf_dict_entries(*r) == pdf_trailer(*old(doc)),
        pdf_trailer(*final(doc)) == pdf_dict_entries(*final(r)),
        pdf_objects(*final(doc)) == pdf_objects(*old(doc)),
        pdf_streams(*final(doc)) == pdf_streams(*old(doc)),
        pdf_max_id(*final(doc)) == pdf_max_id(*old(doc)),
        pdf_trailer(*final(doc)) matches Some(e) ==> (entry_value(e, "Root"@) matches Some(
            PdfValueView::Reference(t),
        ) ==> (pdf_objects(*final(doc)).dom().contains(t) && pdf_objects(*final(doc))[t] is Some
            ==> pdf_catalog(*final(doc)) == Some(t))),
{
    &mut doc.trailer
}

/// The dictionary stored as object `id`, with
/// `lopdf::Document::get_object_mut` and `lopdf::Object::as_dict_mut`;
/// `None` when there is no such object or it is not a dictionary, and
/// then nothing changes. Claims: the dictionary is stored as some object
/// `t` of the document (`id`, or where references from it lead; `id`
/// itself when that object is a dictionary, as it is not a reference), and
/// whatever is done to it is what `t` becomes; the other objects, the
/// streams and the counter of ids stay as they were.
#[verifier::external_body]
pub(crate) fn object_dict_mut(doc: &mut lopdf::Document, id: (u32, u16)) -> (r: Option<
    &mut lopdf::Dictionary,
>)
    ensures
        r is None ==> *final(doc) == *old(doc),
        pdf_objects(*old(doc)).dom().contains(id) && pdf_objects(*old(doc))[id] is Some ==> r is Some,
        r matches Some(c) ==> pdf_max_id(*final(doc)) == pdf_max_id(*old(doc)) && pdf_streams(
            *final(doc),
        ) == pdf_streams(*old(doc)) && pdf_trailer(*final(doc)) == pdf_trailer(*old(doc)) && exists|t: (u32, u16)|
            #[trigger] pdf_objects(*old(doc)).dom().contains(t) && pdf_objects(*old(doc))[t]
                == pdf_dict_entries(*c) && pdf_objects(*final(doc)) == pdf_objects(
                *old(doc),
            ).insert(t, pdf_dict_entries(*final(c))) && (pdf_objects(*old(doc)).dom().contains(id)
                && pdf_objects(*old(doc))[id] is Some ==> t == id),
{
    doc.get_object_mut(id).and_then(lopdf::Object::as_dict_mut).ok()
}

/// Stores the dictionary as object `id` of the document, with
/// `lopdf::Document::set_object`. Claims: the object under `id` becomes
/// that dictionary (no longer a stream), the others stay as they were, and
/// so does the counter;
/// an object stored under an id the document did not have leaves a
/// catalog it had where it was (following references only passes through
/// objects it has).
#[verifier::external_body]
pub(crate) fn set_object(doc: &mut lopdf::Document, id: (u32, u16), d: lopdf::Dictionary)
    ensures
        pdf_objects(*final(doc)) == pdf_objects(*old(doc)).insert(id, pdf_dict_entries(d)),
        pdf_streams(*final(doc)) == pdf_streams(*old(doc)).remove(id),
        pdf_trailer(*final(doc)) == pdf_trailer(*old(doc)),
        pdf_max_id(*final(doc)) == pdf_max_id(*old(doc)),
        pdf_catalog(*old(doc)) is Some && !pdf_objects(*old(doc)).dom().contains(id) ==> pdf_catalog(
            *final(doc),
        ) == pdf_catalog(*old(doc)),
{
    doc.set_object(id, d);
}

/// The catalog of the document, with `lopdf::Document::catalog_mut`;
/// `None` when the document has none (see [`pdf_catalog`]), and then
/// nothing changes. Claims: the catalog is the dictionary stored as object
/// `pdf_catalog` of the document, and whatever is done to it is what that
/// object becomes; the other objects, the streams and the counter stay as
/// they were.
#[verifier::external_body]
pub(crate) fn catalog_mut(doc: &mut lopdf::Document) -> (r: Option<&mut lopdf::Dictionary>)
    ensures
        r is None <==> pdf_catalog(*old(doc)) is None,
        r is None ==> *final(doc) == *old(doc),
        r matches Some(c) ==> ({
            let t = pdf_catalog(*old(doc))->Some_0;
            &&& pdf_objects(*old(doc)).dom().contains(t)
            &&& pdf_objects(*old(doc))[t] == pdf_dict_entries(*c)
            &&& pdf_objects(*final(doc)) == pdf_objects(*old(doc)).insert(
                t,
                pdf_dict_entries(*final(c)),
            )
            &&& pdf_max_id(*final(doc)) == pdf_max_id(*old(doc))
            &&& pdf_streams(*final(doc)) == pdf_streams(*old(doc))
            &&& pdf_trailer(*final(doc)) == pdf_trailer(*old(doc))
        }),
{
    match doc.catalog_mut() {
        Ok(c) => Some(c),
        Err(_) => None,
    }
}

/// Serialises the document with `lopdf::Document::save_to` into a byte
/// vector. `save_to` may take one more object id (`try_new_object_id`, for
/// a cross-reference stream) and fails, without a panic, when the counter
/// is at `u32::MAX`. Claims: below that, writing into a `Vec` does not
/// fail; the bytes begin with the `%PDF-` of the header line and end with
/// the closing `%%EOF`, both of which `save_to` writes. Nothing else is
/// stated of the bytes than that [`pdf_serialized`] names them.
#[verifier::external_body]
pub(crate) fn save_pdf(doc: &mut lopdf::Document) -> (r: Result<Vec<u8>, std::io::Error>)
    ensures
        pdf_max_id(*old(doc)) < u32::MAX ==> r is Ok,
        r matches Ok(b) ==> b@ == pdf_serialized(*old(doc)),
        r matches Ok(b) ==> occurs_at(b@, pdf_magic(), 0) && occurs_at(
            b@,
            eof_marker(),
            b@.len() - 5,
        ),
{
    let mut buf: Vec<u8> = Vec::new();
    match doc.save_to(&mut buf) {
        Ok(()) => Ok(buf),
        Err(e) => Err(e),
    }
}

/// What `lopdf::Stream::compress` leaves as the content of a stream that
/// has no `/Filter` and holds `raw`.
pub uninterp spec fn stream_compressed(raw: Seq<u8>) -> Seq<u8>;

/// Puts `raw` into a fresh `lopdf::Stream` (an empty dictionary, so no
/// `/Filter`) and runs `Stream::compress` on it, handing back the
/// stream's content. Claims: the content is the one named by
/// `stream_compressed`, and it is either `raw` itself or a zlib stream
/// more than 19 bytes shorter (lopdf keeps the compressed form only then);
/// the compression writes into a `Vec` and does not fail.
#[verifier::external_body]
pub(crate) fn compress_stream(raw: Vec<u8>) -> (r: Result<Vec<u8>, lopdf::Error>)
    ensures
        r is Ok,
        r matches Ok(v) ==> v@ == stream_compressed(raw@) && (v@ == raw@ || v@.len() + 19
            < raw@.len()),
{
    let mut s = lopdf::Stream::new(lopdf::Dictionary::new(), raw);
    match s.compress() {
        Ok(()) => Ok(s.content),
        Err(e) => Err(e),
    }
}

/// The bytes of a string, with `String::into_bytes`: its UTF-8 encoding,
/// which for ASCII text is one byte per character.
#[verifier::external_body]
pub(crate) fn string_bytes(s: String) -> (r: Vec<u8>)
    ensures
        (forall|i: int| 0 <= i < s@.len() ==> (#[trigger] s@[i] as u32) < 128) ==> r@
            == s@.map_values(|c: char| c as u8),
{
    s.into_bytes()
}

/// The text of a lopdf error, as its `Display` impl writes it. Nothing is
/// stated of it.
#[verifier::external_body]
pub(crate) fn pdf_error_text(e: &lopdf::Error) -> String {
    e.to_string()
}

/// The text of an I/O error, as its `Display` impl writes it. Nothing is
/// stated of it.
#[verifier::external_body]
pub(crate) fn io_error_text(e: &std::io::Error) -> String {
    e.to_string()
}

} // verus!
