//! The text section of an HN page: a stream of 2-byte dispatch codes, each
//! followed by a record whose shape the code selects.

use vstd::prelude::*;
use crate::bindings::{gbk_decode, gbk_decoded};
use crate::bytes::{read_u16, u16_at};
use crate::text::{hex4_upper, push_hex4_upper, push_str};

verus! {

/// The text of one character stored little-endian as the bytes `b0`, `b1`:
/// the four OCR artefacts 0xA389, 0xA38A, 0xA38D and 0xA3A0 become a tab, a
/// line feed, a carriage return and a space; any other code is decoded as
/// GBK from the bytes `[b1, b0]` (high byte first), and a code that does
/// not decode cleanly to some text becomes the placeholder `<0xXXXX>`.
pub open spec fn gbk_char_text(b0: u8, b1: u8) -> Seq<char> {
    let code = (b1 as u16) * 256 + b0 as u16;
    if code == 0xA389 {
        seq!['\t']
    } else if code == 0xA38A {
        seq!['\n']
    } else if code == 0xA38D {
        seq!['\r']
    } else if code == 0xA3A0 {
        seq![' ']
    } else {
        let d = gbk_decoded(seq![b1, b0]);
        if !d.1 && d.0.len() > 0 {
            d.0
        } else {
            "<0x"@ + hex4_upper(code as u16) + ">"@
        }
    }
}

/// An old-style run of 4-byte characters starting at `off`: the run stops
/// at the end of the data or before a record whose second byte is 0x80.
/// The text of the run, and the offset after it.
pub open spec fn old_style_run(data: Seq<u8>, off: int) -> (Seq<char>, int)
    decreases data.len() - off,
{
    if off + 4 <= data.len() && data[off + 1] != 0x80 {
        let rest = old_style_run(data, off + 4);
        (gbk_char_text(data[off + 2], data[off + 3]) + rest.0, rest.1)
    } else {
        (Seq::empty(), off)
    }
}

/// An old-style run ends at its start or inside the data.
pub proof fn lemma_old_style_run(data: Seq<u8>, off: int)
    ensures
        old_style_run(data, off).1 >= off,
        old_style_run(data, off).1 == off || old_style_run(data, off).1 <= data.len(),
    decreases data.len() - off,
{
    if off + 4 <= data.len() && data[off + 1] != 0x80 {
        lemma_old_style_run(data, off + 4);
    }
}

/// The text of the records from `off` on (`old_style` selects the record
/// shapes of the old pages):
///
/// * `0x8001` (new style): one character, 4 bytes;
/// * `0x8001` / `0x8070` (old style): a run of 4-byte characters after 2
///   unknown bytes, `0x8001` starting with a line feed;
/// * `0x800A`: a 26-byte figure record, no text;
/// * any other code: 2 more bytes, no text.
///
/// A record cut short by the end of the data ends the text.
pub open spec fn page_text_from(data: Seq<u8>, old_style: bool, off: int) -> Seq<char>
    decreases data.len() + 4 - off,
    when off >= 0
{
    if off + 2 > data.len() {
        Seq::empty()
    } else {
        let code = u16_at(data, off);
        let o = off + 2;
        if code == 0x8001 && !old_style {
            if o + 4 > data.len() {
                Seq::empty()
            } else {
                gbk_char_text(data[o], data[o + 1]) + page_text_from(data, old_style, o + 4)
            }
        } else if (code == 0x8001 || code == 0x8070) && old_style {
            let run = old_style_run(data, o + 2);
            proof {
                lemma_old_style_run(data, o + 2);
            }
            let nl = if code == 0x8001 {
                seq!['\n']
            } else {
                Seq::empty()
            };
            nl + run.0 + page_text_from(data, old_style, run.1)
        } else if code == 0x800A {
            if o + 26 > data.len() {
                Seq::empty()
            } else {
                page_text_from(data, old_style, o + 26)
            }
        } else {
            page_text_from(data, old_style, o + 2)
        }
    }
}

/// A figure record (code `0x800A`) is the two-byte code and 26 bytes
/// more, and gives no text: the text from it is the text from the record
/// after it; cut short by the end of the data, it ends the text.
pub proof fn lemma_figure_record_skipped(data: Seq<u8>, old_style: bool, off: int)
    requires
        off >= 0,
        off + 2 <= data.len(),
        u16_at(data, off) == 0x800A,
    ensures
        off + 28 <= data.len() ==> page_text_from(data, old_style, off) == page_text_from(
            data,
            old_style,
            off + 28,
        ),
        off + 28 > data.len() ==> page_text_from(data, old_style, off) == Seq::<char>::empty(),
{
}

/// A new-style character record (code `0x8001`) is the code and four
/// bytes, the first two the character in GBK low byte first: its text is
/// that character, then the text of the record after it.
pub proof fn lemma_char_record(data: Seq<u8>, off: int)
    requires
        off >= 0,
        off + 6 <= data.len(),
        u16_at(data, off) == 0x8001,
    ensures
        page_text_from(data, false, off) == gbk_char_text(data[off + 2], data[off + 3])
            + page_text_from(data, false, off + 6),
{
}

/// A record of any other code is the code and two bytes more, and gives
/// no text.
pub proof fn lemma_other_record_skipped(data: Seq<u8>, old_style: bool, off: int)
    requires
        off >= 0,
        off + 2 <= data.len(),
        u16_at(data, off) != 0x8001,
        u16_at(data, off) != 0x8070,
        u16_at(data, off) != 0x800A,
    ensures
        page_text_from(data, old_style, off) == page_text_from(data, old_style, off + 4),
{
}

/// A GBK character is decoded from its two bytes high byte first (the
/// record holds them low byte first); the four layout codes give a tab,
/// a line feed, a carriage return and a space.
pub proof fn lemma_gbk_high_byte_first(b0: u8, b1: u8)
    ensures
        b1 == 0xA3 && b0 == 0x89 ==> gbk_char_text(b0, b1) == seq!['\t'],
        b1 == 0xA3 && b0 == 0x8A ==> gbk_char_text(b0, b1) == seq!['\n'],
        b1 == 0xA3 && b0 == 0x8D ==> gbk_char_text(b0, b1) == seq!['\r'],
        b1 == 0xA3 && b0 == 0xA0 ==> gbk_char_text(b0, b1) == seq![' '],
        !(b1 == 0xA3 && (b0 == 0x89 || b0 == 0x8A || b0 == 0x8D || b0 == 0xA0)) && !gbk_decoded(
            seq![b1, b0],
        ).1 && gbk_decoded(seq![b1, b0]).0.len() > 0 ==> gbk_char_text(b0, b1) == gbk_decoded(
            seq![b1, b0],
        ).0,
{
}

/// The text of a whole page text section.
pub open spec fn page_text(data: Seq<u8>, old_style: bool) -> Seq<char> {
    page_text_from(data, old_style, 0)
}

/// Append the text of one little-endian GBK character.
fn push_gbk(out: &mut String, b0: u8, b1: u8)
    ensures
        final(out)@ == old(out)@ + gbk_char_text(b0, b1),
{
    let code: u16 = (b1 as u16) * 256 + (b0 as u16);
    if code == 0xA389 {
        out.push('\t');
    } else if code == 0xA38A {
        out.push('\n');
    } else if code == 0xA38D {
        out.push('\r');
    } else if code == 0xA3A0 {
        out.push(' ');
    } else {
        let bytes: [u8; 2] = [b1, b0];
        proof {
            assert(bytes@ =~= seq![b1, b0]);
        }
        let (text, had_errors) = gbk_decode(&bytes);
        if !had_errors && text.as_str().unicode_len() > 0 {
            out.append(text.as_str());
        } else {
            push_str(out, "<0x");
            push_hex4_upper(out, code);
            push_str(out, ">");
            proof {
                reveal_strlit("<0x");
                reveal_strlit(">");
                assert(final(out)@ =~= old(out)@ + gbk_char_text(b0, b1));
            }
        }
    }
}

/// Parse the text section of an HN page.
///
/// The on-disk format is a flat stream of 2-byte dispatch codes followed by
/// record-specific payloads:
///
/// * `0x8001` / `0x8070` – a run of single GBK characters. Old-style pages
///   (`page_style == true`) use a 4-byte-per-character layout after two
///   unknown bytes; new-style pages use a 4-byte record whose first 2 bytes
///   are the character's GBK code.
/// * `0x800A` – a figure position record (26 bytes).
///
/// Any other dispatch code is treated as a 4-byte "skip" record.
pub fn parse_page_text(data: &[u8], page_style: bool) -> (r: String)
    ensures
        r@ == page_text(data@, page_style),
{
    let mut out = String::new();
    let mut off: usize = 0;
    let len = data.len();
    while off <= len && len - off >= 2
        invariant_except_break
            len == data@.len(),
            off <= len,
            out@ + page_text_from(data@, page_style, off as int) == page_text(data@, page_style),
        ensures
            out@ == page_text(data@, page_style),
        decreases len + 4 - off,
    {
        let code = read_u16(data, off);
        off += 2;
        if code == 0x8001 && !page_style {
            if len - off < 4 {
                assert(out@ =~= page_text(data@, page_style));
                break;
            }
            let b1 = data[off + 1];
            let b0 = data[off];
            push_gbk(&mut out, b0, b1);
            off += 4;
            assert(out@ + page_text_from(data@, page_style, off as int) == page_text(data@, page_style));
        } else if (code == 0x8001 || code == 0x8070) && page_style {
            let ghost run = old_style_run(data@, off + 2);
            if code == 0x8001 {
                out.push('\n');
            }
            let ghost nl_out = out@;
            proof {
                lemma_old_style_run(data@, off + 2);
                assert(nl_out + run.0 + page_text_from(data@, page_style, run.1) == page_text(data@, page_style));
            }
            if len - off < 2 {
                assert(run.0 =~= Seq::<char>::empty());
                assert(page_text_from(data@, page_style, run.1) =~= Seq::<char>::empty());
                assert(out@ =~= page_text(data@, page_style));
                break;
            }
            off += 2;
            while len - off >= 4
                invariant
                    len == data@.len(),
                    off <= len,
                    out@ + old_style_run(data@, off as int).0 == nl_out + run.0,
                    old_style_run(data@, off as int).1 == run.1,
                ensures
                    !(off + 4 <= len && data@[off + 1] != 0x80),
                decreases len - off,
            {
                if data[off + 1] == 0x80 {
                    break;
                }
                let b1 = data[off + 3];
                let b0 = data[off + 2];
                push_gbk(&mut out, b0, b1);
                off += 4;
                assert(out@ + old_style_run(data@, off as int).0 == nl_out + run.0);
            }
            assert(old_style_run(data@, off as int).0 =~= Seq::<char>::empty());
            assert(out@ =~= nl_out + run.0);
        } else if code == 0x800A {
            if len - off < 26 {
                assert(out@ =~= page_text(data@, page_style));
                break;
            }
            off += 26;
        } else {
            if len - off < 2 {
                assert(page_text_from(data@, page_style, off + 2) =~= Seq::<char>::empty());
                assert(out@ =~= page_text(data@, page_style));
                break;
            }
            off += 2;
        }
    }
    out
}

} // verus!
