//! The CNKI JBIG1 image format: a 48-byte header followed by a stream for
//! the arithmetic decoder of [`crate::jbig1_codec`].

use vstd::prelude::*;
use vstd::slice::slice_subrange;
use crate::bytes::{read_u16, read_u32, u16_at, u32_at};
use crate::jbig1_codec::{
    decode_image, lemma_decode_image, lemma_holds_lines_packed, packed_lines, JBigCodec,
};
use crate::text::{decimal, push_numeral, push_str, string_of};

verus! {

/// Number of bytes in the CNKI image header that sits in front of every
/// JBIG1 stream produced by CAJViewer.
pub const CNKI_HEADER_LEN: usize = 48;

/// Errors produced by the JBIG1 decoder.
#[derive(Debug)]
pub enum JbigError {
    ShortInput { need: usize, got: usize },
    InvalidHeader(String),
    Arithmetic(String),
}

pub type JbigResult<T> = Result<T, JbigError>;

/// The text of an error, as it is shown to users.
pub open spec fn jbig_error_text(e: JbigError) -> Seq<char> {
    match e {
        JbigError::ShortInput { need, got } => "input buffer is too short: need "@ + decimal(
            need as nat,
        ) + " bytes, got "@ + decimal(got as nat),
        JbigError::InvalidHeader(m) => "invalid image header: "@ + m@,
        JbigError::Arithmetic(m) => "decoder arithmetic error: "@ + m@,
    }
}

impl JbigError {
    /// The text of the error, as it is shown to users.
    pub fn message(&self) -> (r: String)
        ensures
            r@ == jbig_error_text(*self),
    {
        match self {
            JbigError::ShortInput { need, got } => {
                let mut m = string_of("input buffer is too short: need ");
                push_numeral(&mut m, *need as u64, 10, false);
                push_str(&mut m, " bytes, got ");
                push_numeral(&mut m, *got as u64, 10, false);
                m
            },
            JbigError::InvalidHeader(s) => {
                let mut m = string_of("invalid image header: ");
                m.append(s.as_str());
                m
            },
            JbigError::Arithmetic(s) => {
                let mut m = string_of("decoder arithmetic error: ");
                m.append(s.as_str());
                m
            },
        }
    }
}

/// The decoded bitmap.
#[derive(Debug)]
pub struct Bitmap {
    /// Image width in pixels (1 bpp).
    pub width: u32,
    /// Image height in pixels.
    pub height: u32,
    /// Packed pixels, eight to a byte with the first in the most
    /// significant bit, rows bottom-up, each row padded to the row stride
    /// of [`bytes_per_line`].
    pub bits: Vec<u8>,
}

impl Clone for Bitmap {
    fn clone(&self) -> (r: Self)
        ensures
            r.width == self.width,
            r.height == self.height,
            r.bits@ == self.bits@,
    {
        Bitmap { width: self.width, height: self.height, bits: self.bits.clone() }
    }
}

impl Bitmap {
    /// Width in bytes of `width` pixels at eight pixels a byte.
    pub fn row_bytes(&self) -> (r: usize)
        ensures
            r == (self.width + 7) / 8,
    {
        (((self.width as u64) + 7) / 8) as usize
    }
}

/// The row stride `((width * bpp + 31) >> 5) << 2`, with the product and
/// the sum saturating at `u32::MAX`.
pub open spec fn bytes_per_line_spec(width: u32, bits_per_pixel: u32) -> u32 {
    let p = if width * bits_per_pixel > u32::MAX {
        u32::MAX as int
    } else {
        width * bits_per_pixel
    };
    let q = if p + 31 > u32::MAX {
        u32::MAX as int
    } else {
        p + 31
    };
    ((q / 32) * 4) as u32
}

/// Compute the row stride (in bytes) for an image with the formula
/// `((W * bpp + 31) >> 5) << 2`: the bits of a row rounded up to whole
/// 32-bit words. The result is always a
/// multiple of 4.
pub fn bytes_per_line(width: u32, bits_per_pixel: u32) -> (r: u32)
    ensures
        r == bytes_per_line_spec(width, bits_per_pixel),
        r % 4 == 0,
        r <= 0x1FFF_FFFC,
{
    let p = match width.checked_mul(bits_per_pixel) {
        Some(p) => p,
        None => u32::MAX,
    };
    let q = p.saturating_add(31);
    proof {
        assert(q >> 5u32 == q / 32) by (bit_vector);
        assert((q >> 5u32) << 2u32 == (q >> 5u32) * 4) by (bit_vector);
    }
    (q >> 5u32) << 2u32
}

/// Extract the bits-per-pixel value from the CNKI image header at
/// offsets 14..16 (little-endian `u16`); `None` if `header` is shorter
/// than 16 bytes.
pub fn bits_per_pixel_from_header(header: &[u8]) -> (r: Option<u16>)
    ensures
        r == if header@.len() < 16 {
            None
        } else {
            Some(u16_at(header@, 14))
        },
{
    if header.len() < 16 {
        return None;
    }
    Some(read_u16(header, 14))
}

/// Extract the image width and height from the CNKI image header at
/// offsets 4..12 (two little-endian `u32`s); `None` if `header` is
/// shorter than 12 bytes.
pub fn dimensions_from_header(header: &[u8]) -> (r: Option<(u32, u32)>)
    ensures
        r == if header@.len() < 12 {
            None
        } else {
            Some((u32_at(header@, 4), u32_at(header@, 8)))
        },
{
    if header.len() < 12 {
        return None;
    }
    Some((read_u32(header, 4), read_u32(header, 8)))
}

/// The row stride of the image in `input` at `width` pixels a row, by the
/// bits per pixel of its header.
pub open spec fn stride_of(input: Seq<u8>, width: u32) -> u32 {
    bytes_per_line_spec(width, u16_at(input, 14) as u32)
}

/// What [`decode`] gives for these arguments: the packed bits, or the
/// text of the error.
pub open spec fn jbig1_result(input: Seq<u8>, width: u32, height: u32) -> Result<Seq<u8>, Seq<char>> {
    let stride = stride_of(input, width);
    if input.len() < CNKI_HEADER_LEN {
        Err(
            "input buffer is too short: need "@ + decimal(CNKI_HEADER_LEN as nat) + " bytes, got "@
                + decimal(input.len()),
        )
    } else if height * stride > usize::MAX {
        Err("decoder arithmetic error: "@ + "output size overflow"@)
    } else if height > 0 && width > 8 * stride {
        Err("invalid image header: "@ + "row stride is too short for the image width"@)
    } else {
        Ok(
            packed_lines(
                decode_image(
                    input.subrange(CNKI_HEADER_LEN as int, input.len() as int),
                    width as nat,
                    height as nat,
                ),
                stride as nat,
                height as nat,
            ),
        )
    }
}

/// Decode a JBIG1 image.
///
/// `input` is the raw image data **including** the 48-byte CNKI header.
/// `width` and `height` are taken to be authoritative; the header gives
/// only the bits per pixel, from which the row stride follows. The rows
/// are stored bottom-up.
pub fn decode(input: &[u8], width: u32, height: u32) -> (r: JbigResult<Bitmap>)
    ensures
        input@.len() < CNKI_HEADER_LEN ==> (r matches Err(JbigError::ShortInput { need, got })
            && need == CNKI_HEADER_LEN && got == input@.len()),
        input@.len() >= CNKI_HEADER_LEN ==> {
            let stride = stride_of(input@, width);
            if height * stride > usize::MAX {
                (r matches Err(JbigError::Arithmetic(m)) && m@ == "output size overflow"@)
            } else if height > 0 && width > 8 * stride {
                (r matches Err(JbigError::InvalidHeader(m)) && m@
                    == "row stride is too short for the image width"@)
            } else {
                (r matches Ok(bm) && bm.width == width && bm.height == height && bm.bits@
                    == packed_lines(
                    decode_image(
                        input@.subrange(CNKI_HEADER_LEN as int, input@.len() as int),
                        width as nat,
                        height as nat,
                    ),
                    stride as nat,
                    height as nat,
                ))
            }
        },
        match jbig1_result(input@, width, height) {
            Ok(b) => (r matches Ok(bm) && bm.width == width && bm.height == height && bm.bits@ == b),
            Err(t) => (r matches Err(e) && jbig_error_text(e) == t),
        },
        r matches Ok(bm) ==> bm.bits@.len() == height * stride_of(input@, width),
{
    if input.len() < CNKI_HEADER_LEN {
        return Err(JbigError::ShortInput { need: CNKI_HEADER_LEN, got: input.len() });
    }
    let bpp = match bits_per_pixel_from_header(input) {
        Some(b) => b,
        None => {
            return Err(
                JbigError::InvalidHeader(string_of("header is shorter than 16 bytes")),
            );
        },
    };
    let row_stride = bytes_per_line(width, bpp as u32);
    let out_len = match (height as usize).checked_mul(row_stride as usize) {
        Some(n) => n,
        None => {
            return Err(JbigError::Arithmetic(string_of("output size overflow")));
        },
    };
    if height > 0 && (width as u64) > 8 * (row_stride as u64) {
        return Err(
            JbigError::InvalidHeader(string_of("row stride is too short for the image width")),
        );
    }
    let mut bits = vec![0u8; out_len];
    let mut codec_inst = JBigCodec::new();
    let stream = slice_subrange(input, CNKI_HEADER_LEN, input.len());
    match codec_inst.decode(stream, stream.len(), height, width, row_stride, bits.as_mut_slice()) {
        Ok(()) => {},
        Err(e) => {
            return Err(e);
        },
    }
    proof {
        lemma_decode_image(stream@, width as nat, height as nat);
        lemma_holds_lines_packed(
            bits@,
            row_stride as nat,
            height as nat,
            decode_image(stream@, width as nat, height as nat),
        );
    }
    Ok(Bitmap { width, height, bits })
}

} // verus!
