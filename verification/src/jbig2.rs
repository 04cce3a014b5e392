//! JBIG2 images of HN pages: a 48-byte CNKI header followed by an embedded
//! JBIG2 stream, decoded by `pdfluent-jbig2` and packed one bit per pixel.

use vstd::prelude::*;
use vstd::slice::slice_subrange;
use crate::bindings::{jbig2_decode, jbig2_decoded};
use crate::text::{decimal, push_numeral, push_str, string_of};

verus! {

/// Number of header bytes in front of every JBIG2 image in a CNKI image
/// block.
pub const CNKI_HEADER_LEN: usize = 48;

/// Errors produced by the JBIG2 decoder.
#[derive(Debug)]
pub enum Jbig2Error {
    ShortInput { need: usize, got: usize },
    Decode(String),
}

pub type Jbig2Result<T> = Result<T, Jbig2Error>;

/// The text of an error, as it is shown to users.
pub open spec fn jbig2_error_text(e: Jbig2Error) -> Seq<char> {
    match e {
        Jbig2Error::ShortInput { need, got } => "input buffer is too short: need "@ + decimal(
            need as nat,
        ) + " bytes, got "@ + decimal(got as nat),
        Jbig2Error::Decode(m) => "JBIG2 decode failed: "@ + m@,
    }
}

impl Jbig2Error {
    /// The text of the error, as it is shown to users.
    pub fn message(&self) -> (r: String)
        ensures
            r@ == jbig2_error_text(*self),
    {
        match self {
            Jbig2Error::ShortInput { need, got } => {
                let mut m = string_of("input buffer is too short: need ");
                push_numeral(&mut m, *need as u64, 10, false);
                push_str(&mut m, " bytes, got ");
                push_numeral(&mut m, *got as u64, 10, false);
                m
            },
            Jbig2Error::Decode(s) => {
                let mut m = string_of("JBIG2 decode failed: ");
                m.append(s.as_str());
                m
            },
        }
    }
}

/// The decoded bitmap (1 bit per pixel, MSB-first within each byte, each
/// row padded to whole bytes).
#[derive(Debug)]
pub struct Bitmap {
    pub width: u32,
    pub height: u32,
    pub bits: Vec<u8>,
}

impl Clone for Bitmap {
    fn clone(&self) -> (r: Self)
        ensures
            r.width == self.width,
            r.height == self.height,
            r.bits@ == self.bits@,
    {
        Bitmap { width: self.width, height: self.height, bits: self.bits.clone() }
    }
}

impl Bitmap {
    /// Width in bytes of a row: `width` pixels at eight pixels a byte.
    pub fn row_bytes(&self) -> (r: usize)
        ensures
            r == (self.width + 7) / 8,
    {
        (((self.width as u64) + 7) / 8) as usize
    }
}

/// One call that the JBIG2 decoder makes to hand out the pixels of the
/// page, row after row.
#[derive(Debug, Clone, Copy)]
pub enum PixelEvent {
    /// One pixel, black or white.
    Pixel(bool),
    /// `n` runs of eight pixels of one colour, starting on a byte boundary.
    Chunk(bool, u32),
    /// The end of a row.
    NextLine,
}

/// A `pdfluent_jbig2::Decoder` that records the calls it receives.
pub struct PixelLog {
    pub events: Vec<PixelEvent>,
}

impl pdfluent_jbig2::Decoder for PixelLog {
    fn push_pixel(&mut self, black: bool)
        ensures
            final(self).events@ == old(self).events@.push(PixelEvent::Pixel(black)),
    {
        self.events.push(PixelEvent::Pixel(black));
    }

    fn push_pixel_chunk(&mut self, black: bool, chunk_count: u32)
        ensures
            final(self).events@ == old(self).events@.push(PixelEvent::Chunk(black, chunk_count)),
    {
        self.events.push(PixelEvent::Chunk(black, chunk_count));
    }

    fn next_line(&mut self)
        ensures
            final(self).events@ == old(self).events@.push(PixelEvent::NextLine),
    {
        self.events.push(PixelEvent::NextLine);
    }
}

/// `bits` with pixel `c` (counted from the first bit of the first byte,
/// most significant bit first) set.
pub open spec fn set_pixel(bits: Seq<u8>, c: int) -> Seq<u8> {
    bits.update(c / 8, bits[c / 8] | (1u8 << ((7 - c % 8) as u8)))
}

/// The packed bits and the index of the next pixel to write.
pub struct SinkState {
    pub bits: Seq<u8>,
    pub cursor: int,
}

/// One pixel written at the cursor, unless the cursor is past the end of
/// the bits (trailing padding is ignored).
pub open spec fn push_spec(s: SinkState, black: bool) -> SinkState {
    if s.cursor >= s.bits.len() * 8 {
        s
    } else {
        SinkState {
            bits: if black {
                set_pixel(s.bits, s.cursor)
            } else {
                s.bits
            },
            cursor: s.cursor + 1,
        }
    }
}

/// `n` pixels of one colour.
pub open spec fn push_n(s: SinkState, black: bool, n: nat) -> SinkState
    decreases n,
{
    if n == 0 {
        s
    } else {
        push_spec(push_n(s, black, (n - 1) as nat), black)
    }
}

/// The cursor rounded up to the next byte boundary.
pub open spec fn round8(c: int) -> int {
    ((c + 7) / 8) * 8
}

/// The effect of one decoder call.
pub open spec fn event_step(s: SinkState, e: PixelEvent) -> SinkState {
    match e {
        PixelEvent::Pixel(b) => push_spec(s, b),
        PixelEvent::Chunk(b, n) => push_n(s, b, 8 * n as nat),
        PixelEvent::NextLine => SinkState { cursor: round8(s.cursor), ..s },
    }
}

/// The effect of a sequence of decoder calls.
pub open spec fn replay(s: SinkState, es: Seq<PixelEvent>) -> SinkState
    decreases es.len(),
{
    if es.len() == 0 {
        s
    } else {
        replay(event_step(s, es[0]), es.drop_first())
    }
}

/// The bits that the calls `es` write into a blank image of `n` bytes.
pub open spec fn sink_bits(n: nat, es: Seq<PixelEvent>) -> Seq<u8> {
    replay(SinkState { bits: Seq::new(n, |i: int| 0u8), cursor: 0 }, es).bits
}

/// Writing pixels keeps the size of the bits and a cursor that is not
/// negative.
proof fn lemma_push_n_len(s: SinkState, black: bool, n: nat)
    requires
        s.cursor >= 0,
    ensures
        push_n(s, black, n).bits.len() == s.bits.len(),
        push_n(s, black, n).cursor >= 0,
    decreases n,
{
    if n > 0 {
        lemma_push_n_len(s, black, (n - 1) as nat);
    }
}

/// Replaying decoder calls keeps the size of the bits.
proof fn lemma_replay_len(s: SinkState, es: Seq<PixelEvent>)
    requires
        s.cursor >= 0,
    ensures
        replay(s, es).bits.len() == s.bits.len(),
    decreases es.len(),
{
    if es.len() > 0 {
        match es[0] {
            PixelEvent::Chunk(b, n) => {
                lemma_push_n_len(s, b, 8 * n as nat);
            },
            PixelEvent::NextLine => {
                assert(round8(s.cursor) >= 0) by (nonlinear_arith)
                    requires
                        s.cursor >= 0,
                ;
            },
            PixelEvent::Pixel(_) => {},
        }
        lemma_replay_len(event_step(s, es[0]), es.drop_first());
    }
}

/// Whatever calls the decoder makes, the image it fills has exactly the
/// bytes it was made with.
pub proof fn lemma_sink_bits_len(n: nat, es: Seq<PixelEvent>)
    ensures
        sink_bits(n, es).len() == n,
{
    lemma_replay_len(SinkState { bits: Seq::new(n, |i: int| 0u8), cursor: 0 }, es);
}

/// A decoder sink that accumulates pixels into a packed 1-bpp byte
/// buffer, MSB-first within each byte.
struct BitmapSink {
    width: u32,
    height: u32,
    row_bytes: usize,
    bits: Vec<u8>,
    /// Index of the next bit to write.
    cursor: usize,
}

impl BitmapSink {
    spec fn state(&self) -> SinkState {
        SinkState { bits: self.bits@, cursor: self.cursor as int }
    }

    spec fn wf(&self) -> bool {
        &&& self.bits@.len() * 8 + 16 <= usize::MAX
        &&& self.cursor <= self.bits@.len() * 8
    }

    /// A blank sink for an image of `width` x `height` pixels: `height`
    /// rows of `(width + 7) / 8` zero bytes, the cursor at the first pixel.
    fn new(width: u32, height: u32) -> (r: Self)
        requires
            ((width + 7) / 8) * height * 8 + 16 <= usize::MAX,
        ensures
            r.wf(),
            r.width == width,
            r.height == height,
            r.row_bytes == (width + 7) / 8,
            r.state() == (SinkState {
                bits: Seq::new((((width + 7) / 8) * height) as nat, |i: int| 0u8),
                cursor: 0,
            }),
    {
        let row_bytes = (((width as u64) + 7) / 8) as usize;
        let n = row_bytes * (height as usize);
        let r = Self { width, height, row_bytes, bits: vec![0u8; n], cursor: 0 };
        assert(r.bits@ =~= Seq::new((((width + 7) / 8) * height) as nat, |i: int| 0u8));
        r
    }

    /// Write one pixel at the cursor.
    fn push(&mut self, black: bool)
        requires
            old(self).wf(),
        ensures
            final(self).wf(),
            final(self).state() == push_spec(old(self).state(), black),
    {
        if self.cursor / 8 >= self.bits.len() {
            return;
        }
        if black {
            let byte = self.cursor / 8;
            let bit = (7 - self.cursor % 8) as u8;
            let v = self.bits[byte] | (1u8 << bit);
            self.bits.set(byte, v);
        }
        self.cursor += 1;
    }

    /// Write `chunk_count` runs of eight pixels of one colour.
    fn push_pixel_chunk(&mut self, black: bool, chunk_count: u32)
        requires
            old(self).wf(),
        ensures
            final(self).wf(),
            final(self).state() == push_n(old(self).state(), black, 8 * chunk_count as nat),
    {
        let mut i: u32 = 0;
        while i < chunk_count
            invariant
                i <= chunk_count,
                self.wf(),
                self.state() == push_n(old(self).state(), black, 8 * i as nat),
            decreases chunk_count - i,
        {
            let mut j: u32 = 0;
            while j < 8
                invariant
                    j <= 8,
                    i < chunk_count,
                    self.wf(),
                    self.state() == push_n(old(self).state(), black, (8 * i + j) as nat),
                decreases 8 - j,
            {
                self.push(black);
                j += 1;
            }
            i += 1;
        }
    }

    /// Round the cursor up to the next byte boundary, so that the next row
    /// starts on a clean byte.
    fn next_line(&mut self)
        requires
            old(self).wf(),
        ensures
            final(self).wf(),
            final(self).state() == (SinkState { cursor: round8(old(self).state().cursor), ..old(self).state() }),
    {
        let c = self.cursor + 7;
        assert(c & !7usize == (c / 8) * 8) by (bit_vector);
        self.cursor = c & !7usize;
    }

    /// Apply the decoder calls `events` in order.
    fn apply(&mut self, events: &Vec<PixelEvent>)
        requires
            old(self).wf(),
        ensures
            final(self).wf(),
            final(self).state() == replay(old(self).state(), events@),
    {
        let mut i: usize = 0;
        proof {
            assert(events@.subrange(0, events@.len() as int) =~= events@);
        }
        while i < events.len()
            invariant
                i <= events@.len(),
                self.wf(),
                replay(old(self).state(), events@) == replay(
                    self.state(),
                    events@.subrange(i as int, events@.len() as int),
                ),
            decreases events@.len() - i,
        {
            proof {
                let rest = events@.subrange(i as int, events@.len() as int);
                assert(rest[0] == events@[i as int]);
                assert(rest.drop_first() =~= events@.subrange(i + 1, events@.len() as int));
            }
            match events[i] {
                PixelEvent::Pixel(b) => self.push(b),
                PixelEvent::Chunk(b, n) => self.push_pixel_chunk(b, n),
                PixelEvent::NextLine => self.next_line(),
            }
            i += 1;
        }
    }
}

/// What [`decode`] gives for these arguments: the packed bits, or the
/// text of the error.
pub open spec fn jbig2_result(input: Seq<u8>, width: u32, height: u32) -> Result<Seq<u8>, Seq<char>> {
    let rb = (width + 7) / 8;
    if input.len() < CNKI_HEADER_LEN {
        Err(
            "input buffer is too short: need "@ + decimal(CNKI_HEADER_LEN as nat) + " bytes, got "@
                + decimal(input.len()),
        )
    } else {
        match jbig2_decoded(input.subrange(CNKI_HEADER_LEN as int, input.len() as int)) {
            Err(m) => Err("JBIG2 decode failed: "@ + m),
            Ok(d) => if d.0 != width || d.1 != height {
                Err(
                    "JBIG2 decode failed: "@ + ("size mismatch: JBIG2 reported "@ + decimal(
                        d.0 as nat,
                    ) + "x"@ + decimal(d.1 as nat) + ", caller expected "@ + decimal(width as nat)
                        + "x"@ + decimal(height as nat)),
                )
            } else if rb * height * 8 + 16 > usize::MAX {
                Err("JBIG2 decode failed: "@ + "image is too large"@)
            } else {
                Ok(sink_bits((rb * height) as nat, d.2))
            },
        }
    }
}

/// Decode a JBIG2 image extracted from a CNKI image block.
///
/// The stream after the 48-byte header must decode to an image of exactly
/// `width` x `height` pixels; its pixels are packed into rows of
/// `(width + 7) / 8` bytes. When the pixel decoding stops on an error, the
/// rows it filled are kept and the rest stay white.
pub fn decode(input: &[u8], width: u32, height: u32) -> (r: Jbig2Result<Bitmap>)
    ensures
        input@.len() < CNKI_HEADER_LEN ==> (r matches Err(Jbig2Error::ShortInput { need, got })
            && need == CNKI_HEADER_LEN && got == input@.len()),
        input@.len() >= CNKI_HEADER_LEN ==> {
            let rb = (width + 7) / 8;
            match jbig2_decoded(input@.subrange(CNKI_HEADER_LEN as int, input@.len() as int)) {
                Err(m) => (r matches Err(Jbig2Error::Decode(t)) && t@ == m),
                Ok(d) => if d.0 != width || d.1 != height {
                    (r matches Err(Jbig2Error::Decode(t)) && t@ == "size mismatch: JBIG2 reported "@
                        + decimal(d.0 as nat) + "x"@ + decimal(d.1 as nat) + ", caller expected "@
                        + decimal(width as nat) + "x"@ + decimal(height as nat))
                } else if rb * height * 8 + 16 > usize::MAX {
                    (r matches Err(Jbig2Error::Decode(t)) && t@ == "image is too large"@)
                } else {
                    (r matches Ok(bm) && bm.width == width && bm.height == height && bm.bits@
                        == sink_bits((rb * height) as nat, d.2))
                },
            }
        },
        match jbig2_result(input@, width, height) {
            Ok(b) => (r matches Ok(bm) && bm.width == width && bm.height == height && bm.bits@ == b),
            Err(t) => (r matches Err(e) && jbig2_error_text(e) == t),
        },
        r matches Ok(bm) ==> bm.bits@.len() == ((width + 7) / 8) * height,
{
    if input.len() < CNKI_HEADER_LEN {
        return Err(Jbig2Error::ShortInput { need: CNKI_HEADER_LEN, got: input.len() });
    }
    let stream = slice_subrange(input, CNKI_HEADER_LEN, input.len());
    let (img_width, img_height, events) = match jbig2_decode(stream) {
        Ok(d) => d,
        Err(m) => {
            return Err(Jbig2Error::Decode(m));
        },
    };
    if img_width != width || img_height != height {
        let mut m = string_of("size mismatch: JBIG2 reported ");
        push_numeral(&mut m, img_width as u64, 10, false);
        push_str(&mut m, "x");
        push_numeral(&mut m, img_height as u64, 10, false);
        push_str(&mut m, ", caller expected ");
        push_numeral(&mut m, width as u64, 10, false);
        push_str(&mut m, "x");
        push_numeral(&mut m, height as u64, 10, false);
        return Err(Jbig2Error::Decode(m));
    }
    let row_bytes = (((width as u64) + 7) / 8) as usize;
    let n = match row_bytes.checked_mul(height as usize) {
        Some(n) => n,
        None => {
            return Err(Jbig2Error::Decode(string_of("image is too large")));
        },
    };
    if n > (usize::MAX - 16) / 8 {
        return Err(Jbig2Error::Decode(string_of("image is too large")));
    }
    let mut sink = BitmapSink::new(width, height);
    sink.apply(&events);
    proof {
        lemma_sink_bits_len(n as nat, events@);
    }
    Ok(Bitmap { width, height, bits: sink.bits })
}

} // verus!
