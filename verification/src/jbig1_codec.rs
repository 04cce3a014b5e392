//! The CNKI variant of the JBIG1 arithmetic decoder: a T.82 arithmetic
//! decoder driven by a five-neighbour context template, with "typical
//! line" prediction.
//!
//! The decoder is specified in two layers. [`ArithState`] models the
//! registers and the adaptive tables, and `decode_symbol` is one step of
//! the arithmetic decoder on it. Above it, the image is a sequence of
//! pixel lines: `decode_lines` says which line each step of the coder
//! produces, and `rows_match` says how the lines are packed into the
//! bottom-up output buffer.

use vstd::prelude::*;
use vstd::wrapping::u32_specs::{wrapping_add, wrapping_mul, wrapping_sub};
use vstd::arithmetic::div_mod::{lemma_fundamental_div_mod_converse};
use crate::jbig1::{JbigError, JbigResult};
use crate::text::{decimal, push_numeral, string_of};
use crate::jbig1_tables::{
    lemma_table_ranges, lsz, lsz_spec, nlps, nlps_spec, nmps, nmps_spec, switch, switch_spec,
};

verus! {


/// Size of the MPS / ST tables, in entries.
pub const MPS_TABLE_LEN: usize = 0x1000;

/// Context of the typical-line indicator decoded at the start of every line.
pub const INITIAL_DECODE_CX: u32 = 0x29c;

/// Context bit set after a black pixel.
pub const TYPICAL_PREDICTION_BIT: u32 = 0x200;

/// Context bit for the pixel two columns to the right in the line above.
pub const SLNTP_TWO_UP_TWO_RIGHT: u32 = 0x4;

/// Context bit for the pixel three columns to the right two lines above.
pub const SLNTP_ONE_UP_THREE_RIGHT: u32 = 0x80;

/// Mask applied after shifting the context register right.
pub const SLNTP_SHIFT_CLEAR_MASK: u32 = 0xFDFF;

/// Threshold at or below which the A register is renormalised.
pub const RENORM_THRESHOLD: u32 = 0x7FFF;

/// Value of the A register after `InitDecode`.
pub const INITIAL_A: u32 = 0x10000;

// ---------------------------------------------------------------------
// The arithmetic decoder
// ---------------------------------------------------------------------

/// The registers and adaptive tables of the arithmetic decoder.
pub struct ArithState {
    /// The A (interval) register.
    pub a: u32,
    /// The C (code) register.
    pub c: u32,
    /// Bits left in the low byte of C before the next byte is shifted in.
    pub ct: i32,
    /// Number of stream bytes the decoder may read.
    pub len: nat,
    /// Number of stream bytes read so far.
    pub pos: nat,
    /// More probable symbol of each context.
    pub mps: Seq<u32>,
    /// Adaptive state of each context.
    pub st: Seq<u32>,
    /// The last decoded symbol.
    pub pix: u32,
}

/// The invariant kept by every step of the decoder after initialisation.
pub open spec fn arith_wf(s: ArithState) -> bool {
    &&& 0x8000 <= s.a <= 0x10000
    &&& 0 <= s.ct <= 8
    &&& s.pos <= s.len
    &&& s.mps.len() == MPS_TABLE_LEN
    &&& s.st.len() == MPS_TABLE_LEN
    &&& forall|i: int| 0 <= i < MPS_TABLE_LEN ==> #[trigger] s.st[i] < 113
    &&& forall|i: int| 0 <= i < MPS_TABLE_LEN ==> #[trigger] s.mps[i] <= 1
}

/// `ByteIn`: shift the next stream byte (if any) into bits 8..16 of C.
pub open spec fn byte_in(s: ArithState, input: Seq<u8>) -> ArithState {
    if s.pos < s.len {
        ArithState {
            c: wrapping_add(s.c, (input[s.pos as int] as u32) << 8u32),
            pos: s.pos + 1,
            ct: 8,
            ..s
        }
    } else {
        ArithState { ct: 8, ..s }
    }
}

/// `InitDecode`: clear the tables and load the first three stream bytes.
pub open spec fn init_decode(s: ArithState, input: Seq<u8>, size: nat) -> ArithState {
    let s0 = ArithState {
        len: size,
        pos: 0,
        mps: Seq::new(MPS_TABLE_LEN as nat, |i: int| 0u32),
        st: Seq::new(MPS_TABLE_LEN as nat, |i: int| 0u32),
        ..s
    };
    let s1 = byte_in(s0, input);
    let s2 = byte_in(ArithState { c: s1.c << 8u32, ..s1 }, input);
    let s3 = byte_in(ArithState { c: s2.c << 8u32, ..s2 }, input);
    ArithState { a: INITIAL_A, ..s3 }
}

/// `RenormDe`: double A and C until A exceeds 0x7FFF, loading a byte
/// whenever CT runs out (also once more after the loop).
pub open spec fn renorm(s: ArithState, input: Seq<u8>) -> ArithState
    decreases 0x8000 - s.a,
    when 1 <= s.a <= 0x7FFF
{
    let s1 = if s.ct == 0 { byte_in(s, input) } else { s };
    let s2 = ArithState {
        a: (s1.a * 2) as u32,
        c: wrapping_mul(s1.c, 2),
        ct: (s1.ct - 1) as i32,
        ..s1
    };
    if s2.a > RENORM_THRESHOLD {
        if s2.ct == 0 { byte_in(s2, input) } else { s2 }
    } else {
        renorm(s2, input)
    }
}

/// `LpsExchange` for context `cx` in state `st_cx` with interval `lsz`.
pub open spec fn lps_exchange(s: ArithState, cx: int, st_cx: u32, lsz: u32) -> ArithState {
    let s1 = if s.a < lsz {
        ArithState { pix: s.mps[cx], st: s.st.update(cx, nmps_spec(st_cx)), ..s }
    } else {
        let v6 = (s.mps[cx] ^ 1u32) & 1u32;
        ArithState {
            pix: v6,
            st: s.st.update(cx, nlps_spec(st_cx)),
            mps: if switch_spec(st_cx) == 1 { s.mps.update(cx, v6) } else { s.mps },
            ..s
        }
    };
    ArithState { c: wrapping_sub(s1.c, s1.a << 16u32), a: lsz, ..s1 }
}

/// `MpsExchange` for context `cx` in state `st_cx` with interval `lsz`.
pub open spec fn mps_exchange(s: ArithState, cx: int, st_cx: u32, lsz: u32) -> ArithState {
    if s.a >= lsz {
        ArithState { pix: s.mps[cx], st: s.st.update(cx, nmps_spec(st_cx)), ..s }
    } else {
        let v6 = (s.mps[cx] ^ 1u32) & 1u32;
        ArithState {
            pix: v6,
            st: s.st.update(cx, nlps_spec(st_cx)),
            mps: if switch_spec(st_cx) == 1 { s.mps.update(cx, v6) } else { s.mps },
            ..s
        }
    }
}

/// Decode one symbol in context `cx` (`Decode1`, and `Decode(int CX)`).
/// The decoded symbol is the `pix` of the result.
pub open spec fn decode_symbol(s: ArithState, cx: int, input: Seq<u8>) -> ArithState {
    let st_cx = s.st[cx];
    let lsz = lsz_spec(st_cx);
    let a = (s.a - lsz) as u32;
    let s1 = ArithState { a: a, ..s };
    if a <= s.c >> 16u32 {
        renorm(lps_exchange(s1, cx, st_cx, lsz), input)
    } else if a > RENORM_THRESHOLD {
        ArithState { pix: s.mps[cx], ..s1 }
    } else {
        renorm(mps_exchange(s1, cx, st_cx, lsz), input)
    }
}

proof fn lemma_byte_in(s: ArithState, input: Seq<u8>)
    requires
        s.pos <= s.len,
    ensures
        byte_in(s, input).ct == 8,
        byte_in(s, input).pos <= byte_in(s, input).len,
        byte_in(s, input).len == s.len,
        byte_in(s, input).a == s.a,
        byte_in(s, input).mps == s.mps,
        byte_in(s, input).st == s.st,
        byte_in(s, input).pix == s.pix,
{
}

proof fn lemma_renorm(s: ArithState, input: Seq<u8>)
    requires
        1 <= s.a <= 0x7FFF,
        0 <= s.ct <= 8,
        s.pos <= s.len,
    ensures
        0x8000 <= renorm(s, input).a <= 0xFFFE,
        0 <= renorm(s, input).ct <= 8,
        renorm(s, input).pos <= renorm(s, input).len,
        renorm(s, input).len == s.len,
        renorm(s, input).mps == s.mps,
        renorm(s, input).st == s.st,
        renorm(s, input).pix == s.pix,
    decreases 0x8000 - s.a,
{
    let s1 = if s.ct == 0 { byte_in(s, input) } else { s };
    lemma_byte_in(s, input);
    let s2 = ArithState {
        a: (s1.a * 2) as u32,
        c: wrapping_mul(s1.c, 2),
        ct: (s1.ct - 1) as i32,
        ..s1
    };
    if s2.a > RENORM_THRESHOLD {
        lemma_byte_in(s2, input);
    } else {
        lemma_renorm(s2, input);
    }
}

proof fn lemma_flip_is_bit(m: u32)
    ensures
        (m ^ 1u32) & 1u32 <= 1,
{
    assert((m ^ 1u32) & 1u32 <= 1) by (bit_vector);
}

/// One decoding step keeps the decoder invariant.
proof fn lemma_decode_symbol(s: ArithState, cx: int, input: Seq<u8>)
    requires
        arith_wf(s),
        0 <= cx < MPS_TABLE_LEN,
    ensures
        arith_wf(decode_symbol(s, cx, input)),
        decode_symbol(s, cx, input).len == s.len,
{
    let st_cx = s.st[cx];
    lemma_table_ranges(st_cx);
    let lsz = lsz_spec(st_cx);
    let a = (s.a - lsz) as u32;
    let s1 = ArithState { a: a, ..s };
    lemma_table_ranges(nlps_spec(st_cx));
    if a <= s.c >> 16u32 {
        let s2 = lps_exchange(s1, cx, st_cx, lsz);
        lemma_flip_is_bit(s.mps[cx]);
        lemma_renorm(s2, input);
        assert(forall|i: int| 0 <= i < MPS_TABLE_LEN ==> #[trigger] s2.st[i] < 113);
        assert(forall|i: int| 0 <= i < MPS_TABLE_LEN ==> #[trigger] s2.mps[i] <= 1);
    } else if a > RENORM_THRESHOLD {
    } else {
        let s2 = mps_exchange(s1, cx, st_cx, lsz);
        lemma_flip_is_bit(s.mps[cx]);
        lemma_renorm(s2, input);
        assert(forall|i: int| 0 <= i < MPS_TABLE_LEN ==> #[trigger] s2.st[i] < 113);
        assert(forall|i: int| 0 <= i < MPS_TABLE_LEN ==> #[trigger] s2.mps[i] <= 1);
    }
}

// ---------------------------------------------------------------------
// The image: lines of pixels
// ---------------------------------------------------------------------

/// Pixel `x` of a line: black (`true`) inside the line where the line says
/// so, white outside it.
pub open spec fn px(line: Seq<bool>, x: int) -> bool {
    0 <= x < line.len() && line[x]
}

/// A white line of `w` pixels.
pub open spec fn blank_line(w: nat) -> Seq<bool> {
    Seq::new(w, |i: int| false)
}

/// 1 for a black pixel, 0 for a white one.
pub open spec fn bit_val(b: bool) -> u32 {
    if b {
        1
    } else {
        0
    }
}

/// The context with which a non-typical line starts (`GetCX` at column 0):
/// the first three pixels of the line above and the first two pixels of
/// the line two above.
pub open spec fn line_context(prev: Seq<bool>, prev2: Seq<bool>) -> u32 {
    (2 * (bit_val(px(prev2, 0)) + 2 * (bit_val(px(prev2, 1)) + 8 * (bit_val(px(prev, 0)) + 2 * (
    bit_val(px(prev, 1)) + 2 * bit_val(px(prev, 2))))))) as u32
}

/// The context after a pixel: the register shifted right, the black flag
/// of the pixel folded in, and the pixels two columns to the right in the
/// line above (`up1`) and three to the right two lines above (`up2`).
pub open spec fn next_context(cx: u32, black: bool, up1: bool, up2: bool) -> u32 {
    let c = if black {
        cx | TYPICAL_PREDICTION_BIT
    } else {
        cx
    };
    let v = ((c >> 1u32) & SLNTP_SHIFT_CLEAR_MASK) | SLNTP_TWO_UP_TWO_RIGHT;
    let v = if up1 {
        v
    } else {
        v & !SLNTP_TWO_UP_TWO_RIGHT
    };
    let c2 = v | SLNTP_ONE_UP_THREE_RIGHT;
    if up2 {
        c2
    } else {
        c2 & !SLNTP_ONE_UP_THREE_RIGHT
    }
}

/// Decoding the pixels `x..w` of a non-typical line, starting in state `s`
/// with context `cx`, given the line above (`up1`) and the line two above
/// (`up2`): the final state and the pixels.
pub open spec fn decode_run(
    s: ArithState,
    input: Seq<u8>,
    cx: u32,
    up1: Seq<bool>,
    up2: Seq<bool>,
    x: int,
    w: int,
) -> (ArithState, Seq<bool>)
    decreases w - x,
{
    if x >= w {
        (s, Seq::empty())
    } else {
        let s1 = decode_symbol(s, cx as int, input);
        let black = s1.pix == 1;
        let next = next_context(cx, black, px(up1, x + 2), px(up2, x + 3));
        let rest = decode_run(s1, input, next, up1, up2, x + 1, w);
        (rest.0, seq![black] + rest.1)
    }
}

/// Decoding `n` more lines of width `w`, after the lines `prev` (the one
/// just above) and `prev2`: each line starts with its typical-line flag;
/// a typical line repeats the line above, any other is decoded pixel by
/// pixel. The final state and the lines.
pub open spec fn decode_lines(
    s: ArithState,
    input: Seq<u8>,
    w: nat,
    n: nat,
    prev: Seq<bool>,
    prev2: Seq<bool>,
) -> (ArithState, Seq<Seq<bool>>)
    decreases n,
{
    if n == 0 {
        (s, Seq::empty())
    } else {
        let s1 = decode_symbol(s, INITIAL_DECODE_CX as int, input);
        let line = if s1.pix != 0 {
            (s1, prev)
        } else {
            decode_run(s1, input, line_context(prev, prev2), prev, prev2, 0, w as int)
        };
        let rest = decode_lines(line.0, input, w, (n - 1) as nat, line.1, prev);
        (rest.0, seq![line.1] + rest.1)
    }
}

/// Each line starts with its typical-line flag, decoded in the initial
/// context: a set flag makes the line a copy of the line above; a clear
/// flag decodes the line pixel by pixel from column 0. The lines after it
/// follow from the state it leaves, with it as the line above.
pub proof fn lemma_line_flag(
    s: ArithState,
    input: Seq<u8>,
    w: nat,
    n: nat,
    prev: Seq<bool>,
    prev2: Seq<bool>,
)
    requires
        n > 0,
    ensures
        ({
            let s1 = decode_symbol(s, INITIAL_DECODE_CX as int, input);
            let r = decode_lines(s, input, w, n, prev, prev2);
            let first = if s1.pix != 0 {
                (s1, prev)
            } else {
                decode_run(s1, input, line_context(prev, prev2), prev, prev2, 0, w as int)
            };
            let rest = decode_lines(first.0, input, w, (n - 1) as nat, first.1, prev);
            &&& s1.pix != 0 ==> r.1[0] == prev
            &&& r.1[0] == first.1
            &&& r.1.subrange(1, r.1.len() as int) == rest.1
            &&& r.0 == rest.0
        }),
{
    let s1 = decode_symbol(s, INITIAL_DECODE_CX as int, input);
    let first = if s1.pix != 0 {
        (s1, prev)
    } else {
        decode_run(s1, input, line_context(prev, prev2), prev, prev2, 0, w as int)
    };
    let rest = decode_lines(first.0, input, w, (n - 1) as nat, first.1, prev);
    let r = decode_lines(s, input, w, n, prev, prev2);
    assert(r.1 == seq![first.1] + rest.1);
    assert(r.1.subrange(1, r.1.len() as int) =~= rest.1);
}

/// The registers and tables of a freshly created codec.
pub open spec fn fresh_state() -> ArithState {
    ArithState {
        a: 0,
        c: 0,
        ct: 0,
        len: 0,
        pos: 0,
        mps: Seq::new(MPS_TABLE_LEN as nat, |i: int| 0u32),
        st: Seq::new(MPS_TABLE_LEN as nat, |i: int| 0u32),
        pix: 0,
    }
}

/// The `h` lines of width `w` that a fresh codec decodes from `stream`.
pub open spec fn decode_image(stream: Seq<u8>, w: nat, h: nat) -> Seq<Seq<bool>> {
    let s = init_decode(fresh_state(), stream, stream.len());
    decode_lines(s, stream, w, h, blank_line(w), blank_line(w)).1
}

/// Whether bit `k` of `b`, counted from the most significant, is set.
pub open spec fn bit_at(b: u8, k: u8) -> bool {
    b & (0x80u8 >> k) != 0
}

/// Pixels are packed most significant bit first: pixel `k` of a byte is
/// bit `7 - k` counted from the least significant.
pub proof fn lemma_msb_first(b: u8, k: u8)
    requires
        k < 8,
    ensures
        bit_at(b, k) == ((b >> (7 - k) as u8) & 1u8 == 1u8),
{
    assert((b & (0x80u8 >> k) != 0) == ((b >> (7 - k) as u8) & 1u8 == 1u8)) by (bit_vector)
        requires
            k < 8,
    ;
}

/// Pixel `x` of the row of packed pixels that starts at `off` in `out`
/// (eight pixels a byte, the first in the most significant bit).
pub open spec fn row_px(out: Seq<u8>, off: int, x: int) -> bool {
    bit_at(out[off + x / 8], (x % 8) as u8)
}

/// Pixel `x` of line `k` in a buffer of `h` rows of `stride` bytes that
/// holds the lines bottom-up (line 0 in the last row).
pub open spec fn stored_px(out: Seq<u8>, stride: nat, h: nat, k: int, x: int) -> bool {
    row_px(out, (h - 1 - k) * stride, x)
}

/// `out` holds the lines `lines` bottom-up, one row of `stride` bytes each;
/// the rows of the lines past the end of `lines` are white.
pub open spec fn holds_lines(out: Seq<u8>, stride: nat, h: nat, lines: Seq<Seq<bool>>) -> bool {
    forall|k: int, x: int|
        0 <= k < h && 0 <= x < 8 * stride ==> #[trigger] stored_px(out, stride, h, k, x) == (k
            < lines.len() && px(lines[k], x))
}

/// A line buffer holds one byte per pixel of `line`: 1 for black, 0 for
/// white, 0 past the end of the line.
pub open spec fn buf_holds(buf: Seq<u8>, line: Seq<bool>) -> bool {
    forall|i: int| 0 <= i < buf.len() ==> #[trigger] buf[i] == (if px(line, i) {
        1u8
    } else {
        0u8
    })
}

proof fn lemma_decode_run(
    s: ArithState,
    input: Seq<u8>,
    cx: u32,
    up1: Seq<bool>,
    up2: Seq<bool>,
    x: int,
    w: int,
)
    requires
        arith_wf(s),
        cx < 0x400,
        x <= w,
    ensures
        arith_wf(decode_run(s, input, cx, up1, up2, x, w).0),
        decode_run(s, input, cx, up1, up2, x, w).0.len == s.len,
        decode_run(s, input, cx, up1, up2, x, w).1.len() == w - x,
    decreases w - x,
{
    if x < w {
        let s1 = decode_symbol(s, cx as int, input);
        lemma_decode_symbol(s, cx as int, input);
        let black = s1.pix == 1;
        lemma_next_context(cx, black, px(up1, x + 2), px(up2, x + 3));
        let next = next_context(cx, black, px(up1, x + 2), px(up2, x + 3));
        lemma_decode_run(s1, input, next, up1, up2, x + 1, w);
    }
}

/// A pixel of a decoded run is ink (`true`) exactly when the arithmetic
/// decoder returns symbol 1 for it, and the context register then takes
/// that colour: the first pixel of the run is black iff the first symbol
/// decoded is 1, and the rest of the run is decoded from the state after
/// that symbol, with the context moved on by that pixel.
pub proof fn lemma_run_pixel_is_symbol(
    s: ArithState,
    input: Seq<u8>,
    cx: u32,
    up1: Seq<bool>,
    up2: Seq<bool>,
    x: int,
    w: int,
)
    requires
        x < w,
    ensures
        ({
            let s1 = decode_symbol(s, cx as int, input);
            let r = decode_run(s, input, cx, up1, up2, x, w);
            let ink = s1.pix == 1;
            let rest = decode_run(
                s1,
                input,
                next_context(cx, ink, px(up1, x + 2), px(up2, x + 3)),
                up1,
                up2,
                x + 1,
                w,
            );
            &&& r.1.len() == rest.1.len() + 1
            &&& r.1[0] == ink
            &&& r.1.subrange(1, r.1.len() as int) == rest.1
            &&& r.0 == rest.0
        }),
{
    let s1 = decode_symbol(s, cx as int, input);
    let ink = s1.pix == 1;
    let rest = decode_run(
        s1,
        input,
        next_context(cx, ink, px(up1, x + 2), px(up2, x + 3)),
        up1,
        up2,
        x + 1,
        w,
    );
    let r = decode_run(s, input, cx, up1, up2, x, w);
    assert(r.1 == seq![ink] + rest.1);
    assert(r.1.subrange(1, r.1.len() as int) =~= rest.1);
}

proof fn lemma_next_context(cx: u32, black: bool, up1: bool, up2: bool)
    requires
        cx < 0x400,
    ensures
        next_context(cx, black, up1, up2) < 0x400,
{
    let c = if black {
        cx | 0x200u32
    } else {
        cx
    };
    assert(cx < 0x400 ==> (cx | 0x200u32) < 0x400) by (bit_vector);
    assert(c < 0x400 ==> ((((c >> 1u32) & 0xFDFFu32) | 4u32) | 0x80u32) < 0x400
        && ((((c >> 1u32) & 0xFDFFu32) | 4u32) & !4u32 | 0x80u32) < 0x400
        && (((((c >> 1u32) & 0xFDFFu32) | 4u32) | 0x80u32) & !0x80u32) < 0x400
        && (((((c >> 1u32) & 0xFDFFu32) | 4u32) & !4u32 | 0x80u32) & !0x80u32) < 0x400)
        by (bit_vector);
}

proof fn lemma_line_context(prev: Seq<bool>, prev2: Seq<bool>)
    ensures
        line_context(prev, prev2) <= 230,
{
}

proof fn lemma_decode_lines(
    s: ArithState,
    input: Seq<u8>,
    w: nat,
    n: nat,
    prev: Seq<bool>,
    prev2: Seq<bool>,
)
    requires
        arith_wf(s),
        prev.len() == w,
    ensures
        arith_wf(decode_lines(s, input, w, n, prev, prev2).0),
        decode_lines(s, input, w, n, prev, prev2).1.len() == n,
        forall|k: int|
            0 <= k < n ==> (#[trigger] decode_lines(s, input, w, n, prev, prev2).1[k]).len() == w,
    decreases n,
{
    if n > 0 {
        let s1 = decode_symbol(s, INITIAL_DECODE_CX as int, input);
        lemma_decode_symbol(s, INITIAL_DECODE_CX as int, input);
        lemma_line_context(prev, prev2);
        lemma_decode_run(s1, input, line_context(prev, prev2), prev, prev2, 0, w as int);
        let line = if s1.pix != 0 {
            (s1, prev)
        } else {
            decode_run(s1, input, line_context(prev, prev2), prev, prev2, 0, w as int)
        };
        lemma_decode_lines(line.0, input, w, (n - 1) as nat, line.1, prev);
        let rest = decode_lines(line.0, input, w, (n - 1) as nat, line.1, prev);
        assert forall|k: int| 0 <= k < n implies (#[trigger] decode_lines(
            s,
            input,
            w,
            n,
            prev,
            prev2,
        ).1[k]).len() == w by {
            if k > 0 {
                assert(decode_lines(s, input, w, n, prev, prev2).1[k] == rest.1[k - 1]);
            }
        }
    }
}

/// Setting bit `k` of a byte sets that bit and leaves the others.
proof fn lemma_set_bit(b: u8, k: u8, kk: u8)
    requires
        k < 8,
        kk < 8,
    ensures
        bit_at(b | (1u8 << ((!k) & 7u8)), kk) == (kk == k || bit_at(b, kk)),
        (!k) & 7u8 < 8,
{
    assert(k < 8 && kk < 8 ==> ((b | (1u8 << ((!k) & 7u8))) & (0x80u8 >> kk) != 0) == (kk == k
        || b & (0x80u8 >> kk) != 0)) by (bit_vector);
    assert((!k) & 7u8 < 8) by (bit_vector);
}

/// No bit of a zero byte is set.
proof fn lemma_zero_bits(kk: u8)
    ensures
        !bit_at(0u8, kk),
{
    assert(0u8 & (0x80u8 >> kk) == 0) by (bit_vector);
}

/// Byte `j` of row `a` and any byte of another row `b` are apart.
proof fn lemma_rows_apart(a: int, b: int, j: int, stride: int)
    by (nonlinear_arith)
    requires
        0 <= a,
        0 <= b,
        a != b,
        0 <= j < stride,
    ensures
        a * stride + j < b * stride || a * stride + j >= b * stride + stride,
{
}

/// Row `a` ends inside a buffer of `h` rows.
proof fn lemma_row_end(a: int, h: int, stride: int)
    by (nonlinear_arith)
    requires
        0 <= a < h,
        0 <= stride,
    ensures
        0 <= a * stride,
        a * stride + stride <= h * stride,
{
}

/// Byte `j` of row `a` lies inside a buffer of `h` rows.
proof fn lemma_row_inside(a: int, h: int, j: int, stride: int)
    by (nonlinear_arith)
    requires
        0 <= a < h,
        0 <= j < stride,
    ensures
        0 <= a * stride,
        a * stride + j < h * stride,
        a * stride + stride <= h * stride,
{
}

/// The decoder of CNKI's JBIG1 variant: the arithmetic decoder state
/// together with the geometry of the image being decoded.
#[derive(Debug)]
pub struct JBigCodec {
    a_interval: u32,
    c_register: u32,
    ct: i32,
    inbuf_length: usize,
    read_count: usize,
    mps: Vec<u32>,
    st: Vec<u32>,
    pix: u32,
    bitwidth: u32,
    height: u32,
    width_in_padded_bytes: u32,
}

impl JBigCodec {
    /// The arithmetic-decoder part of the codec.
    pub closed spec fn arith(&self) -> ArithState {
        ArithState {
            a: self.a_interval,
            c: self.c_register,
            ct: self.ct,
            len: self.inbuf_length as nat,
            pos: self.read_count as nat,
            mps: self.mps@,
            st: self.st@,
            pix: self.pix,
        }
    }

    /// Width, height and row stride (in bytes) of the image.
    pub closed spec fn geometry(&self) -> (u32, u32, u32) {
        (self.bitwidth, self.height, self.width_in_padded_bytes)
    }

    /// Allocate a fresh codec: all registers and tables zero.
    pub fn new() -> (r: Self)
        ensures
            r.arith() == fresh_state(),
            r.geometry() == (0u32, 0u32, 0u32),
    {
        let r = Self {
            a_interval: 0,
            c_register: 0,
            ct: 0,
            inbuf_length: 0,
            read_count: 0,
            mps: vec![0u32; MPS_TABLE_LEN],
            st: vec![0u32; MPS_TABLE_LEN],
            pix: 0,
            bitwidth: 0,
            height: 0,
            width_in_padded_bytes: 0,
        };
        assert(r.mps@ =~= Seq::new(MPS_TABLE_LEN as nat, |i: int| 0u32));
        assert(r.st@ =~= Seq::new(MPS_TABLE_LEN as nat, |i: int| 0u32));
        r
    }

    /// Shift one byte from the input buffer into bits 8..16 of
    /// `C_register`, leaving the high bits intact.
    fn byte_in(&mut self, inbuf: &[u8])
        requires
            old(self).inbuf_length <= inbuf@.len(),
            old(self).read_count <= old(self).inbuf_length,
        ensures
            final(self).arith() == byte_in(old(self).arith(), inbuf@),
            final(self).geometry() == old(self).geometry(),
            final(self).inbuf_length == old(self).inbuf_length,
    {
        if self.read_count < self.inbuf_length {
            let v3 = inbuf[self.read_count] as u32;
            self.read_count += 1;
            self.c_register = self.c_register.wrapping_add(v3 << 8u32);
        }
        self.ct = 8;
    }

    /// Initialise the arithmetic decoder: clear the tables and load the
    /// first three bytes of the stream.
    fn init_decode(&mut self, inbuf: &[u8], size: usize)
        requires
            size <= inbuf@.len(),
        ensures
            final(self).arith() == init_decode(old(self).arith(), inbuf@, size as nat),
            final(self).geometry() == old(self).geometry(),
            final(self).inbuf_length == size,
    {
        self.inbuf_length = size;
        self.read_count = 0;
        self.mps = vec![0u32; MPS_TABLE_LEN];
        self.st = vec![0u32; MPS_TABLE_LEN];
        assert(self.mps@ =~= Seq::new(MPS_TABLE_LEN as nat, |i: int| 0u32));
        assert(self.st@ =~= Seq::new(MPS_TABLE_LEN as nat, |i: int| 0u32));
        self.byte_in(inbuf);
        self.c_register = self.c_register << 8u32;
        self.byte_in(inbuf);
        self.c_register = self.c_register << 8u32;
        self.byte_in(inbuf);
        self.a_interval = INITIAL_A;
    }

    /// T.82 renormalisation, plus a trailing `ByteIn` when `ct` has
    /// dropped to zero.
    fn renorm_de(&mut self, inbuf: &[u8])
        requires
            old(self).inbuf_length <= inbuf@.len(),
            old(self).read_count <= old(self).inbuf_length,
            1 <= old(self).a_interval <= 0x7FFF,
            0 <= old(self).ct <= 8,
        ensures
            final(self).arith() == renorm(old(self).arith(), inbuf@),
            final(self).geometry() == old(self).geometry(),
            final(self).inbuf_length == old(self).inbuf_length,
    {
        let ghost goal = renorm(self.arith(), inbuf@);
        loop
            invariant
                self.inbuf_length <= inbuf@.len(),
                self.read_count <= self.inbuf_length,
                1 <= self.a_interval <= 0x7FFF,
                0 <= self.ct <= 8,
                renorm(self.arith(), inbuf@) == goal,
                goal == renorm(old(self).arith(), inbuf@),
                self.geometry() == old(self).geometry(),
                self.inbuf_length == old(self).inbuf_length,
            ensures
                self.arith() == goal,
                self.geometry() == old(self).geometry(),
                self.inbuf_length == old(self).inbuf_length,
            decreases 0x8000 - self.a_interval,
        {
            let ghost s = self.arith();
            if self.ct == 0 {
                self.byte_in(inbuf);
            }
            self.a_interval = self.a_interval * 2;
            self.c_register = self.c_register.wrapping_mul(2);
            self.ct = self.ct - 1;
            let ghost s2 = self.arith();
            if self.a_interval > RENORM_THRESHOLD {
                if self.ct == 0 {
                    self.byte_in(inbuf);
                }
                assert(renorm(s, inbuf@) == (if s2.ct == 0 { byte_in(s2, inbuf@) } else { s2 }));
                return;
            }
        }
    }

    /// Apply the LPS exchange to context `cx`.
    fn lps_exchange(&mut self, cx: usize, st_cx: u32, lsz_st_cx: u32)
        requires
            cx < old(self).mps@.len(),
            cx < old(self).st@.len(),
        ensures
            final(self).arith() == lps_exchange(old(self).arith(), cx as int, st_cx, lsz_st_cx),
            final(self).geometry() == old(self).geometry(),
            final(self).inbuf_length == old(self).inbuf_length,
    {
        if self.a_interval < lsz_st_cx {
            self.pix = self.mps[cx];
            self.st.set(cx, nmps(st_cx));
        } else {
            let v6 = (self.mps[cx] ^ 1) & 1;
            self.pix = v6;
            self.st.set(cx, nlps(st_cx));
            if switch(st_cx) == 1 {
                self.mps.set(cx, v6);
            }
        }
        self.c_register = self.c_register.wrapping_sub(self.a_interval << 16u32);
        self.a_interval = lsz_st_cx;
    }

    /// Apply the MPS exchange to context `cx`.
    fn mps_exchange(&mut self, cx: usize, st_cx: u32, lsz_st_cx: u32)
        requires
            cx < old(self).mps@.len(),
            cx < old(self).st@.len(),
        ensures
            final(self).arith() == mps_exchange(old(self).arith(), cx as int, st_cx, lsz_st_cx),
            final(self).geometry() == old(self).geometry(),
            final(self).inbuf_length == old(self).inbuf_length,
    {
        if self.a_interval >= lsz_st_cx {
            self.pix = self.mps[cx];
            self.st.set(cx, nmps(st_cx));
        } else {
            let v6 = (self.mps[cx] ^ 1) & 1;
            self.pix = v6;
            self.st.set(cx, nlps(st_cx));
            if switch(st_cx) == 1 {
                self.mps.set(cx, v6);
            }
        }
    }

    /// Decode a single symbol with the given 10-bit context. Used inside
    /// the per-line scan loop.
    fn decode1(&mut self, cx: usize, inbuf: &[u8]) -> (r: u32)
        requires
            arith_wf(old(self).arith()),
            old(self).inbuf_length <= inbuf@.len(),
            cx < MPS_TABLE_LEN,
        ensures
            final(self).arith() == decode_symbol(old(self).arith(), cx as int, inbuf@),
            r == final(self).arith().pix,
            final(self).geometry() == old(self).geometry(),
            final(self).inbuf_length == old(self).inbuf_length,
    {
        proof {
            lemma_table_ranges(self.st@[cx as int]);
        }
        let st_cx = self.st[cx];
        let lsz = lsz(st_cx);
        self.a_interval = self.a_interval - lsz;
        if self.a_interval <= self.c_register >> 16u32 {
            self.lps_exchange(cx, st_cx, lsz);
        } else {
            self.pix = self.mps[cx];
            if self.a_interval > RENORM_THRESHOLD {
                return self.pix;
            }
            self.mps_exchange(cx, st_cx, lsz);
        }
        self.renorm_de(inbuf);
        self.pix
    }

    /// Decode the "typical-line" indicator at the start of every line.
    fn decode_typical(&mut self, cx: usize, inbuf: &[u8]) -> (r: u32)
        requires
            arith_wf(old(self).arith()),
            old(self).inbuf_length <= inbuf@.len(),
            cx < MPS_TABLE_LEN,
        ensures
            final(self).arith() == decode_symbol(old(self).arith(), cx as int, inbuf@),
            r == final(self).arith().pix,
            final(self).geometry() == old(self).geometry(),
            final(self).inbuf_length == old(self).inbuf_length,
    {
        proof {
            lemma_table_ranges(self.st@[cx as int]);
        }
        let st_cx = self.st[cx];
        let lsz = lsz(st_cx);
        self.a_interval = self.a_interval - lsz;
        if self.a_interval <= self.c_register >> 16u32 {
            self.lps_exchange(cx, st_cx, lsz);
            self.renorm_de(inbuf);
        } else {
            if self.a_interval <= RENORM_THRESHOLD {
                self.mps_exchange(cx, st_cx, lsz);
                self.renorm_de(inbuf);
            } else {
                self.pix = self.mps[cx];
            }
        }
        self.pix
    }
}


/// `GetBit`: pixel `b` of line `line` read back from the bottom-up
/// buffer, 0 outside the image. The byte is found at `b / 3` (not
/// `b / 8`), as CNKI's encoder expects; for the columns 0..3 that `GetCX`
/// reads both are byte 0.
pub open spec fn get_bit_spec(out: Seq<u8>, w: u32, h: u32, stride: u32, line: int, b: int) -> u32 {
    if b < 0 || b >= w || line < 0 {
        0
    } else {
        let l = if line >= h {
            h - 1
        } else {
            line
        };
        if bit_at(out[(h - 1 - l) * stride + b / 3], (b % 8) as u8) {
            1
        } else {
            0
        }
    }
}

/// The byte that `GetBit` reads lies in `out`.
pub open spec fn get_bit_ok(out: Seq<u8>, w: u32, h: u32, stride: u32, line: int, b: int) -> bool {
    b < 0 || b >= w || line < 0 || (h > 0 && (h - 1 - (if line >= h {
        h - 1
    } else {
        line
    })) * stride + b / 3 < out.len())
}

impl JBigCodec {
    /// Look up a single bit of the image decoded so far (`GetBit`).
    fn get_bit(&self, outptr: &[u8], line_offset: i64, bit_offset: i64) -> (r: u32)
        requires
            get_bit_ok(
                outptr@,
                self.bitwidth,
                self.height,
                self.width_in_padded_bytes,
                line_offset as int,
                bit_offset as int,
            ),
        ensures
            r == get_bit_spec(
                outptr@,
                self.bitwidth,
                self.height,
                self.width_in_padded_bytes,
                line_offset as int,
                bit_offset as int,
            ),
    {
        if bit_offset < 0 || bit_offset >= self.bitwidth as i64 || line_offset < 0 {
            return 0;
        }
        let mut line = line_offset as u64;
        if line >= self.height as u64 {
            line = self.height as u64 - 1;
        }
        let row = (self.height as u64 - 1 - line) as usize;
        let byte_off = (bit_offset / 3) as usize;
        let bit_in_byte = (bit_offset % 8) as u8;
        let stride = self.width_in_padded_bytes as usize;
        let len = outptr.len();
        assert(row * stride + byte_off < len);
        let idx = row * stride + byte_off;
        if outptr[idx] & (0x80u8 >> bit_in_byte) != 0 {
            1
        } else {
            0
        }
    }

    /// The context for the first pixel of line `a2` (`GetCX`): pixels
    /// `a3..a3 + 3` of the line above and `a3..a3 + 2` of the line two above.
    fn get_cx(&self, outptr: &[u8], a2: i64, a3: i64) -> (r: u32)
        requires
            i64::MIN + 2 <= a2,
            a3 <= i64::MAX - 2,
            get_bit_ok(outptr@, self.bitwidth, self.height, self.width_in_padded_bytes, a2 - 1, a3 + 2),
            get_bit_ok(outptr@, self.bitwidth, self.height, self.width_in_padded_bytes, a2 - 1, a3 + 1),
            get_bit_ok(outptr@, self.bitwidth, self.height, self.width_in_padded_bytes, a2 - 1, a3 as int),
            get_bit_ok(outptr@, self.bitwidth, self.height, self.width_in_padded_bytes, a2 - 2, a3 + 1),
            get_bit_ok(outptr@, self.bitwidth, self.height, self.width_in_padded_bytes, a2 - 2, a3 as int),
        ensures
            ({
                let g = |l: int, b: int|
                    get_bit_spec(
                        outptr@,
                        self.bitwidth,
                        self.height,
                        self.width_in_padded_bytes,
                        l,
                        b,
                    );
                r == 2 * (g(a2 - 2, a3 as int) + 2 * (g(a2 - 2, a3 + 1) + 8 * (g(a2 - 1, a3 as int)
                    + 2 * (g(a2 - 1, a3 + 1) + 2 * g(a2 - 1, a3 + 2)))))
            }),
    {
        let v4 = 2 * self.get_bit(outptr, a2 - 1, a3 + 2);
        let v5 = 2 * (self.get_bit(outptr, a2 - 1, a3 + 1) + v4);
        let v6 = 8 * (self.get_bit(outptr, a2 - 1, a3) + v5);
        let v7 = 2 * (self.get_bit(outptr, a2 - 2, a3 + 1) + v6);
        2 * (self.get_bit(outptr, a2 - 2, a3) + v7)
    }

    /// Zero out `size` 4-byte words at the start of `dest`.
    fn clear_line(&self, dest: &mut Vec<u8>, size: usize)
        requires
            size * 4 <= old(dest)@.len(),
        ensures
            final(dest)@.len() == old(dest)@.len(),
            forall|i: int|
                0 <= i < final(dest)@.len() ==> #[trigger] final(dest)@[i] == if i < size * 4 {
                    0u8
                } else {
                    old(dest)@[i]
                },
    {
        let len = dest.len();
        let n = size * 4;
        let mut i: usize = 0;
        while i < n
            invariant
                i <= n,
                n == size * 4,
                n <= dest@.len(),
                dest@.len() == old(dest)@.len(),
                forall|k: int|
                    0 <= k < dest@.len() ==> #[trigger] dest@[k] == if k < i {
                        0u8
                    } else {
                        old(dest)@[k]
                    },
            decreases n - i,
        {
            dest.set(i, 0);
            i += 1;
        }
    }

    /// Copy `size` 4-byte words from the start of `src` to the start of
    /// `dest`.
    fn copy_line(&self, dest: &mut Vec<u8>, src: &Vec<u8>, size: usize)
        requires
            size * 4 <= old(dest)@.len(),
            size * 4 <= src@.len(),
        ensures
            final(dest)@.len() == old(dest)@.len(),
            forall|i: int|
                0 <= i < final(dest)@.len() ==> #[trigger] final(dest)@[i] == if i < size * 4 {
                    src@[i]
                } else {
                    old(dest)@[i]
                },
    {
        let len = dest.len();
        let n = size * 4;
        let mut i: usize = 0;
        while i < n
            invariant
                i <= n,
                n == size * 4,
                n <= dest@.len(),
                n <= src@.len(),
                dest@.len() == old(dest)@.len(),
                forall|k: int|
                    0 <= k < dest@.len() ==> #[trigger] dest@[k] == if k < i {
                        src@[k]
                    } else {
                        old(dest)@[k]
                    },
            decreases n - i,
        {
            dest.set(i, src[i]);
            i += 1;
        }
    }

    /// "Typical line": copy the row of line `number - 1` into the row of
    /// line `number` (the row just above it in the bottom-up buffer).
    fn make_typical_line(&self, outptr: &mut [u8], number: u32)
        requires
            self.height * self.width_in_padded_bytes <= old(outptr)@.len(),
        ensures
            final(outptr)@.len() == old(outptr)@.len(),
            forall|i: int|
                0 <= i < final(outptr)@.len() ==> #[trigger] final(outptr)@[i] == if 0 < number
                    < self.height && (self.height - 1 - number) * self.width_in_padded_bytes <= i
                    < (self.height - 1 - number) * self.width_in_padded_bytes + (
                self.width_in_padded_bytes / 4) * 4 {
                    old(outptr)@[i + self.width_in_padded_bytes]
                } else {
                    old(outptr)@[i]
                },
    {
        if number > 0 && number < self.height {
            let stride = self.width_in_padded_bytes as usize;
            let len = outptr.len();
            proof {
                lemma_row_end((self.height - number) as int, self.height as int, stride as int);
                lemma_row_end((self.height - 1 - number) as int, self.height as int, stride as int);
                assert((self.height - number) * stride == (self.height - 1 - number) * stride
                    + stride) by (nonlinear_arith);
            }
            let dst = ((self.height - 1 - number) as usize) * stride;
            let src = dst + stride;
            let n = (stride / 4) * 4;
            let mut j: usize = 0;
            while j < n
                invariant
                    j <= n,
                    n <= stride,
                    src == dst + stride,
                    src + stride <= outptr@.len(),
                    len == outptr@.len(),
                    outptr@.len() == old(outptr)@.len(),
                    forall|i: int|
                        0 <= i < outptr@.len() ==> #[trigger] outptr@[i] == if dst <= i < dst
                            + j {
                            old(outptr)@[i + stride]
                        } else {
                            old(outptr)@[i]
                        },
                decreases n - j,
            {
                let v = outptr[src + j];
                outptr[dst + j] = v;
                j += 1;
            }
        }
    }

    /// Decode one scanline (`LowestDecodeLine`): `a3` holds the line above
    /// and `a4` the line two above, one byte per pixel; the pixels of the
    /// line go into `a6`, one byte each, and into the row at
    /// `scanline_offset` of `outptr`, packed.
    fn lowest_decode_line(
        &mut self,
        inbuf: &[u8],
        outptr: &mut [u8],
        a3: &Vec<u8>,
        a4: &Vec<u8>,
        a6: &mut Vec<u8>,
        cx: u32,
        scanline_offset: usize,
        Ghost(up1): Ghost<Seq<bool>>,
        Ghost(up2): Ghost<Seq<bool>>,
    )
        requires
            arith_wf(old(self).arith()),
            old(self).inbuf_length <= inbuf@.len(),
            cx < 0x400,
            old(self).bitwidth <= 8 * old(self).width_in_padded_bytes,
            a3@.len() == 8 * (old(self).width_in_padded_bytes + 2),
            a4@.len() == 8 * (old(self).width_in_padded_bytes + 2),
            old(a6)@.len() == 8 * (old(self).width_in_padded_bytes + 2),
            buf_holds(a3@, up1),
            buf_holds(a4@, up2),
            forall|i: int| 0 <= i < old(a6)@.len() ==> #[trigger] old(a6)@[i] == 0,
            scanline_offset + old(self).width_in_padded_bytes <= old(outptr)@.len(),
            forall|x: int|
                0 <= x < 8 * old(self).width_in_padded_bytes ==> !#[trigger] row_px(
                    old(outptr)@,
                    scanline_offset as int,
                    x,
                ),
        ensures
            ({
                let r = decode_run(
                    old(self).arith(),
                    inbuf@,
                    cx,
                    up1,
                    up2,
                    0,
                    old(self).bitwidth as int,
                );
                &&& final(self).arith() == r.0
                &&& buf_holds(final(a6)@, r.1)
                &&& forall|x: int|
                    0 <= x < 8 * old(self).width_in_padded_bytes ==> #[trigger] row_px(
                        final(outptr)@,
                        scanline_offset as int,
                        x,
                    ) == px(r.1, x)
            }),
            final(self).geometry() == old(self).geometry(),
            final(self).inbuf_length == old(self).inbuf_length,
            final(a6)@.len() == old(a6)@.len(),
            final(outptr)@.len() == old(outptr)@.len(),
            forall|i: int|
                0 <= i < final(outptr)@.len() && !(scanline_offset <= i < scanline_offset
                    + old(self).width_in_padded_bytes) ==> #[trigger] final(outptr)@[i] == old(
                    outptr,
                )@[i],
    {
        let ghost w = self.bitwidth as int;
        let ghost stride = self.width_in_padded_bytes as int;
        let ghost off = scanline_offset as int;
        let ghost goal = decode_run(self.arith(), inbuf@, cx, up1, up2, 0, w);
        proof {
            lemma_decode_run(self.arith(), inbuf@, cx, up1, up2, 0, w);
            assert(goal.1.subrange(0, w) =~= goal.1);
            assert(goal.1.subrange(0, 0) =~= Seq::<bool>::empty());
        }
        let mut cx = cx;
        let out_len = outptr.len();
        let line_len = a3.len();
        let mut x: u32 = 0;
        while x < self.bitwidth
            invariant
                out_len == outptr@.len(),
                line_len == a3@.len(),
                x <= w,
                w == self.bitwidth,
                stride == self.width_in_padded_bytes,
                off == scanline_offset,
                w <= 8 * stride,
                cx < 0x400,
                arith_wf(self.arith()),
                self.inbuf_length <= inbuf@.len(),
                self.geometry() == old(self).geometry(),
                self.inbuf_length == old(self).inbuf_length,
                goal.1.len() == w,
                decode_run(self.arith(), inbuf@, cx, up1, up2, x as int, w) == (
                goal.0,
                goal.1.subrange(x as int, w),
                ),
                a3@.len() == 8 * (stride + 2),
                a4@.len() == 8 * (stride + 2),
                a6@.len() == 8 * (stride + 2),
                buf_holds(a3@, up1),
                buf_holds(a4@, up2),
                buf_holds(a6@, goal.1.subrange(0, x as int)),
                off + stride <= outptr@.len(),
                outptr@.len() == old(outptr)@.len(),
                forall|xx: int|
                    0 <= xx < 8 * stride ==> #[trigger] row_px(outptr@, off, xx) == px(
                        goal.1.subrange(0, x as int),
                        xx,
                    ),
                forall|i: int|
                    0 <= i < outptr@.len() && !(off <= i < off + stride) ==> #[trigger] outptr@[i]
                        == old(outptr)@[i],
            decreases w - x,
        {
            let ghost s0 = self.arith();
            let ghost cx0 = cx;
            let ghost prefix = goal.1.subrange(0, x as int);
            proof {
                lemma_decode_symbol(s0, cx as int, inbuf@);
            }
            let pix = self.decode1(cx as usize, inbuf);
            let ghost black = pix == 1;
            let ghost rest = decode_run(
                self.arith(),
                inbuf@,
                next_context(cx, black, px(up1, x + 2), px(up2, x + 3)),
                up1,
                up2,
                x + 1,
                w,
            );
            proof {
                let tail = goal.1.subrange(x as int, w);
                assert(tail == seq![black] + rest.1);
                assert(tail[0] == goal.1[x as int]);
                assert((seq![black] + rest.1)[0] == black);
                assert forall|i: int| 0 <= i < rest.1.len() implies goal.1.subrange(x + 1, w)[i]
                    == rest.1[i] by {
                    assert(tail[i + 1] == goal.1[x + 1 + i]);
                    assert((seq![black] + rest.1)[i + 1] == rest.1[i]);
                }
                assert(goal.1.subrange(x + 1, w) =~= rest.1);
            }
            if pix == 1 {
                let byte_idx = (x / 8) as usize;
                let k = (x % 8) as u8;
                let ghost before = outptr@;
                proof {
                    lemma_set_bit(0, k, 0);
                }
                let b = outptr[scanline_offset + byte_idx] | (1u8 << ((!k) & 7u8));
                outptr[scanline_offset + byte_idx] = b;
                cx = cx | TYPICAL_PREDICTION_BIT;
                a6.set(x as usize, 1);
                proof {
                    assert forall|xx: int| 0 <= xx < 8 * stride implies #[trigger] row_px(
                        outptr@,
                        off,
                        xx,
                    ) == px(goal.1.subrange(0, x + 1), xx) by {
                        assert(row_px(before, off, xx) == px(prefix, xx));
                        if xx / 8 == x / 8 {
                            lemma_set_bit(before[off + x / 8], k, (xx % 8) as u8);
                        }
                    }
                }
            }
            let mut v11 = (cx >> 1u32) & SLNTP_SHIFT_CLEAR_MASK;
            v11 = v11 | SLNTP_TWO_UP_TWO_RIGHT;
            if a3[x as usize + 2] != 1 {
                v11 = v11 & !SLNTP_TWO_UP_TWO_RIGHT;
            }
            cx = v11 | SLNTP_ONE_UP_THREE_RIGHT;
            if a4[x as usize + 3] != 1 {
                cx = cx & !SLNTP_ONE_UP_THREE_RIGHT;
            }
            proof {
                assert(cx == next_context(cx0, black, px(up1, x + 2), px(up2, x + 3)));
                lemma_next_context(cx0, black, px(up1, x + 2), px(up2, x + 3));
                let next_prefix = goal.1.subrange(0, x + 1);
                assert forall|xx: int| xx != x implies px(next_prefix, xx) == px(prefix, xx) by {}
                assert(px(next_prefix, x as int) == black);
                if !black {
                    assert forall|xx: int| 0 <= xx < 8 * stride implies #[trigger] row_px(
                        outptr@,
                        off,
                        xx,
                    ) == px(next_prefix, xx) by {
                        assert(row_px(outptr@, off, xx) == px(prefix, xx));
                    }
                }
                assert forall|i: int| 0 <= i < a6@.len() implies #[trigger] a6@[i] == (if px(
                    next_prefix,
                    i,
                ) {
                    1u8
                } else {
                    0u8
                }) by {
                    if i != x {
                        assert(px(next_prefix, i) == px(prefix, i));
                    }
                }
            }
            x += 1;
        }
    }
}


/// A row other than row `n` keeps its pixels when only the bytes of row
/// `n` change.
proof fn lemma_other_row(
    before: Seq<u8>,
    after: Seq<u8>,
    stride: nat,
    h: nat,
    n: int,
    k: int,
    x: int,
)
    requires
        0 <= n < h,
        0 <= k < h,
        k != n,
        0 <= x < 8 * stride,
        h * stride <= before.len(),
        after.len() == before.len(),
        forall|i: int|
            0 <= i < after.len() && !((h - 1 - n) * stride <= i < (h - 1 - n) * stride + stride)
                ==> #[trigger] after[i] == before[i],
    ensures
        stored_px(after, stride, h, k, x) == stored_px(before, stride, h, k, x),
{
    lemma_rows_apart(h - 1 - k, h - 1 - n, x / 8, stride as int);
    lemma_row_inside(h - 1 - k, h as int, x / 8, stride as int);
    let i = (h - 1 - k) * stride + x / 8;
    assert(after[i] == before[i]);
}

/// `GetBit` on the first three columns of an already decoded line reads
/// the pixel of that line.
proof fn lemma_get_bit_px(
    out: Seq<u8>,
    w: u32,
    h: u32,
    stride: u32,
    lines: Seq<Seq<bool>>,
    l: int,
    b: int,
    line: Seq<bool>,
)
    requires
        holds_lines(out, stride as nat, h as nat, lines),
        w <= 8 * stride,
        h * stride <= out.len(),
        lines.len() <= h,
        0 <= b < 3,
        l < lines.len(),
        l >= 0 ==> line == lines[l],
        l < 0 ==> line == blank_line(w as nat),
        line.len() == w,
    ensures
        get_bit_ok(out, w, h, stride, l, b),
        get_bit_spec(out, w, h, stride, l, b) == bit_val(px(line, b)),
{
    if b < w && l >= 0 {
        lemma_row_inside(h - 1 - l, h as int, 0, stride as int);
        assert(stored_px(out, stride as nat, h as nat, l, b) == px(lines[l], b));
    }
}

/// One more line of `decode_lines`: the next line of the result, and the
/// rest decoded from the state after it.
proof fn lemma_decode_lines_step(
    s: ArithState,
    input: Seq<u8>,
    w: nat,
    m: nat,
    prev: Seq<bool>,
    prev2: Seq<bool>,
    all: Seq<Seq<bool>>,
    n: int,
    fin: ArithState,
)
    requires
        m > 0,
        0 <= n,
        n + m == all.len(),
        decode_lines(s, input, w, m, prev, prev2) == (fin, all.subrange(n, all.len() as int)),
    ensures
        ({
            let s1 = decode_symbol(s, INITIAL_DECODE_CX as int, input);
            let line = if s1.pix != 0 {
                (s1, prev)
            } else {
                decode_run(s1, input, line_context(prev, prev2), prev, prev2, 0, w as int)
            };
            &&& all[n] == line.1
            &&& decode_lines(line.0, input, w, (m - 1) as nat, line.1, prev) == (
            fin,
            all.subrange(n + 1, all.len() as int),
            )
        }),
{
    let s1 = decode_symbol(s, INITIAL_DECODE_CX as int, input);
    let line = if s1.pix != 0 {
        (s1, prev)
    } else {
        decode_run(s1, input, line_context(prev, prev2), prev, prev2, 0, w as int)
    };
    let rest = decode_lines(line.0, input, w, (m - 1) as nat, line.1, prev);
    let tail = all.subrange(n, all.len() as int);
    assert(tail == seq![line.1] + rest.1);
    assert(tail[0] == all[n]);
    assert((seq![line.1] + rest.1)[0] == line.1);
    assert forall|i: int| 0 <= i < rest.1.len() implies all.subrange(n + 1, all.len() as int)[i]
        == rest.1[i] by {
        assert(tail[i + 1] == all[n + 1 + i]);
        assert((seq![line.1] + rest.1)[i + 1] == rest.1[i]);
    }
    assert(all.subrange(n + 1, all.len() as int) =~= rest.1);
}

/// Writing the row of line `n` (and nothing else) after the lines `done`
/// gives a buffer that holds `done` followed by that line.
proof fn lemma_holds_lines_step(
    before: Seq<u8>,
    after: Seq<u8>,
    stride: nat,
    h: nat,
    done: Seq<Seq<bool>>,
    line: Seq<bool>,
)
    requires
        done.len() < h,
        h * stride <= before.len(),
        after.len() == before.len(),
        holds_lines(before, stride, h, done),
        forall|i: int|
            0 <= i < after.len() && !((h - 1 - done.len()) * stride <= i < (h - 1 - done.len())
                * stride + stride) ==> #[trigger] after[i] == before[i],
        forall|x: int|
            0 <= x < 8 * stride ==> #[trigger] stored_px(after, stride, h, done.len() as int, x)
                == px(line, x),
    ensures
        holds_lines(after, stride, h, done.push(line)),
{
    let n = done.len() as int;
    let done2 = done.push(line);
    assert forall|k: int, x: int| 0 <= k < h && 0 <= x < 8 * stride implies #[trigger] stored_px(
        after,
        stride,
        h,
        k,
        x,
    ) == (k < done2.len() && px(done2[k], x)) by {
        if k != n {
            lemma_other_row(before, after, stride, h, n, k, x);
            assert(stored_px(before, stride, h, k, x) == (k < done.len() && px(done[k], x)));
        }
    }
}

impl JBigCodec {
    /// Decode the whole image (`LowestDecode`): line by line, each either
    /// a copy of the line above (typical) or decoded pixel by pixel, into
    /// the bottom-up buffer `outptr`.
    fn lowest_decode(&mut self, inbuf: &[u8], outptr: &mut [u8])
        requires
            arith_wf(old(self).arith()),
            old(self).inbuf_length <= inbuf@.len(),
            old(self).width_in_padded_bytes % 4 == 0,
            old(self).height > 0 ==> old(self).bitwidth <= 8 * old(self).width_in_padded_bytes,
            8 * (old(self).width_in_padded_bytes + 2) <= u32::MAX,
            old(self).height * old(self).width_in_padded_bytes <= old(outptr)@.len(),
            holds_lines(
                old(outptr)@,
                old(self).width_in_padded_bytes as nat,
                old(self).height as nat,
                Seq::empty(),
            ),
        ensures
            ({
                let r = decode_lines(
                    old(self).arith(),
                    inbuf@,
                    old(self).bitwidth as nat,
                    old(self).height as nat,
                    blank_line(old(self).bitwidth as nat),
                    blank_line(old(self).bitwidth as nat),
                );
                &&& final(self).arith() == r.0
                &&& holds_lines(
                    final(outptr)@,
                    old(self).width_in_padded_bytes as nat,
                    old(self).height as nat,
                    r.1,
                )
            }),
            final(self).geometry() == old(self).geometry(),
            final(self).inbuf_length == old(self).inbuf_length,
            final(outptr)@.len() == old(outptr)@.len(),
            forall|i: int|
                old(self).height * old(self).width_in_padded_bytes <= i < final(outptr)@.len()
                    ==> #[trigger] final(outptr)@[i] == old(outptr)@[i],
    {
        let ghost w = self.bitwidth as nat;
        let ghost goal = decode_lines(self.arith(), inbuf@, w, self.height as nat, blank_line(w), blank_line(w));
        proof {
            lemma_decode_lines(self.arith(), inbuf@, w, self.height as nat, blank_line(w), blank_line(w));
        }
        let height = self.height;
        if height == 0 {
            return;
        }
        let stride = self.width_in_padded_bytes as usize;
        let line_size = 8 * (stride + 2);
        let mut up1: Vec<u8> = vec![0u8; line_size];
        let mut cur: Vec<u8> = vec![0u8; line_size];
        let mut up2: Vec<u8> = vec![0u8; line_size];
        let ghost mut prev = blank_line(w);
        let ghost mut prev2 = blank_line(w);
        let ghost h = height as nat;
        proof {
            lemma_row_end((height - 1) as int, height as int, stride as int);
            assert(goal.1.subrange(0, 0) =~= Seq::<Seq<bool>>::empty());
            assert(goal.1.subrange(0, h as int) =~= goal.1);
        }
        let out_len = outptr.len();
        let mut offset: usize = stride * (height as usize - 1);
        let mut n: u32 = 0;
        while n < height
            invariant
                0 < height,
                h == height,
                height == self.height,
                stride == self.width_in_padded_bytes,
                w == self.bitwidth,
                stride % 4 == 0,
                w <= 8 * stride,
                line_size == 8 * (stride + 2),
                out_len == outptr@.len(),
                h * stride <= outptr@.len(),
                n <= h,
                n < h ==> offset == (h - 1 - n) * stride,
                arith_wf(self.arith()),
                self.inbuf_length <= inbuf@.len(),
                self.geometry() == old(self).geometry(),
                self.inbuf_length == old(self).inbuf_length,
                goal.1.len() == h,
                forall|k: int| 0 <= k < h ==> (#[trigger] goal.1[k]).len() == w,
                decode_lines(self.arith(), inbuf@, w, (h - n) as nat, prev, prev2) == (
                goal.0,
                goal.1.subrange(n as int, h as int),
                ),
                goal == decode_lines(
                    old(self).arith(),
                    inbuf@,
                    w,
                    h,
                    blank_line(w),
                    blank_line(w),
                ),
                prev.len() == w,
                prev2.len() == w,
                n >= 1 ==> prev == goal.1[n - 1],
                n == 0 ==> prev == blank_line(w),
                n >= 2 ==> prev2 == goal.1[n - 2],
                n < 2 ==> prev2 == blank_line(w),
                up1@.len() == line_size,
                up2@.len() == line_size,
                cur@.len() == line_size,
                n < h ==> buf_holds(up1@, prev),
                n < h ==> buf_holds(up2@, prev2),
                n < h ==> forall|i: int| 8 * stride <= i < line_size ==> #[trigger] cur@[i] == 0,
                holds_lines(outptr@, stride as nat, h, goal.1.subrange(0, n as int)),
                outptr@.len() == old(outptr)@.len(),
                forall|i: int|
                    h * stride <= i < outptr@.len() ==> #[trigger] outptr@[i] == old(outptr)@[i],
            decreases h - n,
        {
            let ghost s0 = self.arith();
            let ghost before = outptr@;
            let ghost done = goal.1.subrange(0, n as int);
            proof {
                lemma_decode_symbol(s0, INITIAL_DECODE_CX as int, inbuf@);
                lemma_row_end((h - 1 - n) as int, h as int, stride as int);
            }
            let t = self.decode_typical(INITIAL_DECODE_CX as usize, inbuf);
            let ghost s1 = self.arith();
            let ghost line_pair = if s1.pix != 0 {
                (s1, prev)
            } else {
                decode_run(s1, inbuf@, line_context(prev, prev2), prev, prev2, 0, w as int)
            };
            if t != 0 {
                self.make_typical_line(outptr, n);
                self.copy_line(&mut cur, &up1, 2 * stride);
                proof {
                    assert((stride / 4) * 4 == stride);
                    assert forall|i: int|
                        0 <= i < outptr@.len() && !((h - 1 - n) * stride <= i < (h - 1 - n) * stride
                            + stride) implies #[trigger] outptr@[i] == before[i] by {}
                    if n > 0 {
                        assert((h - 1 - (n - 1)) * stride == (h - 1 - n) * stride + stride)
                            by (nonlinear_arith);
                    }
                    assert forall|x: int| 0 <= x < 8 * stride implies #[trigger] stored_px(
                        outptr@,
                        stride as nat,
                        h,
                        n as int,
                        x,
                    ) == px(prev, x) by {
                        let i = (h - 1 - n) * stride + x / 8;
                        if n > 0 {
                            assert(outptr@[i] == before[i + stride]);
                            assert(stored_px(before, stride as nat, h, n - 1, x) == px(
                                done[n - 1],
                                x,
                            ));
                        } else {
                            assert(stored_px(before, stride as nat, h, n as int, x) == false);
                        }
                    }
                    assert forall|i: int| 0 <= i < cur@.len() implies #[trigger] cur@[i] == (if px(
                        prev,
                        i,
                    ) {
                        1u8
                    } else {
                        0u8
                    }) by {
                        if i < 8 * stride {
                            assert(cur@[i] == up1@[i]);
                        }
                    }
                }
            } else {
                self.clear_line(&mut cur, 2 * stride);
                proof {
                    lemma_get_bit_px(before, self.bitwidth, height, self.width_in_padded_bytes, done, n - 1, 0, prev);
                    lemma_get_bit_px(before, self.bitwidth, height, self.width_in_padded_bytes, done, n - 1, 1, prev);
                    lemma_get_bit_px(before, self.bitwidth, height, self.width_in_padded_bytes, done, n - 1, 2, prev);
                    lemma_get_bit_px(before, self.bitwidth, height, self.width_in_padded_bytes, done, n - 2, 0, prev2);
                    lemma_get_bit_px(before, self.bitwidth, height, self.width_in_padded_bytes, done, n - 2, 1, prev2);
                }
                let cx = self.get_cx(outptr, n as i64, 0);
                proof {
                    assert(cx == line_context(prev, prev2));
                    lemma_line_context(prev, prev2);
                    assert forall|x: int| 0 <= x < 8 * stride implies !#[trigger] row_px(
                        outptr@,
                        offset as int,
                        x,
                    ) by {
                        assert(stored_px(before, stride as nat, h, n as int, x) == false);
                    }
                }
                self.lowest_decode_line(
                    inbuf,
                    outptr,
                    &up1,
                    &up2,
                    &mut cur,
                    cx,
                    offset,
                    Ghost(prev),
                    Ghost(prev2),
                );
                proof {
                    lemma_decode_run(s1, inbuf@, cx, prev, prev2, 0, w as int);
                    assert forall|x: int| 0 <= x < 8 * stride implies #[trigger] stored_px(
                        outptr@,
                        stride as nat,
                        h,
                        n as int,
                        x,
                    ) == px(line_pair.1, x) by {
                        assert(row_px(outptr@, offset as int, x) == px(line_pair.1, x));
                    }
                }
            }
            proof {
                lemma_decode_lines_step(s0, inbuf@, w, (h - n) as nat, prev, prev2, goal.1, n as int, goal.0);
                assert(goal.1.subrange(0, n + 1) =~= done.push(line_pair.1));
                assert forall|i: int|
                    0 <= i < outptr@.len() && !((h - 1 - done.len()) * stride <= i < (h - 1 - done.len())
                        * stride + stride) implies #[trigger] outptr@[i] == before[i] by {}
                lemma_holds_lines_step(before, outptr@, stride as nat, h, done, line_pair.1);
                assert forall|i: int|
                    h * stride <= i < outptr@.len() implies #[trigger] outptr@[i] == old(
                    outptr,
                )@[i] by {
                    assert(outptr@[i] == before[i]);
                }
            }
            proof {
                prev2 = prev;
                prev = line_pair.1;
            }
            n += 1;
            if n < height {
                proof {
                    assert((h - 1 - (n - 1)) * stride == (h - 1 - n) * stride + stride)
                        by (nonlinear_arith);
                }
                offset = offset - stride;
                std::mem::swap(&mut up2, &mut up1);
                std::mem::swap(&mut up1, &mut cur);
            }
        }
        proof {
            assert(goal.1.subrange(0, h as int) =~= goal.1);
        }
    }
}


/// The decoder invariant holds right after `InitDecode`, whatever the
/// registers held before.
proof fn lemma_init_decode(s: ArithState, input: Seq<u8>, size: nat)
    ensures
        arith_wf(init_decode(s, input, size)),
        init_decode(s, input, size).len == size,
{
    let s0 = ArithState {
        len: size,
        pos: 0,
        mps: Seq::new(MPS_TABLE_LEN as nat, |i: int| 0u32),
        st: Seq::new(MPS_TABLE_LEN as nat, |i: int| 0u32),
        ..s
    };
    lemma_byte_in(s0, input);
    let s1 = byte_in(s0, input);
    lemma_byte_in(ArithState { c: s1.c << 8u32, ..s1 }, input);
    let s2 = byte_in(ArithState { c: s1.c << 8u32, ..s1 }, input);
    lemma_byte_in(ArithState { c: s2.c << 8u32, ..s2 }, input);
}

impl JBigCodec {
    /// Decode one full image of `height` lines of `bitwidth` pixels from
    /// the first `size` bytes of `inbuf` into `outbuf`, rows of
    /// `bitwidth_in_padded_bytes` bytes, bottom-up. The row stride must be
    /// a multiple of 4.
    pub(crate) fn decode(
        &mut self,
        inbuf: &[u8],
        size: usize,
        height: u32,
        bitwidth: u32,
        bitwidth_in_padded_bytes: u32,
        outbuf: &mut [u8],
    ) -> (r: JbigResult<()>)
        requires
            size <= inbuf@.len(),
            height * bitwidth_in_padded_bytes <= old(outbuf)@.len(),
            height > 0 ==> bitwidth <= 8 * bitwidth_in_padded_bytes,
            8 * (bitwidth_in_padded_bytes + 2) <= u32::MAX,
        ensures
            final(outbuf)@.len() == old(outbuf)@.len(),
            bitwidth_in_padded_bytes % 4 != 0 ==> {
                &&& r matches Err(JbigError::Arithmetic(m)) && m@
                    == "width_in_padded_bytes must be a multiple of 4, got "@ + decimal(
                    bitwidth_in_padded_bytes as nat,
                )
                &&& final(outbuf)@ == old(outbuf)@
                &&& final(self).arith() == old(self).arith()
            },
            bitwidth_in_padded_bytes % 4 == 0 ==> {
                let s = init_decode(old(self).arith(), inbuf@, size as nat);
                let r2 = decode_lines(
                    s,
                    inbuf@,
                    bitwidth as nat,
                    height as nat,
                    blank_line(bitwidth as nat),
                    blank_line(bitwidth as nat),
                );
                &&& r is Ok
                &&& final(self).arith() == r2.0
                &&& final(self).geometry() == (bitwidth, height, bitwidth_in_padded_bytes)
                &&& holds_lines(
                    final(outbuf)@,
                    bitwidth_in_padded_bytes as nat,
                    height as nat,
                    r2.1,
                )
                &&& forall|i: int|
                    height * bitwidth_in_padded_bytes <= i < final(outbuf)@.len()
                        ==> #[trigger] final(outbuf)@[i] == old(outbuf)@[i]
            },
    {
        if bitwidth_in_padded_bytes & 3 != 0 {
            proof {
                assert(bitwidth_in_padded_bytes & 3 == bitwidth_in_padded_bytes % 4) by (bit_vector);
            }
            let mut m = string_of("width_in_padded_bytes must be a multiple of 4, got ");
            push_numeral(&mut m, bitwidth_in_padded_bytes as u64, 10, false);
            return Err(JbigError::Arithmetic(m));
        }
        proof {
            assert(bitwidth_in_padded_bytes & 3 == bitwidth_in_padded_bytes % 4) by (bit_vector);
        }
        self.bitwidth = bitwidth;
        self.height = height;
        self.width_in_padded_bytes = bitwidth_in_padded_bytes;
        let row_bytes = bitwidth_in_padded_bytes as usize;
        let out_len = outbuf.len();
        let n = (height as usize) * row_bytes;
        let mut i: usize = 0;
        while i < n
            invariant
                i <= n,
                n == height * bitwidth_in_padded_bytes,
                n <= outbuf@.len(),
                outbuf@.len() == old(outbuf)@.len(),
                forall|k: int|
                    0 <= k < outbuf@.len() ==> #[trigger] outbuf@[k] == if k < i {
                        0u8
                    } else {
                        old(outbuf)@[k]
                    },
            decreases n - i,
        {
            outbuf[i] = 0;
            i += 1;
        }
        proof {
            assert forall|k: int, x: int|
                0 <= k < height && 0 <= x < 8 * bitwidth_in_padded_bytes implies #[trigger] stored_px(
                outbuf@,
                bitwidth_in_padded_bytes as nat,
                height as nat,
                k,
                x,
            ) == (k < Seq::<Seq<bool>>::empty().len() && px(Seq::<Seq<bool>>::empty()[k], x)) by {
                lemma_row_inside(
                    height - 1 - k,
                    height as int,
                    x / 8,
                    bitwidth_in_padded_bytes as int,
                );
                lemma_zero_bits((x % 8) as u8);
            }
            lemma_init_decode(self.arith(), inbuf@, size as nat);
        }
        self.init_decode(inbuf, size);
        self.lowest_decode(inbuf, outbuf);
        Ok(())
    }
}

impl Default for JBigCodec {
    fn default() -> (r: Self)
        ensures
            r.arith() == fresh_state(),
            r.geometry() == (0u32, 0u32, 0u32),
    {
        Self::new()
    }
}

/// Eight pixels packed into a byte, the first in the most significant bit.
pub open spec fn pack8(
    b0: bool,
    b1: bool,
    b2: bool,
    b3: bool,
    b4: bool,
    b5: bool,
    b6: bool,
    b7: bool,
) -> u8 {
    (if b0 {
        0x80u8
    } else {
        0u8
    }) | (if b1 {
        0x40u8
    } else {
        0u8
    }) | (if b2 {
        0x20u8
    } else {
        0u8
    }) | (if b3 {
        0x10u8
    } else {
        0u8
    }) | (if b4 {
        0x08u8
    } else {
        0u8
    }) | (if b5 {
        0x04u8
    } else {
        0u8
    }) | (if b6 {
        0x02u8
    } else {
        0u8
    }) | (if b7 {
        0x01u8
    } else {
        0u8
    })
}

/// Byte `j` of a line packed eight pixels to the byte.
pub open spec fn packed_byte(line: Seq<bool>, j: int) -> u8 {
    pack8(
        px(line, 8 * j),
        px(line, 8 * j + 1),
        px(line, 8 * j + 2),
        px(line, 8 * j + 3),
        px(line, 8 * j + 4),
        px(line, 8 * j + 5),
        px(line, 8 * j + 6),
        px(line, 8 * j + 7),
    )
}

/// The `h` lines packed into rows of `stride` bytes, bottom-up: row `r`
/// holds line `h - 1 - r`.
pub open spec fn packed_lines(lines: Seq<Seq<bool>>, stride: nat, h: nat) -> Seq<u8> {
    Seq::new(h * stride, |i: int| packed_byte(lines[h - 1 - i / (stride as int)], i % (stride as int)))
}

proof fn lemma_pack8_bits(
    b0: bool,
    b1: bool,
    b2: bool,
    b3: bool,
    b4: bool,
    b5: bool,
    b6: bool,
    b7: bool,
)
    by (bit_vector)
    ensures
        bit_at(pack8(b0, b1, b2, b3, b4, b5, b6, b7), 0) == b0,
        bit_at(pack8(b0, b1, b2, b3, b4, b5, b6, b7), 1) == b1,
        bit_at(pack8(b0, b1, b2, b3, b4, b5, b6, b7), 2) == b2,
        bit_at(pack8(b0, b1, b2, b3, b4, b5, b6, b7), 3) == b3,
        bit_at(pack8(b0, b1, b2, b3, b4, b5, b6, b7), 4) == b4,
        bit_at(pack8(b0, b1, b2, b3, b4, b5, b6, b7), 5) == b5,
        bit_at(pack8(b0, b1, b2, b3, b4, b5, b6, b7), 6) == b6,
        bit_at(pack8(b0, b1, b2, b3, b4, b5, b6, b7), 7) == b7,
{
}

proof fn lemma_byte_by_bits(a: u8, c: u8)
    by (bit_vector)
    requires
        bit_at(a, 0) == bit_at(c, 0),
        bit_at(a, 1) == bit_at(c, 1),
        bit_at(a, 2) == bit_at(c, 2),
        bit_at(a, 3) == bit_at(c, 3),
        bit_at(a, 4) == bit_at(c, 4),
        bit_at(a, 5) == bit_at(c, 5),
        bit_at(a, 6) == bit_at(c, 6),
        bit_at(a, 7) == bit_at(c, 7),
    ensures
        a == c,
{
}

/// A buffer of `h` rows that holds `h` lines is those lines packed.
pub proof fn lemma_holds_lines_packed(out: Seq<u8>, stride: nat, h: nat, lines: Seq<Seq<bool>>)
    requires
        holds_lines(out, stride, h, lines),
        out.len() == h * stride,
        lines.len() == h,
    ensures
        out == packed_lines(lines, stride, h),
{
    let p = packed_lines(lines, stride, h);
    assert forall|i: int| 0 <= i < out.len() implies out[i] == p[i] by {
        let r = i / stride as int;
        let j = i % stride as int;
        assert(stride > 0) by (nonlinear_arith)
            requires
                0 <= i < h * stride,
        ;
        vstd::arithmetic::div_mod::lemma_fundamental_div_mod(i, stride as int);
        assert(0 <= j < stride);
        assert(r < h) by (nonlinear_arith)
            requires
                i == stride * r + j,
                0 <= j,
                i < h * stride,
                stride > 0,
        ;
        assert(0 <= r) by (nonlinear_arith)
            requires
                i == stride * r + j,
                0 <= i,
                j < stride,
                stride > 0,
        ;
        let k = h - 1 - r;
        let line = lines[k];
        assert forall|kk: u8| kk < 8 implies #[trigger] bit_at(out[i], kk) == px(line, 8 * j + kk) by {
            let x = 8 * j + kk;
            assert(x / 8 == j && x % 8 == kk);
            assert(stored_px(out, stride, h, k, x) == px(lines[k], x));
            assert((h - 1 - k) * stride + x / 8 == i) by (nonlinear_arith)
                requires
                    h - 1 - k == r,
                    x / 8 == j,
                    i == stride * r + j,
            ;
        }
        lemma_pack8_bits(
            px(line, 8 * j),
            px(line, 8 * j + 1),
            px(line, 8 * j + 2),
            px(line, 8 * j + 3),
            px(line, 8 * j + 4),
            px(line, 8 * j + 5),
            px(line, 8 * j + 6),
            px(line, 8 * j + 7),
        );
        assert(bit_at(out[i], 0) == px(line, 8 * j + 0));
        assert(bit_at(out[i], 1) == px(line, 8 * j + 1));
        assert(bit_at(out[i], 2) == px(line, 8 * j + 2));
        assert(bit_at(out[i], 3) == px(line, 8 * j + 3));
        assert(bit_at(out[i], 4) == px(line, 8 * j + 4));
        assert(bit_at(out[i], 5) == px(line, 8 * j + 5));
        assert(bit_at(out[i], 6) == px(line, 8 * j + 6));
        assert(bit_at(out[i], 7) == px(line, 8 * j + 7));
        assert(p[i] == packed_byte(line, j));
        lemma_byte_by_bits(out[i], p[i]);
    }
    assert(out =~= p);
}

/// The image that [`decode_image`] decodes has `h` lines of `w` pixels.
pub proof fn lemma_decode_image(stream: Seq<u8>, w: nat, h: nat)
    ensures
        decode_image(stream, w, h).len() == h,
        forall|k: int| 0 <= k < h ==> (#[trigger] decode_image(stream, w, h)[k]).len() == w,
{
    let s = init_decode(fresh_state(), stream, stream.len());
    lemma_init_decode(fresh_state(), stream, stream.len());
    lemma_decode_lines(s, stream, w, h, blank_line(w), blank_line(w));
}

} // verus!
