//! Text helpers: decimal and hexadecimal numerals for messages, and
//! comparisons of strings with literals.

use vstd::prelude::*;

verus! {

/// The character of a digit value below 16 (`0`-`9`, then `a`-`f` or
/// `A`-`F`).
pub open spec fn digit_char(d: nat, upper: bool) -> char {
    if d < 10 {
        (48 + d) as char
    } else if upper {
        (55 + d) as char
    } else {
        (87 + d) as char
    }
}

/// The numeral of `n` in base `base` (10 or 16), without leading zeros,
/// as `format!("{}")` and `format!("{:x}")` / `format!("{:X}")` write it.
pub open spec fn numeral(n: nat, base: nat, upper: bool) -> Seq<char>
    decreases n,
{
    if base < 2 {
        Seq::empty()
    } else if n < base {
        seq![digit_char(n, upper)]
    } else {
        proof {
            assert(n / base < n) by (nonlinear_arith)
                requires
                    base >= 2,
                    n >= base,
            ;
        }
        numeral(n / base, base, upper).push(digit_char(n % base, upper))
    }
}

/// The decimal numeral of `n`.
pub open spec fn decimal(n: nat) -> Seq<char> {
    numeral(n, 10, false)
}

/// The lower-case hexadecimal numeral of `n`.
pub open spec fn hex_lower(n: nat) -> Seq<char> {
    numeral(n, 16, false)
}

/// Exactly four upper-case hexadecimal digits of a 16-bit value, as
/// `format!("{:04X}")` writes it.
pub open spec fn hex4_upper(n: u16) -> Seq<char> {
    seq![
        digit_char((n / 4096) as nat, true),
        digit_char(((n / 256) % 16) as nat, true),
        digit_char(((n / 16) % 16) as nat, true),
        digit_char((n % 16) as nat, true),
    ]
}

fn digit(d: u64, upper: bool) -> (c: char)
    requires
        d < 16,
    ensures
        c == digit_char(d as nat, upper),
{
    if d < 10 {
        ((48 + d) as u8) as char
    } else if upper {
        ((55 + d) as u8) as char
    } else {
        ((87 + d) as u8) as char
    }
}

/// Appends the numeral of `n` in base 10 or 16.
pub fn push_numeral(out: &mut String, n: u64, base: u64, upper: bool)
    requires
        base == 10 || base == 16,
    ensures
        final(out)@ == old(out)@ + numeral(n as nat, base as nat, upper),
    decreases n,
{
    if n >= base {
        push_numeral(out, n / base, base, upper);
    }
    out.push(digit(n % base, upper));
    proof {
        if n >= base {
            assert(numeral(n as nat, base as nat, upper) == numeral((n / base) as nat, base as nat, upper).push(
                digit_char((n % base) as nat, upper),
            ));
        }
    }
}

/// Appends four upper-case hexadecimal digits of `n`.
pub fn push_hex4_upper(out: &mut String, n: u16)
    ensures
        final(out)@ == old(out)@ + hex4_upper(n),
{
    out.push(digit((n / 4096) as u64, true));
    out.push(digit(((n / 256) % 16) as u64, true));
    out.push(digit(((n / 16) % 16) as u64, true));
    out.push(digit((n % 16) as u64, true));
    assert(final(out)@ =~= old(out)@ + hex4_upper(n));
}

/// A string made of the characters of a literal.
pub fn string_of(s: &str) -> (r: String)
    ensures
        r@ == s@,
{
    String::from_str(s)
}

/// Appends a literal.
pub fn push_str(out: &mut String, s: &str)
    ensures
        final(out)@ == old(out)@ + s@,
{
    out.append(s);
}

/// `s` with the `'\0'` characters at its end removed, as
/// `str::trim_end_matches('\0')` gives it.
pub open spec fn trim_trailing_nul(s: Seq<char>) -> Seq<char>
    decreases s.len(),
{
    if s.len() > 0 && s.last() == '\0' {
        trim_trailing_nul(s.drop_last())
    } else {
        s
    }
}

/// `s` with trailing NULs removed equals the literal `lit`.
pub fn trimmed_equals(s: &str, lit: &str) -> (r: bool)
    ensures
        r == (trim_trailing_nul(s@) == lit@),
{
    let n = s.unicode_len();
    let mut end = n;
    assert(s@.subrange(0, n as int) =~= s@);
    while end > 0 && s.get_char(end - 1) == '\0'
        invariant
            end <= n,
            n == s@.len(),
            trim_trailing_nul(s@) == trim_trailing_nul(s@.subrange(0, end as int)),
        decreases end,
    {
        assert(s@.subrange(0, end as int).drop_last() =~= s@.subrange(0, end - 1));
        end -= 1;
    }
    let ghost t = s@.subrange(0, end as int);
    assert(trim_trailing_nul(t) == t);
    let m = lit.unicode_len();
    if m != end {
        return false;
    }
    let mut i: usize = 0;
    while i < m
        invariant
            i <= m,
            m == end,
            m == lit@.len(),
            end <= s@.len(),
            t == s@.subrange(0, end as int),
            trim_trailing_nul(s@) == t,
            forall|j: int| 0 <= j < i ==> s@[j] == lit@[j],
        decreases m - i,
    {
        if s.get_char(i) != lit.get_char(i) {
            assert(t[i as int] != lit@[i as int]);
            return false;
        }
        i += 1;
    }
    assert(t =~= lit@);
    true
}

/// The decimal numeral of an integer, with a minus sign when negative.
pub open spec fn signed_decimal(v: int) -> Seq<char> {
    if v < 0 {
        "-"@ + decimal((-v) as nat)
    } else {
        decimal(v as nat)
    }
}

/// Appends the decimal numeral of `v`, with a minus sign when negative.
pub fn push_signed(out: &mut String, v: i64)
    ensures
        final(out)@ == old(out)@ + signed_decimal(v as int),
{
    if v < 0 {
        push_str(out, "-");
        let m: u64 = if v == i64::MIN {
            0x8000_0000_0000_0000u64
        } else {
            (-v) as u64
        };
        push_numeral(out, m, 10, false);
        proof {
            reveal_strlit("-");
            assert(final(out)@ =~= old(out)@ + signed_decimal(v as int));
        }
    } else {
        push_numeral(out, v as u64, 10, false);
    }
}

} // verus!
