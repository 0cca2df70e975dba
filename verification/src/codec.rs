//! Low-level byte primitives: little-endian integer decoding and fixed-width
//! UTF-16LE string decoding with lossy replacement and trailing-NUL trimming.

use vstd::prelude::*;

use crate::erf::ErfError;

verus! {

/// The unsigned 32-bit value stored little-endian in the four bytes of `b`.
pub open spec fn spec_u32_le(b: Seq<u8>) -> u32
    recommends
        b.len() == 4,
{
    (b[0] + b[1] * 0x100 + b[2] * 0x1_0000 + b[3] * 0x100_0000) as u32
}

/// The unsigned 16-bit value stored little-endian in the two bytes of `b`.
pub open spec fn spec_u16_le(b: Seq<u8>) -> u16
    recommends
        b.len() == 2,
{
    (b[0] + b[1] * 0x100) as u16
}

/// The sequence of 16-bit code units stored little-endian in `b`
/// (a trailing odd byte is ignored).
pub open spec fn utf16_units(b: Seq<u8>) -> Seq<u16> {
    Seq::new((b.len() / 2) as nat, |i: int| spec_u16_le(b.subrange(2 * i, 2 * i + 2)))
}

/// A UTF-16 high (leading) surrogate code unit.
pub open spec fn is_high_surrogate(u: u16) -> bool {
    0xD800 <= u < 0xDC00
}

/// A UTF-16 low (trailing) surrogate code unit.
pub open spec fn is_low_surrogate(u: u16) -> bool {
    0xDC00 <= u < 0xE000
}

/// The code point denoted by a surrogate pair.
pub open spec fn combine_surrogates(h: u16, l: u16) -> u32
    recommends
        is_high_surrogate(h),
        is_low_surrogate(l),
{
    (0x10000 + (h - 0xD800) * 0x400 + (l - 0xDC00)) as u32
}

/// UTF-16 decoding with lossy replacement: a lone or mismatched surrogate
/// becomes U+FFFD and decoding continues with the next unit.
pub open spec fn utf16_chars(u: Seq<u16>) -> Seq<char>
    decreases u.len(),
{
    if u.len() == 0 {
        Seq::empty()
    } else if !is_high_surrogate(u[0]) && !is_low_surrogate(u[0]) {
        seq![(u[0] as u32) as char] + utf16_chars(u.drop_first())
    } else if is_high_surrogate(u[0]) && u.len() >= 2 && is_low_surrogate(u[1]) {
        seq![(combine_surrogates(u[0], u[1])) as char] + utf16_chars(u.skip(2))
    } else {
        seq!['\u{FFFD}'] + utf16_chars(u.drop_first())
    }
}

/// `s` with every trailing NUL character removed (embedded NULs stay).
pub open spec fn trim_nul(s: Seq<char>) -> Seq<char>
    decreases s.len(),
{
    if s.len() > 0 && s.last() == '\0' {
        trim_nul(s.drop_last())
    } else {
        s
    }
}

/// What `decode_utf16le` returns on an even number of bytes: the UTF-16LE
/// decoding of `b`, lossy, with trailing NULs trimmed.
pub open spec fn spec_decode_utf16le(b: Seq<u8>) -> Seq<char> {
    trim_nul(utf16_chars(utf16_units(b)))
}

/// Relies on char::from_u32: for a Unicode scalar value (not a surrogate,
/// below 0x110000) it returns `Some` of that very code point, so the
/// fallback arm is never taken under this precondition.
#[verifier::external_body]
fn char_from_u32(v: u32) -> (c: char)
    requires
        v < 0xD800 || (0xE000 <= v < 0x11_0000),
    ensures
        c as u32 == v,
{
    char::from_u32(v).unwrap_or('\u{FFFD}')
}

/// Relies on String::push: appends the given character to the end of the
/// string, changing nothing else.
#[verifier::external_body]
pub(crate) fn push_char(s: &mut String, c: char)
    ensures
        final(s)@ == old(s)@.push(c),
{
    s.push(c);
}

/// Reads a `u32` from exactly four little-endian bytes.
pub fn read_u32(bytes: &[u8]) -> (r: u32)
    requires
        bytes@.len() == 4,
    ensures
        r == spec_u32_le(bytes@),
{
    let b0 = bytes[0] as u32;
    let b1 = bytes[1] as u32;
    let b2 = bytes[2] as u32;
    let b3 = bytes[3] as u32;
    b0 + b1 * 0x100 + b2 * 0x1_0000 + b3 * 0x100_0000
}

/// Reads the `i`-th little-endian 16-bit code unit of `bytes`.
fn read_u16_at(bytes: &[u8], i: usize) -> (u: u16)
    requires
        2 * (i as int) + 2 <= bytes@.len(),
    ensures
        u == utf16_units(bytes@)[i as int],
{
    let len = bytes.len();
    assert(2 * (i as int) + 2 <= len);
    let lo = bytes[2 * i] as u16;
    let hi = bytes[2 * i + 1] as u16;
    proof {
        let b = bytes@.subrange(2 * (i as int), 2 * (i as int) + 2);
        assert(b[0] == bytes@[2 * (i as int)]);
        assert(b[1] == bytes@[2 * (i as int) + 1]);
    }
    lo + hi * 0x100
}

/// Decodes a UTF-16LE byte string: lossy replacement for malformed
/// surrogates, trailing NULs trimmed. An odd byte count is rejected.
pub fn decode_utf16le(bytes: &[u8]) -> (r: Result<String, ErfError>)
    ensures
        bytes@.len() % 2 != 0 ==> r matches Err(ErfError::InvalidStringEncoding),
        bytes@.len() % 2 == 0 ==> (r matches Ok(s) && s@ == spec_decode_utf16le(bytes@)),
{
    if bytes.len() % 2 != 0 {
        return Err(ErfError::InvalidStringEncoding);
    }
    let n = bytes.len() / 2;
    let ghost units = utf16_units(bytes@);
    let mut out = String::new();
    let mut i: usize = 0;
    proof {
        assert(units.skip(0) =~= units);
        assert(out@ + utf16_chars(units) =~= utf16_chars(units));
    }
    while i < n
        invariant
            i <= n,
            n == bytes@.len() / 2,
            units == utf16_units(bytes@),
            units.len() == n,
            out@ + utf16_chars(units.skip(i as int)) == utf16_chars(units),
        decreases n - i,
    {
        let ghost rest = units.skip(i as int);
        let u = read_u16_at(bytes, i);
        assert(u == rest[0]);
        if u < 0xD800 || 0xE000 <= u {
            let c = char_from_u32(u as u32);
            proof {
                vstd::utf8::char_u32_cast(c, u as u32);
                assert(rest.drop_first() =~= units.skip(i as int + 1));
            }
            push_char(&mut out, c);
            assert(out@ + utf16_chars(units.skip(i as int + 1)) =~= utf16_chars(units));
            i = i + 1;
        } else if u < 0xDC00 {
            let mut paired = false;
            let mut u2: u16 = 0;
            if i + 1 < n {
                u2 = read_u16_at(bytes, i + 1);
                assert(u2 == rest[1]);
                if 0xDC00 <= u2 && u2 < 0xE000 {
                    paired = true;
                }
            }
            if paired {
                let v = 0x10000 + (u as u32 - 0xD800) * 0x400 + (u2 as u32 - 0xDC00);
                assert(v == combine_surrogates(rest[0], rest[1]));
                let c = char_from_u32(v);
                proof {
                    vstd::utf8::char_u32_cast(c, v);
                    assert(rest.skip(2) =~= units.skip(i as int + 2));
                }
                push_char(&mut out, c);
                assert(out@ + utf16_chars(units.skip(i as int + 2)) =~= utf16_chars(units));
                i = i + 2;
            } else {
                let c = char_from_u32(0xFFFD);
                proof {
                    vstd::utf8::char_u32_cast(c, 0xFFFD);
                    assert(rest.drop_first() =~= units.skip(i as int + 1));
                }
                push_char(&mut out, c);
                assert(out@ + utf16_chars(units.skip(i as int + 1)) =~= utf16_chars(units));
                i = i + 1;
            }
        } else {
            let c = char_from_u32(0xFFFD);
            proof {
                vstd::utf8::char_u32_cast(c, 0xFFFD);
                assert(rest.drop_first() =~= units.skip(i as int + 1));
            }
            push_char(&mut out, c);
            assert(out@ + utf16_chars(units.skip(i as int + 1)) =~= utf16_chars(units));
            i = i + 1;
        }
    }
    assert(units.skip(n as int) =~= Seq::empty());
    assert(out@ =~= utf16_chars(units));
    let total = out.as_str().unicode_len();
    let mut keep = total;
    proof {
        assert(out@.subrange(0, total as int) =~= out@);
    }
    while keep > 0 && out.as_str().get_char(keep - 1) == '\0'
        invariant
            keep <= total,
            total == out@.len(),
            trim_nul(out@.subrange(0, keep as int)) == trim_nul(out@),
        decreases keep,
    {
        proof {
            let prefix = out@.subrange(0, keep as int);
            assert(prefix.last() == out@[keep - 1]);
            assert(prefix.drop_last() =~= out@.subrange(0, keep as int - 1));
        }
        keep = keep - 1;
    }
    proof {
        let prefix = out@.subrange(0, keep as int);
        if keep > 0 {
            assert(prefix.last() == out@[keep - 1]);
        }
        assert(trim_nul(prefix) == prefix);
    }
    let trimmed = out.as_str().substring_char(0, keep);
    Ok(String::from_str(trimmed))
}

} // verus!
