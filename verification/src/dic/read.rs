//! Readers of the primitive encodings used in binary dictionaries:
//! little-endian integers, length-prefixed UTF-16 and UTF-8 strings,
//! arrays of `u32` and LEB128 variable-length integers.

use vstd::prelude::*;
use vstd::slice::slice_subrange;
use vstd::utf8::*;

use crate::error::{SudachiError, SudachiResult};

verus! {

broadcast use vstd::utf8::group_utf8_lib;

// ----------------------------------------------------------------------
// Little-endian integers
// ----------------------------------------------------------------------
/// Unsigned 16-bit little-endian value at `p`.
pub open spec fn spec_u16_le(s: Seq<u8>, p: int) -> int {
    s[p] as int + 256 * s[p + 1] as int
}

/// Unsigned 32-bit little-endian value at `p`.
pub open spec fn spec_u32_le(s: Seq<u8>, p: int) -> int {
    spec_u16_le(s, p) + 65536 * spec_u16_le(s, p + 2)
}

/// Unsigned 64-bit little-endian value at `p`.
pub open spec fn spec_u64_le(s: Seq<u8>, p: int) -> int {
    spec_u32_le(s, p) + 0x1_0000_0000 * spec_u32_le(s, p + 4)
}

/// Two's complement reading of a 16-bit pattern.
pub open spec fn spec_i16_of(v: int) -> int {
    if v >= 0x8000 {
        v - 0x1_0000
    } else {
        v
    }
}

/// Two's complement reading of a 32-bit pattern.
pub open spec fn spec_i32_of(v: int) -> int {
    if v >= 0x8000_0000 {
        v - 0x1_0000_0000
    } else {
        v
    }
}

/// Reads one byte at `pos`.
pub fn read_u8(buf: &[u8], pos: usize) -> (r: SudachiResult<(u8, usize)>)
    ensures
        r is Ok <==> pos < buf@.len(),
        r matches Ok((v, np)) ==> v == buf@[pos as int] && np == pos + 1,
{
    if pos >= buf.len() {
        return Err(SudachiError::InvalidDataFormat(pos));
    }
    Ok((buf[pos], pos + 1))
}

/// Reads a little-endian `u16` at `pos`.
pub fn read_u16_le(buf: &[u8], pos: usize) -> (r: SudachiResult<(u16, usize)>)
    ensures
        r is Ok <==> pos + 2 <= buf@.len(),
        r matches Ok((v, np)) ==> v == spec_u16_le(buf@, pos as int) && np == pos + 2,
{
    if pos >= buf.len() || buf.len() - pos < 2 {
        return Err(SudachiError::InvalidDataFormat(pos));
    }
    let v = buf[pos] as u16 + 256 * (buf[pos + 1] as u16);
    Ok((v, pos + 2))
}

/// Reads a little-endian `i16` at `pos`.
pub fn read_i16_le(buf: &[u8], pos: usize) -> (r: SudachiResult<(i16, usize)>)
    ensures
        r is Ok <==> pos + 2 <= buf@.len(),
        r matches Ok((v, np)) ==> v == spec_i16_of(spec_u16_le(buf@, pos as int)) && np == pos
            + 2,
{
    let (u, np) = read_u16_le(buf, pos)?;
    let v: i16 = if u >= 0x8000 {
        (u as i32 - 0x1_0000) as i16
    } else {
        u as i16
    };
    Ok((v, np))
}

/// Reads a little-endian `u32` at `pos`.
pub fn read_u32_le(buf: &[u8], pos: usize) -> (r: SudachiResult<(u32, usize)>)
    ensures
        r is Ok <==> pos + 4 <= buf@.len(),
        r matches Ok((v, np)) ==> v == spec_u32_le(buf@, pos as int) && np == pos + 4,
{
    if pos >= buf.len() || buf.len() - pos < 4 {
        return Err(SudachiError::InvalidDataFormat(pos));
    }
    let lo = buf[pos] as u32 + 256 * (buf[pos + 1] as u32);
    let hi = buf[pos + 2] as u32 + 256 * (buf[pos + 3] as u32);
    Ok((lo + 65536 * hi, pos + 4))
}

/// Reads a little-endian `i32` at `pos`.
pub fn read_i32_le(buf: &[u8], pos: usize) -> (r: SudachiResult<(i32, usize)>)
    ensures
        r is Ok <==> pos + 4 <= buf@.len(),
        r matches Ok((v, np)) ==> v == spec_i32_of(spec_u32_le(buf@, pos as int)) && np == pos
            + 4,
{
    let (u, np) = read_u32_le(buf, pos)?;
    let v: i32 = if u >= 0x8000_0000 {
        (u as i64 - 0x1_0000_0000) as i32
    } else {
        u as i32
    };
    Ok((v, np))
}

/// Reads a little-endian `u64` at `pos`.
pub fn read_u64_le(buf: &[u8], pos: usize) -> (r: SudachiResult<(u64, usize)>)
    ensures
        r is Ok <==> pos + 8 <= buf@.len(),
        r matches Ok((v, np)) ==> v == spec_u64_le(buf@, pos as int) && np == pos + 8,
{
    let (lo, p1) = read_u32_le(buf, pos)?;
    let (hi, p2) = read_u32_le(buf, p1)?;
    Ok((lo as u64 + 0x1_0000_0000 * (hi as u64), p2))
}

// ----------------------------------------------------------------------
// Length prefix of UTF-16 strings
// ----------------------------------------------------------------------
/// Number of bytes of the length prefix starting at `p`.
pub open spec fn spec_len_prefix_size(s: Seq<u8>, p: int) -> int {
    if s[p] < 128 {
        1
    } else {
        2
    }
}

/// Value of the length prefix starting at `p`: one byte below 128, otherwise
/// the low 7 bits of the first byte followed by the second byte.
pub open spec fn spec_len_prefix_value(s: Seq<u8>, p: int) -> int {
    if s[p] < 128 {
        s[p] as int
    } else {
        (s[p] as int - 128) * 256 + s[p + 1] as int
    }
}

/// Whether a complete length prefix starts at `p`.
pub open spec fn spec_len_prefix_ok(s: Seq<u8>, p: int) -> bool {
    0 <= p < s.len() && p + spec_len_prefix_size(s, p) <= s.len()
}

/// Reads the length prefix of a UTF-16 string at `pos`.
pub fn string_length_parser(buf: &[u8], pos: usize) -> (r: SudachiResult<(u16, usize)>)
    ensures
        r is Ok <==> spec_len_prefix_ok(buf@, pos as int),
        r matches Ok((v, np)) ==> v == spec_len_prefix_value(buf@, pos as int) && np == pos
            + spec_len_prefix_size(buf@, pos as int),
{
    let (b0, p1) = read_u8(buf, pos)?;
    if b0 < 128 {
        Ok((b0 as u16, p1))
    } else {
        let (b1, p2) = read_u8(buf, p1)?;
        Ok(((b0 as u16 - 128) * 256 + b1 as u16, p2))
    }
}

// ----------------------------------------------------------------------
// UTF-16
// ----------------------------------------------------------------------
/// UTF-16 code units of one Unicode scalar value.
pub open spec fn spec_utf16_of_char(c: u32) -> Seq<u16> {
    if c < 0x10000 {
        seq![c as u16]
    } else {
        seq![(0xD800 + (c - 0x10000) / 1024) as u16, (0xDC00 + (c - 0x10000) % 1024) as u16]
    }
}

/// UTF-16 encoding of a sequence of characters.
pub open spec fn spec_utf16_encode(cs: Seq<char>) -> Seq<u16>
    decreases cs.len(),
{
    if cs.len() == 0 {
        seq![]
    } else {
        spec_utf16_of_char(cs[0] as u32) + spec_utf16_encode(cs.skip(1))
    }
}

/// Whether a code unit is a high (leading) surrogate.
pub open spec fn is_high_surrogate(u: u16) -> bool {
    0xD800 <= u < 0xDC00
}

/// Whether a code unit is a low (trailing) surrogate.
pub open spec fn is_low_surrogate(u: u16) -> bool {
    0xDC00 <= u < 0xE000
}

/// Prepends a character to a decoding result.
pub open spec fn spec_prepend_char(c: char, rest: Option<Seq<char>>) -> Option<Seq<char>> {
    match rest {
        Some(s) => Some(seq![c] + s),
        None => None,
    }
}

/// Strict UTF-16 decoding: `None` when a surrogate is unpaired.
pub open spec fn spec_utf16_decode(us: Seq<u16>) -> Option<Seq<char>>
    decreases us.len(),
{
    if us.len() == 0 {
        Some(seq![])
    } else if !is_high_surrogate(us[0]) && !is_low_surrogate(us[0]) {
        spec_prepend_char((us[0] as u32) as char, spec_utf16_decode(us.skip(1)))
    } else if is_high_surrogate(us[0]) && us.len() >= 2 && is_low_surrogate(us[1]) {
        spec_prepend_char(
            (0x10000 + (us[0] - 0xD800) * 1024 + (us[1] - 0xDC00)) as u32 as char,
            spec_utf16_decode(us.skip(2)),
        )
    } else {
        None
    }
}

/// Little-endian bytes of a sequence of code units.
pub open spec fn spec_utf16_bytes(us: Seq<u16>) -> Seq<u8>
    decreases us.len(),
{
    if us.len() == 0 {
        seq![]
    } else {
        seq![(us[0] % 256) as u8, (us[0] / 256) as u8] + spec_utf16_bytes(us.skip(1))
    }
}

/// Code units stored little-endian in `n` pairs of bytes starting at `p`.
pub open spec fn spec_units_at(s: Seq<u8>, p: int, n: int) -> Seq<u16> {
    Seq::new(n as nat, |j: int| spec_u16_le(s, p + 2 * j) as u16)
}

/// Length prefix encoding of `len`: one byte below 127, two bytes otherwise.
pub open spec fn spec_len_prefix_bytes(len: int) -> Seq<u8> {
    if len < 127 {
        seq![len as u8]
    } else {
        seq![(len / 256 + 128) as u8, (len % 256) as u8]
    }
}

/// Serialized form of a string: the number of its UTF-16 code units followed
/// by the code units in little-endian order.
pub open spec fn spec_utf16_string_bytes(cs: Seq<char>) -> Seq<u8> {
    spec_len_prefix_bytes(spec_utf16_encode(cs).len() as int) + spec_utf16_bytes(
        spec_utf16_encode(cs),
    )
}

/// Result of parsing a length-prefixed UTF-16 string at `p`: the characters
/// and the position after the string.
pub open spec fn spec_utf16_string_at(s: Seq<u8>, p: int) -> Option<(Seq<char>, int)> {
    if !spec_len_prefix_ok(s, p) {
        None
    } else {
        let start = p + spec_len_prefix_size(s, p);
        let n = spec_len_prefix_value(s, p);
        if start + 2 * n > s.len() {
            None
        } else {
            match spec_utf16_decode(spec_units_at(s, start, n)) {
                Some(cs) => Some((cs, start + 2 * n)),
                None => None,
            }
        }
    }
}

/// Character of the given scalar value, or `None` when it is not a scalar value.
#[verifier::external_body]
pub(crate) fn char_from_u32(v: u32) -> (r: Option<char>)
    ensures
        r is Some <==> is_scalar(v),
        r matches Some(c) ==> c as u32 == v,
{
    char::from_u32(v)
}

/// Appends a character to a string.
#[verifier::external_body]
pub(crate) fn string_push(s: &mut String, c: char)
    ensures
        final(s)@ == old(s)@.push(c),
{
    s.push(c)
}

/// Decodes `n` little-endian UTF-16 code units stored at `start`.
fn decode_utf16_units(buf: &[u8], start: usize, n: usize) -> (r: Option<String>)
    requires
        start + 2 * n <= buf@.len(),
    ensures
        match r {
            Some(s) => spec_utf16_decode(spec_units_at(buf@, start as int, n as int)) == Some(
                s@,
            ),
            None => spec_utf16_decode(spec_units_at(buf@, start as int, n as int)) is None,
        },
{
    let ghost units = spec_units_at(buf@, start as int, n as int);
    let blen = buf.len();
    let mut out = String::new();
    let mut i: usize = 0;
    proof {
        assert(units.skip(0) =~= units);
        match spec_utf16_decode(units) {
            Some(s) => {
                assert(out@ + s =~= s);
            },
            None => {},
        }
    }
    while i < n
        invariant
            i <= n,
            blen == buf@.len(),
            start + 2 * n <= blen,
            units == spec_units_at(buf@, start as int, n as int),
            spec_utf16_decode(units) == spec_prepend_all(out@, spec_utf16_decode(units.skip(i as int))),
        decreases n - i,
    {
        let (u0, _) = read_u16_le(buf, start + 2 * i).unwrap();
        assert(units.skip(i as int)[0] == u0);
        if u0 < 0xD800 || u0 >= 0xE000 {
            let c = char_from_u32(u0 as u32);
            proof {
                assert(is_scalar(u0 as u32));
            }
            let c = c.unwrap();
            proof {
                assert(units.skip(i as int).skip(1) =~= units.skip(i + 1));
                char_u32_cast(c, u0 as u32);
                assert(spec_utf16_decode(units.skip(i as int)) == spec_prepend_char(
                    c,
                    spec_utf16_decode(units.skip(i + 1)),
                ));
                lemma_prepend_all_push(out@, c, spec_utf16_decode(units.skip(i + 1)));
            }
            string_push(&mut out, c);
            i = i + 1;
        } else if u0 < 0xDC00 && i + 1 < n {
            let (u1, _) = read_u16_le(buf, start + 2 * (i + 1)).unwrap();
            assert(units.skip(i as int)[1] == u1);
            if u1 >= 0xDC00 && u1 < 0xE000 {
                let v: u32 = 0x10000 + (u0 as u32 - 0xD800) * 1024 + (u1 as u32 - 0xDC00);
                let c = char_from_u32(v);
                proof {
                    assert(is_scalar(v));
                }
                let c = c.unwrap();
                proof {
                    assert(units.skip(i as int).skip(2) =~= units.skip(i + 2));
                    char_u32_cast(c, v);
                    assert(spec_utf16_decode(units.skip(i as int)) == spec_prepend_char(
                        c,
                        spec_utf16_decode(units.skip(i + 2)),
                    ));
                    lemma_prepend_all_push(out@, c, spec_utf16_decode(units.skip(i + 2)));
                }
                string_push(&mut out, c);
                i = i + 2;
            } else {
                return None;
            }
        } else {
            return None;
        }
    }
    assert(units.skip(n as int).len() == 0);
    Some(out)
}

/// Prepends all characters of `p` to a decoding result.
pub open spec fn spec_prepend_all(p: Seq<char>, rest: Option<Seq<char>>) -> Option<Seq<char>> {
    match rest {
        Some(s) => Some(p + s),
        None => None,
    }
}

proof fn lemma_prepend_all_push(p: Seq<char>, c: char, rest: Option<Seq<char>>)
    ensures
        spec_prepend_all(p, spec_prepend_char(c, rest)) == spec_prepend_all(p.push(c), rest),
{
    match rest {
        Some(s) => {
            assert(p + (seq![c] + s) =~= p.push(c) + s);
        },
        None => {},
    }
}

/// Decodes the string of `n` UTF-16 code units stored at `start`; an error
/// when the units are not valid UTF-16.
pub fn decode_utf16_string_of_length(buf: &[u8], start: usize, n: usize) -> (r: SudachiResult<
    String,
>)
    requires
        start + 2 * n <= buf@.len(),
    ensures
        r is Ok <==> spec_utf16_decode(spec_units_at(buf@, start as int, n as int)) is Some,
        r matches Ok(s) ==> spec_utf16_decode(spec_units_at(buf@, start as int, n as int)) == Some(
            s@,
        ),
{
    match decode_utf16_units(buf, start, n) {
        Some(s) => Ok(s),
        None => Err(SudachiError::InvalidString),
    }
}

/// Parses a length-prefixed UTF-16 string at the start of `input`; returns the
/// remaining input and the string.
pub fn utf16_string_parser(input: &[u8]) -> (r: SudachiResult<(&[u8], String)>)
    ensures
        r is Ok <==> spec_utf16_string_at(input@, 0) is Some,
        r matches Ok((rest, s)) ==> {
            let (cs, end) = spec_utf16_string_at(input@, 0)->0;
            &&& s@ == cs
            &&& rest@ == input@.skip(end)
        },
{
    let (s, end) = utf16_string_at(input, 0)?;
    Ok((slice_subrange(input, end, input.len()), s))
}

/// Parses a length-prefixed UTF-16 string at `pos`; returns the string and the
/// position after it.
pub fn utf16_string_at(buf: &[u8], pos: usize) -> (r: SudachiResult<(String, usize)>)
    ensures
        r is Ok <==> spec_utf16_string_at(buf@, pos as int) is Some,
        r matches Ok((s, np)) ==> spec_utf16_string_at(buf@, pos as int) == Some((s@, np as int)),
{
    let (n, start) = string_length_parser(buf, pos)?;
    let n = n as usize;
    if start > buf.len() || (buf.len() - start) / 2 < n {
        return Err(SudachiError::InvalidDataFormat(start));
    }
    match decode_utf16_units(buf, start, n) {
        Some(s) => Ok((s, start + 2 * n)),
        None => Err(SudachiError::InvalidString),
    }
}

// ----------------------------------------------------------------------
// Arrays of u32
// ----------------------------------------------------------------------
/// `n` little-endian `u32` values stored at `p`.
pub open spec fn spec_u32s_at(s: Seq<u8>, p: int, n: int) -> Seq<u32> {
    Seq::new(n as nat, |j: int| spec_u32_le(s, p + 4 * j) as u32)
}

/// Reads `n` little-endian `u32` values stored at `pos`.
pub fn read_u32s(buf: &[u8], pos: usize, n: usize) -> (r: SudachiResult<(Vec<u32>, usize)>)
    ensures
        r is Ok <==> pos + 4 * n <= buf@.len(),
        r matches Ok((v, np)) ==> v@ == spec_u32s_at(buf@, pos as int, n as int) && np == pos
            + 4 * n,
{
    if pos > buf.len() || (buf.len() - pos) / 4 < n {
        return Err(SudachiError::InvalidDataFormat(pos));
    }
    let blen = buf.len();
    let mut out: Vec<u32> = Vec::with_capacity(n);
    let mut i: usize = 0;
    while i < n
        invariant
            i <= n,
            blen == buf@.len(),
            pos + 4 * n <= blen,
            out@ =~= spec_u32s_at(buf@, pos as int, i as int),
        decreases n - i,
    {
        let (v, _) = read_u32_le(buf, pos + 4 * i).unwrap();
        out.push(v);
        i = i + 1;
    }
    Ok((out, pos + 4 * n))
}

/// A `u32` array at `p` (one count byte, then that many values) and the
/// position after it.
pub open spec fn spec_u32_array_at(s: Seq<u8>, p: int) -> Option<(Seq<u32>, int)> {
    if 0 <= p < s.len() && p + 1 + 4 * s[p] <= s.len() {
        Some((spec_u32s_at(s, p + 1, s[p] as int), p + 1 + 4 * s[p]))
    } else {
        None
    }
}

/// Reads a `u32` array at `pos`: one count byte, then that many values.
pub fn u32_array_at(buf: &[u8], pos: usize) -> (r: SudachiResult<(Vec<u32>, usize)>)
    ensures
        r is Ok <==> (pos < buf@.len() && pos + 1 + 4 * buf@[pos as int] <= buf@.len()),
        r matches Ok((v, np)) ==> v@ == spec_u32s_at(buf@, pos + 1, buf@[pos as int] as int) && np
            == pos + 1 + 4 * buf@[pos as int],
        r is Ok <==> spec_u32_array_at(buf@, pos as int) is Some,
        r matches Ok((v, np)) ==> spec_u32_array_at(buf@, pos as int) == Some((v@, np as int)),
{
    let (n, p1) = read_u8(buf, pos)?;
    read_u32s(buf, p1, n as usize)
}

/// Parses a `u32` array at the start of `input`; returns the remaining input and the values.
pub fn u32_array_parser(input: &[u8]) -> (r: SudachiResult<(&[u8], Vec<u32>)>)
    ensures
        r is Ok <==> (0 < input@.len() && 1 + 4 * input@[0] <= input@.len()),
        r matches Ok((rest, v)) ==> v@ == spec_u32s_at(input@, 1, input@[0] as int) && rest@
            == input@.skip(1 + 4 * input@[0]),
{
    let (v, end) = u32_array_at(input, 0)?;
    Ok((slice_subrange(input, end, input.len()), v))
}

// ----------------------------------------------------------------------
// LEB128 variable-length integers
// ----------------------------------------------------------------------
/// 128 to the power `n`.
pub open spec fn pow128(n: nat) -> int
    decreases n,
{
    if n == 0 {
        1
    } else {
        128 * pow128((n - 1) as nat)
    }
}

/// Value of the `n` LEB128 bytes starting at `p` (low 7 bits of each, least
/// significant group first).
pub open spec fn spec_leb_value(s: Seq<u8>, p: int, n: nat) -> int
    decreases n,
{
    if n == 0 {
        0
    } else {
        spec_leb_value(s, p, (n - 1) as nat) + (s[p + n - 1] as int % 128) * pow128(
            (n - 1) as nat,
        )
    }
}

/// Whether bytes `p..p+n` are the first `n` bytes of one LEB128 number: all
/// but possibly the last carry the continuation bit.
pub open spec fn spec_leb_continues(s: Seq<u8>, p: int, n: nat) -> bool {
    forall|k: int| p <= k < p + n ==> s[k] >= 128
}

/// Whether the LEB128 number at `p` is `n` bytes long, ends within `max`
/// bytes and lies within `s`.
pub open spec fn spec_leb_ends_at(s: Seq<u8>, p: int, max: nat, n: nat) -> bool {
    1 <= n <= max && p + n <= s.len() && spec_leb_continues(s, p, (n - 1) as nat) && s[p + n - 1]
        < 128
}

/// Length of the LEB128 number at `p` when it ends within `max` bytes and
/// within `s`.
pub open spec fn spec_leb_len(s: Seq<u8>, p: int, max: nat) -> Option<nat> {
    if exists|n: nat| #[trigger] spec_leb_ends_at(s, p, max, n) {
        Some(choose|n: nat| #[trigger] spec_leb_ends_at(s, p, max, n))
    } else {
        None
    }
}

pub proof fn lemma_leb_len_unique(s: Seq<u8>, p: int, n1: nat, n2: nat)
    requires
        1 <= n1,
        1 <= n2,
        spec_leb_continues(s, p, (n1 - 1) as nat),
        s[p + n1 - 1] < 128,
        spec_leb_continues(s, p, (n2 - 1) as nat),
        s[p + n2 - 1] < 128,
    ensures
        n1 == n2,
{
    if n1 < n2 {
        assert(s[p + (n1 - 1)] >= 128);
    } else if n2 < n1 {
        assert(s[p + (n2 - 1)] >= 128);
    }
}

/// Reads a LEB128 number of at most `max` bytes at `pos` whose value must not
/// exceed `limit`.
fn read_leb(buf: &[u8], pos: usize, max: usize, limit: u64) -> (r: SudachiResult<(u64, usize)>)
    requires
        1 <= max <= 10,
        pos <= buf@.len(),
    ensures
        r is Ok <==> (spec_leb_len(buf@, pos as int, max as nat) matches Some(n)
            && spec_leb_value(buf@, pos as int, n) <= limit),
        r matches Ok((v, np)) ==> {
            let n = spec_leb_len(buf@, pos as int, max as nat)->0;
            &&& v == spec_leb_value(buf@, pos as int, n)
            &&& np == pos + n
        },
{
    let blen = buf.len();
    let mut value: u128 = 0;
    let mut mult: u128 = 1;
    let mut i: usize = 0;
    proof {
        reveal_with_fuel(pow128, 11);
    }
    loop
        invariant
            1 <= max <= 10,
            blen == buf@.len(),
            pos <= blen,
            i <= max,
            pos + i <= buf@.len(),
            spec_leb_continues(buf@, pos as int, i as nat),
            mult == pow128(i as nat),
            value == spec_leb_value(buf@, pos as int, i as nat),
            mult <= pow128(10),
            value < mult,
        decreases max - i,
    {
        proof {
            reveal_with_fuel(pow128, 11);
        }
        if i >= max || pos + i >= buf.len() {
            proof {
                if spec_leb_len(buf@, pos as int, max as nat) is Some {
                    let n = spec_leb_len(buf@, pos as int, max as nat)->0;
                    assert(buf@[pos + (n - 1)] < 128);
                    if n - 1 < i {
                        assert(buf@[pos + (n - 1)] >= 128);
                    }
                }
            }
            return Err(SudachiError::InvalidDataFormat(pos + i));
        }
        let b = buf[pos + i];
        proof {
            lemma_pow128_grows(i as nat);
            assert((b as u128 % 128) * mult <= 127 * mult) by (nonlinear_arith)
                requires
                    b as u128 % 128 <= 127,
            ;
        }
        value = value + (b as u128 % 128) * mult;
        mult = mult * 128;
        i = i + 1;
        if b < 128 {
            proof {
                let n = i as nat;
                assert(spec_leb_ends_at(buf@, pos as int, max as nat, n));
                let m = spec_leb_len(buf@, pos as int, max as nat)->0;
                lemma_leb_len_unique(buf@, pos as int, n, m);
            }
            if value > limit as u128 {
                return Err(SudachiError::InvalidDataFormat(pos));
            }
            return Ok((value as u64, pos + i));
        }
        assert(spec_leb_continues(buf@, pos as int, i as nat));
    }
}

proof fn lemma_pow128_grows(i: nat)
    requires
        i < 10,
    ensures
        pow128(i + 1) == 128 * pow128(i),
        pow128(i + 1) <= pow128(10),
        pow128(i) >= 1,
    decreases 10 - i,
{
    reveal_with_fuel(pow128, 11);
    if i < 9 {
        lemma_pow128_grows(i + 1);
    }
}

/// Reads a LEB128 `u32` (at most 5 bytes) at `pos`.
pub fn varint32_at(buf: &[u8], pos: usize) -> (r: SudachiResult<(u32, usize)>)
    requires
        pos <= buf@.len(),
    ensures
        r is Ok <==> (spec_leb_len(buf@, pos as int, 5) matches Some(n) && spec_leb_value(
            buf@,
            pos as int,
            n,
        ) <= u32::MAX),
        r matches Ok((v, np)) ==> {
            let n = spec_leb_len(buf@, pos as int, 5)->0;
            &&& v == spec_leb_value(buf@, pos as int, n)
            &&& np == pos + n
        },
{
    let (v, np) = read_leb(buf, pos, 5, u32::MAX as u64)?;
    Ok((v as u32, np))
}

/// Reads a LEB128 `u64` (at most 10 bytes) at `pos`.
pub fn varint64_at(buf: &[u8], pos: usize) -> (r: SudachiResult<(u64, usize)>)
    requires
        pos <= buf@.len(),
    ensures
        r is Ok <==> (spec_leb_len(buf@, pos as int, 10) matches Some(n) && spec_leb_value(
            buf@,
            pos as int,
            n,
        ) <= u64::MAX),
        r matches Ok((v, np)) ==> {
            let n = spec_leb_len(buf@, pos as int, 10)->0;
            &&& v == spec_leb_value(buf@, pos as int, n)
            &&& np == pos + n
        },
{
    read_leb(buf, pos, 10, u64::MAX)
}

// ----------------------------------------------------------------------
// UTF-8 strings with a LEB128 byte length
// ----------------------------------------------------------------------
/// Decodes UTF-8 bytes into a string, or `None` when they are not valid UTF-8.
#[verifier::external_body]
fn utf8_to_string(bytes: &[u8]) -> (r: Option<String>)
    ensures
        r is Some <==> valid_utf8(bytes@),
        r matches Some(s) ==> s@ == decode_utf8(bytes@),
{
    std::str::from_utf8(bytes).ok().map(|s| s.to_string())
}

/// Result of parsing a UTF-8 string at `p`: its characters and the position after it.
pub open spec fn spec_utf8_string_at(s: Seq<u8>, p: int) -> Option<(Seq<char>, int)> {
    match spec_leb_len(s, p, 5) {
        Some(n) => {
            let len = spec_leb_value(s, p, n);
            if len > u32::MAX || p + n + len > s.len() || !valid_utf8(
                s.subrange(p + n, p + n + len),
            ) {
                None
            } else {
                Some((decode_utf8(s.subrange(p + n, p + n + len)), p + n + len))
            }
        },
        None => None,
    }
}

/// Reads a UTF-8 string at `pos`: a LEB128 byte length, then the bytes.
pub fn utf8_string_at(buf: &[u8], pos: usize) -> (r: SudachiResult<(String, usize)>)
    requires
        pos <= buf@.len(),
    ensures
        r is Ok <==> spec_utf8_string_at(buf@, pos as int) is Some,
        r matches Ok((s, np)) ==> spec_utf8_string_at(buf@, pos as int) == Some((s@, np as int)),
{
    let (len, start) = varint32_at(buf, pos)?;
    let len = len as usize;
    if start > buf.len() || buf.len() - start < len {
        return Err(SudachiError::InvalidDataFormat(start));
    }
    let bytes = slice_subrange(buf, start, start + len);
    match utf8_to_string(bytes) {
        Some(s) => Ok((s, start + len)),
        None => Err(SudachiError::InvalidString),
    }
}

} // verus!
