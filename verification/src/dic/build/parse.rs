//! Text of dictionary sources: white space, fields separated by white
//! space, and decimal integers.

use vstd::prelude::*;

use crate::dic::build::error::{BuildFailure, DicWriteResult};
use crate::dic::build::primitives::utf16_len;
use crate::dic::read::{char_from_u32, spec_utf16_encode, string_push};

verus! {

/// Whether `c` is white space in the Unicode sense.
pub open spec fn spec_is_ws(c: char) -> bool {
    let v = c as u32;
    ||| 0x9 <= v <= 0xd
    ||| v == 0x20
    ||| v == 0x85
    ||| v == 0xa0
    ||| v == 0x1680
    ||| 0x2000 <= v <= 0x200a
    ||| v == 0x2028
    ||| v == 0x2029
    ||| v == 0x202f
    ||| v == 0x205f
    ||| v == 0x3000
}

/// Whether `c` is white space in the Unicode sense.
pub fn is_ws(c: char) -> (r: bool)
    ensures
        r == spec_is_ws(c),
{
    let v = c as u32;
    (0x9 <= v && v <= 0xd) || v == 0x20 || v == 0x85 || v == 0xa0 || v == 0x1680 || (0x2000 <= v
        && v <= 0x200a) || v == 0x2028 || v == 0x2029 || v == 0x202f || v == 0x205f || v == 0x3000
}

/// Whether every character of `s` is white space.
pub open spec fn spec_blank(s: Seq<char>) -> bool {
    forall|i: int| 0 <= i < s.len() ==> spec_is_ws(#[trigger] s[i])
}

/// Whether every character of `s` is white space.
pub fn is_blank(s: &[char]) -> (r: bool)
    ensures
        r == spec_blank(s@),
{
    let mut i: usize = 0;
    while i < s.len()
        invariant
            i <= s@.len(),
            forall|k: int| 0 <= k < i ==> spec_is_ws(#[trigger] s@[k]),
        decreases s@.len() - i,
    {
        if !is_ws(s[i]) {
            return false;
        }
        i = i + 1;
    }
    true
}

/// Number of white space characters at the start of `s`.
pub open spec fn spec_ws_prefix(s: Seq<char>) -> nat
    decreases s.len(),
{
    if s.len() > 0 && spec_is_ws(s[0]) {
        1 + spec_ws_prefix(s.drop_first())
    } else {
        0
    }
}

/// Number of white space characters at the end of `s`.
pub open spec fn spec_ws_suffix(s: Seq<char>) -> nat
    decreases s.len(),
{
    if s.len() > 0 && spec_is_ws(s.last()) {
        1 + spec_ws_suffix(s.drop_last())
    } else {
        0
    }
}

/// `s` without white space at either end.
pub open spec fn spec_trim(s: Seq<char>) -> Seq<char> {
    let t = s.skip(spec_ws_prefix(s) as int);
    t.take(t.len() - spec_ws_suffix(t))
}

/// `s` split at runs of white space into at most `n` fields, the last one
/// holding the rest; `s` is taken to start with no white space.
pub open spec fn spec_splitn(s: Seq<char>, n: nat) -> Seq<Seq<char>>
    decreases n,
{
    if n <= 1 {
        seq![s]
    } else {
        match spec_first_ws(s) {
            None => seq![s],
            Some(i) => {
                let rest = s.skip(i);
                let j = i + spec_ws_prefix(rest);
                seq![s.take(i)] + spec_splitn(s.skip(j), (n - 1) as nat)
            },
        }
    }
}

/// Index of the first white space character of `s`.
pub open spec fn spec_first_ws(s: Seq<char>) -> Option<int>
    decreases s.len(),
{
    if s.len() == 0 {
        None
    } else if spec_is_ws(s[0]) {
        Some(0)
    } else {
        match spec_first_ws(s.drop_first()) {
            Some(i) => Some(i + 1),
            None => None,
        }
    }
}

/// Facts about the white space prefix.
proof fn lemma_ws_prefix(s: Seq<char>)
    ensures
        spec_ws_prefix(s) <= s.len(),
        forall|k: int| 0 <= k < spec_ws_prefix(s) ==> spec_is_ws(#[trigger] s[k]),
        spec_ws_prefix(s) < s.len() ==> !spec_is_ws(s[spec_ws_prefix(s) as int]),
    decreases s.len(),
{
    if s.len() > 0 && spec_is_ws(s[0]) {
        lemma_ws_prefix(s.drop_first());
        assert forall|k: int| 0 <= k < spec_ws_prefix(s) implies spec_is_ws(#[trigger] s[k]) by {
            if k > 0 {
                assert(s[k] == s.drop_first()[k - 1]);
            }
        }
    }
}

/// Facts about the white space suffix.
proof fn lemma_ws_suffix(s: Seq<char>)
    ensures
        spec_ws_suffix(s) <= s.len(),
        forall|k: int| s.len() - spec_ws_suffix(s) <= k < s.len() ==> spec_is_ws(#[trigger] s[k]),
        spec_ws_suffix(s) < s.len() ==> !spec_is_ws(s[s.len() - spec_ws_suffix(s) - 1]),
    decreases s.len(),
{
    if s.len() > 0 && spec_is_ws(s.last()) {
        lemma_ws_suffix(s.drop_last());
        assert forall|k: int| s.len() - spec_ws_suffix(s) <= k < s.len() implies spec_is_ws(
            #[trigger] s[k],
        ) by {
            if k < s.len() - 1 {
                assert(s[k] == s.drop_last()[k]);
            }
        }
    }
}

/// A white space prefix is determined by where the first other character is.
proof fn lemma_ws_prefix_at(s: Seq<char>, p: int)
    requires
        0 <= p <= s.len(),
        forall|k: int| 0 <= k < p ==> spec_is_ws(#[trigger] s[k]),
        p < s.len() ==> !spec_is_ws(s[p]),
    ensures
        spec_ws_prefix(s) == p,
    decreases p,
{
    if p > 0 {
        assert forall|k: int| 0 <= k < p - 1 implies spec_is_ws(#[trigger] s.drop_first()[k]) by {
            assert(s.drop_first()[k] == s[k + 1]);
        }
        if p - 1 < s.drop_first().len() {
            assert(s.drop_first()[p - 1] == s[p]);
        }
        lemma_ws_prefix_at(s.drop_first(), p - 1);
    }
}

/// A white space suffix is determined by where the last other character is.
proof fn lemma_ws_suffix_at(s: Seq<char>, p: int)
    requires
        0 <= p <= s.len(),
        forall|k: int| p <= k < s.len() ==> spec_is_ws(#[trigger] s[k]),
        p > 0 ==> !spec_is_ws(s[p - 1]),
    ensures
        spec_ws_suffix(s) == s.len() - p,
    decreases s.len() - p,
{
    if p < s.len() {
        assert forall|k: int| p <= k < s.drop_last().len() implies spec_is_ws(
            #[trigger] s.drop_last()[k],
        ) by {
            assert(s.drop_last()[k] == s[k]);
        }
        if p > 0 {
            assert(s.drop_last()[p - 1] == s[p - 1]);
        }
        lemma_ws_suffix_at(s.drop_last(), p);
    }
}

/// Start and end of `s` without white space at either end.
pub fn trim_range(s: &[char]) -> (r: (usize, usize))
    ensures
        r.0 <= r.1 <= s@.len(),
        s@.subrange(r.0 as int, r.1 as int) == spec_trim(s@),
{
    let mut b: usize = 0;
    while b < s.len() && is_ws(s[b])
        invariant
            b <= s@.len(),
            forall|k: int| 0 <= k < b ==> spec_is_ws(#[trigger] s@[k]),
        decreases s@.len() - b,
    {
        b = b + 1;
    }
    let mut e: usize = s.len();
    while e > b && is_ws(s[e - 1])
        invariant
            b <= e <= s@.len(),
            forall|k: int| e <= k < s@.len() ==> spec_is_ws(#[trigger] s@[k]),
        decreases e,
    {
        e = e - 1;
    }
    proof {
        lemma_ws_prefix_at(s@, b as int);
        let t = s@.skip(b as int);
        assert forall|k: int| e - b <= k < t.len() implies spec_is_ws(#[trigger] t[k]) by {
            assert(t[k] == s@[b + k]);
        }
        if e > b {
            assert(t[e - b - 1] == s@[e - 1]);
        }
        lemma_ws_suffix_at(t, (e - b) as int);
        assert(s@.subrange(b as int, e as int) =~= t.take(t.len() - spec_ws_suffix(t)));
    }
    (b, e)
}

/// The fields of `s[begin..end]` split at runs of white space, at most `n`
/// of them, as ranges of `s`; the text is taken to start with no white space.
pub fn splitn_ranges(s: &[char], begin: usize, end: usize, n: usize) -> (r: Vec<(usize, usize)>)
    requires
        begin <= end <= s@.len(),
    ensures
        r@.len() == spec_splitn(s@.subrange(begin as int, end as int), n as nat).len(),
        forall|k: int|
            0 <= k < r@.len() ==> {
                &&& begin <= (#[trigger] r@[k]).0 <= r@[k].1 <= end
                &&& s@.subrange(r@[k].0 as int, r@[k].1 as int) == spec_splitn(
                    s@.subrange(begin as int, end as int),
                    n as nat,
                )[k]
            },
    decreases end - begin,
{
    let ghost t = s@.subrange(begin as int, end as int);
    let mut out: Vec<(usize, usize)> = Vec::new();
    if n <= 1 {
        out.push((begin, end));
        return out;
    }
    let mut i = begin;
    while i < end && !is_ws(s[i])
        invariant
            begin <= i <= end <= s@.len(),
            forall|k: int| begin <= k < i ==> !spec_is_ws(#[trigger] s@[k]),
        decreases end - i,
    {
        i = i + 1;
    }
    proof {
        lemma_first_ws_at(t, i - begin);
    }
    if i == end {
        out.push((begin, end));
        return out;
    }
    let mut j = i;
    while j < end && is_ws(s[j])
        invariant
            i <= j <= end <= s@.len(),
            forall|k: int| i <= k < j ==> spec_is_ws(#[trigger] s@[k]),
        decreases end - j,
    {
        j = j + 1;
    }
    proof {
        let rest = t.skip(i - begin);
        assert forall|k: int| 0 <= k < j - i implies spec_is_ws(#[trigger] rest[k]) by {
            assert(rest[k] == s@[i + k]);
        }
        if j < end {
            assert(rest[j - i] == s@[j as int]);
        }
        lemma_ws_prefix_at(rest, j - i);
        assert(t.take(i - begin) =~= s@.subrange(begin as int, i as int));
        assert(t.skip(j - begin) =~= s@.subrange(j as int, end as int));
    }
    let tail = splitn_ranges(s, j, end, n - 1);
    out.push((begin, i));
    let ghost head = out@;
    let mut k: usize = 0;
    while k < tail.len()
        invariant
            k <= tail@.len(),
            out@.len() == 1 + k,
            out@[0] == (begin, i),
            begin <= i <= j <= end,
            forall|m: int|
                0 <= m < tail@.len() ==> {
                    &&& j <= (#[trigger] tail@[m]).0 <= tail@[m].1 <= end
                    &&& s@.subrange(tail@[m].0 as int, tail@[m].1 as int) == spec_splitn(
                        s@.subrange(j as int, end as int),
                        (n - 1) as nat,
                    )[m]
                },
            forall|m: int| 1 <= m < 1 + k ==> #[trigger] out@[m] == tail@[m - 1],
        decreases tail@.len() - k,
    {
        out.push(tail[k]);
        k = k + 1;
    }
    proof {
        let sp = spec_splitn(t, n as nat);
        assert(sp == seq![t.take(i - begin)] + spec_splitn(t.skip(j - begin), (n - 1) as nat));
        assert forall|m: int| 0 <= m < out@.len() implies {
            &&& begin <= (#[trigger] out@[m]).0 <= out@[m].1 <= end
            &&& s@.subrange(out@[m].0 as int, out@[m].1 as int) == sp[m]
        } by {
            if m > 0 {
                assert(out@[m] == tail@[m - 1]);
            }
        }
    }
    out
}

/// The first white space is found where a scan stops.
proof fn lemma_first_ws_at(s: Seq<char>, p: int)
    requires
        0 <= p <= s.len(),
        forall|k: int| 0 <= k < p ==> !spec_is_ws(#[trigger] s[k]),
        p < s.len() ==> spec_is_ws(s[p]),
    ensures
        p == s.len() ==> spec_first_ws(s) is None,
        p < s.len() ==> spec_first_ws(s) == Some(p),
    decreases p,
{
    if p > 0 {
        assert forall|k: int| 0 <= k < p - 1 implies !spec_is_ws(#[trigger] s.drop_first()[k]) by {
            assert(s.drop_first()[k] == s[k + 1]);
        }
        if p < s.len() {
            assert(s.drop_first()[p - 1] == s[p]);
        }
        lemma_first_ws_at(s.drop_first(), p - 1);
    }
}

/// Whether `c` is a decimal digit.
pub open spec fn spec_is_digit(c: char) -> bool {
    '0' <= c <= '9'
}

/// Value of the decimal digits `s`.
pub open spec fn spec_digits_value(s: Seq<char>) -> int
    decreases s.len(),
{
    if s.len() == 0 {
        0
    } else {
        spec_digits_value(s.drop_last()) * 10 + (s.last() as int - '0' as int)
    }
}

/// Whether every character of `d` is a decimal digit.
pub open spec fn spec_all_digits(d: Seq<char>) -> bool {
    forall|i: int| 0 <= i < d.len() ==> spec_is_digit(#[trigger] d[i])
}

/// `s` without its leading sign, if any.
pub open spec fn spec_unsigned_part(s: Seq<char>) -> Seq<char> {
    if s.len() > 0 && (s[0] == '-' || s[0] == '+') {
        s.drop_first()
    } else {
        s
    }
}

/// The value of the decimal text `s`, as `i16::from_str` reads it: an
/// optional sign and at least one digit, the value fitting 16 bits.
pub open spec fn spec_parse_i16(s: Seq<char>) -> Option<i16> {
    let neg = s.len() > 0 && s[0] == '-';
    let digits = spec_unsigned_part(s);
    if digits.len() == 0 || !spec_all_digits(digits) {
        None
    } else {
        let v = if neg {
            -spec_digits_value(digits)
        } else {
            spec_digits_value(digits)
        };
        if i16::MIN <= v <= i16::MAX {
            Some(v as i16)
        } else {
            None
        }
    }
}

/// Digit values never shrink as digits are appended.
proof fn lemma_digits_grow(s: Seq<char>, k: int)
    requires
        0 <= k <= s.len(),
        forall|i: int| 0 <= i < s.len() ==> spec_is_digit(#[trigger] s[i]),
    ensures
        0 <= spec_digits_value(s.take(k)) <= spec_digits_value(s),
    decreases s.len(),
{
    if k == s.len() {
        assert(s.take(k) =~= s);
        lemma_digits_nonneg(s);
    } else {
        assert forall|i: int| 0 <= i < s.drop_last().len() implies spec_is_digit(
            #[trigger] s.drop_last()[i],
        ) by {
            assert(s.drop_last()[i] == s[i]);
        }
        lemma_digits_grow(s.drop_last(), k);
        assert(s.drop_last().take(k) =~= s.take(k));
    }
}

/// Digit values are never negative.
proof fn lemma_digits_nonneg(s: Seq<char>)
    requires
        forall|i: int| 0 <= i < s.len() ==> spec_is_digit(#[trigger] s[i]),
    ensures
        spec_digits_value(s) >= 0,
    decreases s.len(),
{
    if s.len() > 0 {
        assert forall|i: int| 0 <= i < s.drop_last().len() implies spec_is_digit(
            #[trigger] s.drop_last()[i],
        ) by {
            assert(s.drop_last()[i] == s[i]);
        }
        lemma_digits_nonneg(s.drop_last());
    }
}

/// The value of the decimal text `s[begin..end]`, as `i16::from_str` reads it.
pub fn parse_i16_chars(s: &[char], begin: usize, end: usize) -> (r: Option<i16>)
    requires
        begin <= end <= s@.len(),
    ensures
        r == spec_parse_i16(s@.subrange(begin as int, end as int)),
{
    let ghost t = s@.subrange(begin as int, end as int);
    let mut p = begin;
    let mut neg = false;
    if p < end && (s[p] == '-' || s[p] == '+') {
        neg = s[p] == '-';
        p = p + 1;
    }
    let ghost digits = s@.subrange(p as int, end as int);
    proof {
        if begin < end && (s@[begin as int] == '-' || s@[begin as int] == '+') {
            assert(digits =~= t.drop_first());
        } else {
            assert(digits =~= t);
        }
    }
    if p == end {
        return None;
    }
    let mut v: i64 = 0;
    let mut i = p;
    proof {
        assert(digits.take(0) =~= Seq::<char>::empty());
    }
    while i < end
        invariant
            begin <= p <= i <= end <= s@.len(),
            digits == s@.subrange(p as int, end as int),
            t == s@.subrange(begin as int, end as int),
            digits == spec_unsigned_part(t),
            neg == (t.len() > 0 && t[0] == '-'),
            digits.len() > 0,
            forall|k: int| p <= k < i ==> spec_is_digit(#[trigger] s@[k]),
            v == spec_digits_value(digits.take(i - p)),
            0 <= v <= 32768,
        decreases end - i,
    {
        let c = s[i];
        if !('0' <= c && c <= '9') {
            proof {
                assert(digits[i - p] == c);
                assert(!spec_is_digit(digits[i - p]));
                assert(!spec_all_digits(digits));
            }
            return None;
        }
        proof {
            assert(digits.take(i - p + 1).drop_last() =~= digits.take(i - p));
            assert(digits.take(i - p + 1).last() == c);
        }
        v = v * 10 + (c as i64 - '0' as i64);
        if v > 32768 {
            proof {
                assert(v == spec_digits_value(digits.take(i - p + 1)));
                if spec_all_digits(digits) {
                    lemma_digits_grow(digits, i - p + 1);
                    assert(spec_digits_value(digits) > 32768);
                }
            }
            return None;
        }
        i = i + 1;
    }
    proof {
        assert(digits.take(i - p) =~= digits);
        assert forall|k: int| 0 <= k < digits.len() implies spec_is_digit(#[trigger] digits[k]) by {
            assert(digits[k] == s@[p + k]);
        }
    }
    if neg {
        if v > 32768 {
            return None;
        }
        Some((0 - v) as i16)
    } else {
        if v > 32767 {
            return None;
        }
        Some(v as i16)
    }
}

} // verus!

verus! {

/// Value of the hexadecimal digit `c`, in either case.
pub open spec fn spec_hex_value(c: char) -> Option<u32> {
    if '0' <= c && c <= '9' {
        Some((c as u32 - 48) as u32)
    } else if 'a' <= c && c <= 'f' {
        Some((c as u32 - 87) as u32)
    } else if 'A' <= c && c <= 'F' {
        Some((c as u32 - 55) as u32)
    } else {
        None
    }
}

/// Value of the hexadecimal digit `c`, in either case.
fn hex_value(c: char) -> (r: Option<u32>)
    ensures
        r == spec_hex_value(c),
{
    if '0' <= c && c <= '9' {
        Some(c as u32 - 48)
    } else if 'a' <= c && c <= 'f' {
        Some(c as u32 - 87)
    } else if 'A' <= c && c <= 'F' {
        Some(c as u32 - 55)
    } else {
        None
    }
}

/// Number of hexadecimal digits of `s` in a row from position `j`.
pub open spec fn spec_hex_run(s: Seq<char>, j: int) -> nat
    decreases s.len() - j,
{
    if 0 <= j < s.len() && spec_hex_value(s[j]) is Some {
        1 + spec_hex_run(s, j + 1)
    } else {
        0
    }
}

/// Value of the hexadecimal numeral `d`.
pub open spec fn spec_hex_number(d: Seq<char>) -> nat
    decreases d.len(),
{
    if d.len() == 0 {
        0
    } else {
        spec_hex_number(d.drop_last()) * 16 + match spec_hex_value(d.last()) {
            Some(v) => v as nat,
            None => 0,
        }
    }
}

/// The escape that starts at position `i` of `s`, if one does: `\u{`, one
/// to six hexadecimal digits and `}`, or else `\u` and four hexadecimal
/// digits. Gives where its digits begin and end, and where it ends.
pub open spec fn spec_escape_at(s: Seq<char>, i: int) -> Option<(int, int, int)> {
    if 0 <= i && i + 1 < s.len() && s[i] == '\\' && s[i + 1] == 'u' {
        let n = spec_hex_run(s, i + 3);
        if i + 2 < s.len() && s[i + 2] == '{' && 1 <= n <= 6 && i + 3 + n < s.len() && s[i + 3 + n]
            == '}' {
            Some((i + 3, i + 3 + n, i + 4 + n))
        } else if spec_hex_run(s, i + 2) >= 4 {
            Some((i + 2, i + 6, i + 6))
        } else {
            None
        }
    } else {
        None
    }
}

/// Whether `v` is the code of a Unicode scalar value.
pub open spec fn spec_is_scalar(v: nat) -> bool {
    v <= 0x10FFFF && !(0xD800 <= v <= 0xDFFF)
}

/// `s` from position `i` on with each escape replaced by the character it
/// codes, scanning from the left; the digits of the first escape whose code
/// is not a Unicode scalar value when there is one.
pub open spec fn spec_unescape_from(s: Seq<char>, i: int) -> Result<Seq<char>, Seq<char>>
    decreases s.len() - i,
{
    if i < 0 || i >= s.len() {
        Ok(Seq::empty())
    } else {
        match spec_escape_at(s, i) {
            Some((a, b, e)) => {
                let v = spec_hex_number(s.subrange(a, b));
                if spec_is_scalar(v) && i < e <= s.len() {
                    match spec_unescape_from(s, e) {
                        Ok(rest) => Ok(seq![v as u32 as char] + rest),
                        Err(d) => Err(d),
                    }
                } else {
                    Err(s.subrange(a, b))
                }
            },
            None => match spec_unescape_from(s, i + 1) {
                Ok(rest) => Ok(seq![s[i]] + rest),
                Err(d) => Err(d),
            },
        }
    }
}

/// Largest UTF-16 length of a dictionary string.
pub const MAX_DIC_STRING_LEN: usize = 32767;

/// What [`unescape`] gives for a text.
pub enum Unescaped {
    /// The text with its escapes replaced.
    Text(Seq<char>),
    /// The UTF-16 length of a text longer than a dictionary string may be.
    TooLong(nat),
    /// The digits of the first escape that codes no character.
    BadChar(Seq<char>),
}

/// What [`unescape`] gives for `s`: an error when the UTF-16 encoding of
/// `s` is longer than a dictionary string may be, else `s` with its escapes
/// replaced, or an error with the digits of the first escape that codes no
/// character.
pub open spec fn spec_unescape(s: Seq<char>) -> Unescaped {
    let n = spec_utf16_encode(s).len();
    if n > MAX_DIC_STRING_LEN {
        Unescaped::TooLong(n)
    } else {
        match spec_unescape_from(s, 0) {
            Ok(t) => Unescaped::Text(t),
            Err(d) => Unescaped::BadChar(d),
        }
    }
}

proof fn lemma_hex_run_step(s: Seq<char>, j: int)
    requires
        0 <= j,
    ensures
        j < s.len() && spec_hex_value(s[j]) is Some ==> spec_hex_run(s, j) == 1 + spec_hex_run(
            s,
            j + 1,
        ),
        !(j < s.len() && spec_hex_value(s[j]) is Some) ==> spec_hex_run(s, j) == 0,
{
}

/// Number of hexadecimal digits in a row from `j`, counting no further
/// than `limit` of them.
fn hex_run(s: &[char], j: usize, limit: usize) -> (r: usize)
    ensures
        r == if spec_hex_run(s@, j as int) <= limit {
            spec_hex_run(s@, j as int)
        } else {
            limit as nat
        },
        forall|k: int| j <= k < j + r ==> spec_hex_value(#[trigger] s@[k]) is Some,
        r > 0 ==> j + r <= s@.len(),
{
    let mut k: usize = 0;
    while k < limit && j < s.len() && k < s.len() - j && hex_value(s[j + k]).is_some()
        invariant
            k <= limit,
            spec_hex_run(s@, j as int) >= k,
            spec_hex_run(s@, j as int) == k + spec_hex_run(s@, j + k),
            forall|m: int| j <= m < j + k ==> spec_hex_value(#[trigger] s@[m]) is Some,
            k > 0 ==> j + k <= s@.len(),
        decreases limit - k,
    {
        proof {
            lemma_hex_run_step(s@, j + k);
        }
        k = k + 1;
    }
    proof {
        lemma_hex_run_step(s@, j + k);
    }
    k
}

/// Sixteen to the power `n`.
pub open spec fn pow16(n: nat) -> nat
    decreases n,
{
    if n == 0 {
        1
    } else {
        16 * pow16((n - 1) as nat)
    }
}

/// Value of the hexadecimal numeral `s[a..b]`, of at most six digits.
fn hex_number(s: &[char], a: usize, b: usize) -> (r: u32)
    requires
        a <= b <= s@.len(),
        b - a <= 6,
        forall|k: int| a <= k < b ==> spec_hex_value(#[trigger] s@[k]) is Some,
    ensures
        r == spec_hex_number(s@.subrange(a as int, b as int)),
{
    let mut v: u32 = 0;
    let mut k: usize = a;
    proof {
        assert(s@.subrange(a as int, a as int) =~= Seq::<char>::empty());
        lemma_pow16_mono(0, 6);
        reveal_with_fuel(pow16, 2);
    }
    while k < b
        invariant
            a <= k <= b,
            b <= s@.len(),
            b - a <= 6,
            forall|m: int| a <= m < b ==> spec_hex_value(#[trigger] s@[m]) is Some,
            v == spec_hex_number(s@.subrange(a as int, k as int)),
            v < pow16((k - a) as nat),
            pow16((k - a) as nat) <= pow16(6),
        decreases b - k,
    {
        let d = match hex_value(s[k]) {
            Some(d) => d,
            None => 0,
        };
        proof {
            let sub = s@.subrange(a as int, k + 1);
            assert(sub.drop_last() =~= s@.subrange(a as int, k as int));
            assert(sub.last() == s@[k as int]);
            assert(spec_hex_value(s@[k as int]) is Some);
            reveal_with_fuel(pow16, 7);
            assert(pow16((k + 1 - a) as nat) == 16 * pow16((k - a) as nat));
            assert(d < 16);
            assert(pow16(6) == 16777216);
            if k + 1 - a <= 5 {
                assert(pow16((k + 1 - a) as nat) <= pow16(6)) by {
                    lemma_pow16_mono((k + 1 - a) as nat, 6);
                }
            }
        }
        v = v * 16 + d;
        k = k + 1;
    }
    v
}

proof fn lemma_pow16_mono(m: nat, n: nat)
    requires
        m <= n,
    ensures
        pow16(m) <= pow16(n),
    decreases n - m,
{
    if m < n {
        lemma_pow16_mono(m, (n - 1) as nat);
        assert(pow16(n) == 16 * pow16((n - 1) as nat));
    }
}

/// The escape that starts at position `i` of `s`, as [`spec_escape_at`]
/// gives it.
fn escape_at(s: &[char], i: usize) -> (r: Option<(usize, usize, usize)>)
    requires
        i < s@.len(),
    ensures
        match r {
            Some((a, b, e)) => spec_escape_at(s@, i as int) == Some((a as int, b as int, e as int)),
            None => spec_escape_at(s@, i as int) is None,
        },
        r matches Some((a, b, e)) ==> i < a <= b <= e <= s@.len() && b - a <= 6 && (forall|k: int|
            a <= k < b ==> spec_hex_value(#[trigger] s@[k]) is Some),
{
    let len = s.len();
    if len - i > 1 && s[i] == '\\' && s[i + 1] == 'u' {
        if len - i > 2 && s[i + 2] == '{' {
            let n = hex_run(s, i + 3, 7);
            if 1 <= n && n <= 6 && n < s.len() - (i + 3) && s[i + 3 + n] == '}' {
                return Some((i + 3, i + 3 + n, i + 4 + n));
            }
        }
        proof {
            if i + 2 < s@.len() && s@[i + 2] == '{' {
                assert(spec_hex_value('{') is None);
            }
        }
        let m = hex_run(s, i + 2, 4);
        if m == 4 {
            proof {
                let n = spec_hex_run(s@, i + 3);
                if i + 2 < s@.len() && s@[i + 2] == '{' {
                    assert(spec_hex_run(s@, i + 2) == 0);
                }
            }
            return Some((i + 2, i + 6, i + 6));
        }
        None
    } else {
        None
    }
}

/// The characters of `s`.
pub fn str_chars(s: &str) -> (r: Vec<char>)
    ensures
        r@ == s@,
{
    let mut out: Vec<char> = Vec::new();
    for c in it: s.chars()
        invariant
            it.seq() == s@,
            out@ == s@.take(it.index() as int),
    {
        proof {
            assert(s@.take(it.index() + 1) =~= s@.take(it.index() as int).push(c));
        }
        out.push(c);
    }
    proof {
        assert(s@.take(s@.len() as int) =~= s@);
    }
    out
}

/// The characters `s[a..b]` as a string.
pub fn string_of(s: &[char], a: usize, b: usize) -> (r: String)
    requires
        a <= b <= s@.len(),
    ensures
        r@ == s@.subrange(a as int, b as int),
{
    let mut out = String::new();
    let mut k: usize = a;
    proof {
        assert(out@ =~= s@.subrange(a as int, a as int));
    }
    while k < b
        invariant
            a <= k <= b <= s@.len(),
            out@ == s@.subrange(a as int, k as int),
        decreases b - k,
    {
        string_push(&mut out, s[k]);
        proof {
            assert(out@ =~= s@.subrange(a as int, k + 1));
        }
        k = k + 1;
    }
    out
}

/// `s` with each escape `\u{XXXXXX}` (one to six hexadecimal digits) or
/// `\uXXXX` replaced by the character of that code. Fails when the UTF-16
/// encoding of `s` is longer than a dictionary string may be, or an escape
/// codes no character.
pub fn unescape(data: &str) -> (r: DicWriteResult<String>)
    ensures
        match spec_unescape(data@) {
            Unescaped::Text(t) => r matches Ok(v) && v@ == t,
            Unescaped::TooLong(n) => r == Err::<String, BuildFailure>(
                BuildFailure::InvalidSize { actual: n as usize, expected: MAX_DIC_STRING_LEN },
            ),
            Unescaped::BadChar(d) => r matches Err(BuildFailure::InvalidCharLiteral(x)) && x@ == d,
        },
{
    let n = utf16_len(data);
    if n > MAX_DIC_STRING_LEN {
        return Err(BuildFailure::InvalidSize { actual: n, expected: MAX_DIC_STRING_LEN });
    }
    let s = str_chars(data);
    let ghost all = s@;
    let mut out = String::new();
    let mut i: usize = 0;
    while i < s.len()
        invariant
            all == s@,
            all == data@,
            i <= all.len(),
            spec_utf16_encode(all).len() <= MAX_DIC_STRING_LEN,
            match spec_unescape_from(all, i as int) {
                Ok(rest) => spec_unescape_from(all, 0) == Ok::<Seq<char>, Seq<char>>(out@ + rest),
                Err(d) => spec_unescape_from(all, 0) == Err::<Seq<char>, Seq<char>>(d),
            },
        decreases all.len() - i,
    {
        match escape_at(s.as_slice(), i) {
            Some((a, b, e)) => {
                let v = hex_number(s.as_slice(), a, b);
                match char_from_u32(v) {
                    Some(c) => {
                        let ghost before = out@;
                        string_push(&mut out, c);
                        proof {
                            vstd::utf8::char_u32_cast(c, v);
                            assert(c == v as u32 as char);
                            match spec_unescape_from(all, e as int) {
                                Ok(rest) => {
                                    assert(before + (seq![c] + rest) =~= out@ + rest);
                                },
                                Err(_) => {},
                            }
                        }
                        i = e;
                    },
                    None => {
                        let digits = string_of(s.as_slice(), a, b);
                        return Err(BuildFailure::InvalidCharLiteral(digits));
                    },
                }
            },
            None => {
                let ghost before = out@;
                string_push(&mut out, s[i]);
                proof {
                    match spec_unescape_from(all, i + 1) {
                        Ok(rest) => {
                            assert(before + (seq![all[i as int]] + rest) =~= out@ + rest);
                        },
                        Err(_) => {},
                    }
                }
                i = i + 1;
            },
        }
    }
    proof {
        assert(out@ + Seq::<char>::empty() =~= out@);
    }
    Ok(out)
}

} // verus!
