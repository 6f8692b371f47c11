//! Writers of the primitive encodings of binary dictionaries, and the laws
//! that the readers in `dic::read` give back what they write.

use vstd::prelude::*;

use crate::dic::build::error::{BuildFailure, DicWriteResult};
use crate::dic::read::{
    spec_len_prefix_bytes, spec_len_prefix_ok, spec_len_prefix_size, spec_len_prefix_value,
    spec_u32s_at, spec_units_at, spec_utf16_bytes, spec_utf16_decode, spec_utf16_encode,
    spec_utf16_of_char, spec_utf16_string_at, spec_utf16_string_bytes,
};
use vstd::string::StringSliceAdditionalSpecFns;
use vstd::utf8::encode_utf8;
use crate::input_text::{lemma_byte_offset_le, lemma_byte_offset_step, spec_byte_offset};

verus! {

broadcast use vstd::utf8::group_utf8_lib;

/// Largest UTF-16 length a string prefix can hold.
pub const MAX_UTF16_LEN: usize = 32767;

/// Largest UTF-8 byte length accepted by [`Utf16Writer::write`].
pub const MAX_UTF8_INPUT_LEN: usize = 262144;

/// Writer of length-prefixed UTF-16 strings, reusing an internal buffer.
pub struct Utf16Writer {
    buffer: Vec<u8>,
}

pub proof fn lemma_utf16_encode_push(cs: Seq<char>, c: char)
    ensures
        spec_utf16_encode(cs.push(c)) == spec_utf16_encode(cs) + spec_utf16_of_char(c as u32),
    decreases cs.len(),
{
    if cs.len() == 0 {
        assert(cs.push(c).skip(1) =~= Seq::<char>::empty());
        assert(spec_utf16_encode(Seq::<char>::empty()) =~= seq![]);
        assert(spec_utf16_of_char(c as u32) + seq![] =~= seq![] + spec_utf16_of_char(c as u32));
    } else {
        lemma_utf16_encode_push(cs.skip(1), c);
        assert(cs.push(c).skip(1) =~= cs.skip(1).push(c));
        assert(cs.push(c)[0] == cs[0]);
        assert(spec_utf16_of_char(cs[0] as u32) + (spec_utf16_encode(cs.skip(1))
            + spec_utf16_of_char(c as u32)) =~= (spec_utf16_of_char(cs[0] as u32)
            + spec_utf16_encode(cs.skip(1))) + spec_utf16_of_char(c as u32));
    }
}

/// Number of UTF-16 code units of `s`.
pub fn utf16_len(s: &str) -> (r: usize)
    ensures
        r == spec_utf16_encode(s@).len(),
{
    let bytes = s.as_bytes().len();
    let ghost all = s@;
    let mut n: usize = 0;
    proof {
        assert(all.take(0) =~= Seq::<char>::empty());
        assert(spec_utf16_encode(Seq::<char>::empty()) =~= Seq::<u16>::empty());
    }
    for c in it: s.chars()
        invariant
            it.seq() == all,
            all == s@,
            bytes == encode_utf8(all).len(),
            n == spec_utf16_encode(all.take(it.index() as int)).len(),
            n <= spec_byte_offset(all, it.index() as int),
    {
        let ghost i = it.index() as int;
        proof {
            assert(all[i] == c);
            assert(all.take(i + 1) =~= all.take(i).push(c));
            lemma_utf16_encode_push(all.take(i), c);
            lemma_byte_offset_step(all, i);
            lemma_byte_offset_le(all, i + 1);
            assert(all.take(all.len() as int) =~= all);
        }
        if (c as u32) < 0x10000 {
            n = n + 1;
        } else {
            n = n + 2;
        }
    }
    proof {
        assert(all.take(all.len() as int) =~= all);
    }
    n
}

pub proof fn lemma_utf16_bytes_concat(a: Seq<u16>, b: Seq<u16>)
    ensures
        spec_utf16_bytes(a + b) == spec_utf16_bytes(a) + spec_utf16_bytes(b),
    decreases a.len(),
{
    if a.len() == 0 {
        assert(a + b =~= b);
        assert(spec_utf16_bytes(a) =~= seq![]);
        assert(seq![] + spec_utf16_bytes(b) =~= spec_utf16_bytes(b));
    } else {
        lemma_utf16_bytes_concat(a.skip(1), b);
        assert((a + b).skip(1) =~= a.skip(1) + b);
        assert((a + b)[0] == a[0]);
        let h = seq![(a[0] % 256) as u8, (a[0] / 256) as u8];
        assert(h + (spec_utf16_bytes(a.skip(1)) + spec_utf16_bytes(b)) =~= (h + spec_utf16_bytes(
            a.skip(1),
        )) + spec_utf16_bytes(b));
    }
}

pub proof fn lemma_utf16_bytes_len(a: Seq<u16>)
    ensures
        spec_utf16_bytes(a).len() == 2 * a.len(),
    decreases a.len(),
{
    if a.len() > 0 {
        lemma_utf16_bytes_len(a.skip(1));
    }
}

/// The bytes of a unit sequence read back as the same units.
pub proof fn lemma_units_of_bytes(us: Seq<u16>, pre: Seq<u8>, rest: Seq<u8>)
    ensures
        spec_units_at(pre + spec_utf16_bytes(us) + rest, pre.len() as int, us.len() as int) == us,
    decreases us.len(),
{
    let s = pre + spec_utf16_bytes(us) + rest;
    if us.len() > 0 {
        let h = seq![(us[0] % 256) as u8, (us[0] / 256) as u8];
        lemma_units_of_bytes(us.skip(1), pre + h, rest);
        assert(pre + spec_utf16_bytes(us) + rest =~= (pre + h) + spec_utf16_bytes(us.skip(1))
            + rest);
        let tail = spec_units_at(s, (pre.len() + 2) as int, (us.len() - 1) as int);
        assert(tail == us.skip(1));
        assert forall|j: int| 0 <= j < us.len() implies #[trigger] spec_units_at(
            s,
            pre.len() as int,
            us.len() as int,
        )[j] == us[j] by {
            if j == 0 {
                assert(s[pre.len() as int] == (us[0] % 256) as u8);
                assert(s[pre.len() as int + 1] == (us[0] / 256) as u8);
            } else {
                assert(tail[j - 1] == us.skip(1)[j - 1]);
                assert(pre.len() + 2 * j == (pre.len() + 2) + 2 * (j - 1));
            }
        }
        assert(spec_units_at(s, pre.len() as int, us.len() as int) =~= us);
    } else {
        assert(spec_units_at(s, pre.len() as int, 0) =~= us);
    }
}

/// Decoding gives back what encoding produced.
pub proof fn lemma_utf16_decode_encode(cs: Seq<char>)
    ensures
        spec_utf16_decode(spec_utf16_encode(cs)) == Some(cs),
    decreases cs.len(),
{
    if cs.len() == 0 {
        assert(spec_utf16_encode(cs) =~= seq![]);
    } else {
        let c = cs[0];
        let v = c as u32;
        let e = spec_utf16_encode(cs);
        let r = spec_utf16_encode(cs.skip(1));
        lemma_utf16_decode_encode(cs.skip(1));
        vstd::utf8::char_is_scalar(c);
        vstd::utf8::char_u32_cast(c, v);
        assert(seq![c] + cs.skip(1) =~= cs);
        if v < 0x10000 {
            assert(e.skip(1) =~= r);
            assert(e[0] == v as u16);
        } else {
            assert(e.skip(2) =~= r);
            let u0 = e[0];
            let u1 = e[1];
            assert(u0 == (0xD800 + (v - 0x10000) / 1024) as u16);
            assert(u1 == (0xDC00 + (v - 0x10000) % 1024) as u16);
            assert(0x10000 + (u0 - 0xD800) * 1024 + (u1 - 0xDC00) == v);
        }
    }
}

/// Reading a string back from its serialized form, followed by any bytes,
/// gives the string and the position right after it.
pub proof fn lemma_utf16_string_roundtrip(cs: Seq<char>, rest: Seq<u8>)
    requires
        spec_utf16_encode(cs).len() <= MAX_UTF16_LEN,
    ensures
        spec_utf16_string_at(spec_utf16_string_bytes(cs) + rest, 0) == Some(
            (cs, spec_utf16_string_bytes(cs).len() as int),
        ),
{
    let us = spec_utf16_encode(cs);
    let n = us.len() as int;
    let pre = spec_len_prefix_bytes(n);
    let s = spec_utf16_string_bytes(cs) + rest;
    assert(s =~= pre + spec_utf16_bytes(us) + rest);
    lemma_utf16_bytes_len(us);
    assert(s[0] == pre[0]);
    if n >= 127 {
        assert(s[1] == pre[1]);
    }
    assert(spec_len_prefix_ok(s, 0));
    assert(spec_len_prefix_size(s, 0) == pre.len());
    assert(spec_len_prefix_value(s, 0) == n);
    lemma_units_of_bytes(us, pre, rest);
    lemma_utf16_decode_encode(cs);
}

impl Utf16Writer {
    /// The scratch buffer, which holds nothing between writes.
    pub closed spec fn spec_buffer(&self) -> Seq<u8> {
        self.buffer@
    }

    /// A writer with an empty buffer.
    pub fn new() -> (r: Utf16Writer)
        ensures
            r.spec_buffer().len() == 0,
    {
        Utf16Writer { buffer: Vec::with_capacity(256) }
    }

    /// Appends the length prefix of a string of `length` UTF-16 units; returns
    /// the number of bytes written.
    pub fn write_len(&self, w: &mut Vec<u8>, length: usize) -> (r: DicWriteResult<usize>)
        ensures
            r is Ok <==> length <= MAX_UTF16_LEN,
            r is Ok ==> final(w)@ == old(w)@ + spec_len_prefix_bytes(length as int),
            r matches Ok(n) ==> n == spec_len_prefix_bytes(length as int).len(),
            r is Err ==> final(w)@ == old(w)@,
    {
        if length > MAX_UTF16_LEN {
            return Err(BuildFailure::InvalidSize { actual: length, expected: MAX_UTF16_LEN });
        }
        if length < 127 {
            w.push(length as u8);
            assert(w@ =~= old(w)@ + spec_len_prefix_bytes(length as int));
            Ok(1)
        } else {
            let b1 = (length / 256 + 128) as u8;
            let b0 = (length % 256) as u8;
            w.push(b1);
            w.push(b0);
            assert(w@ =~= old(w)@ + spec_len_prefix_bytes(length as int));
            Ok(2)
        }
    }

    /// Appends `data` as a length-prefixed UTF-16 string; returns the number of
    /// bytes written. Fails when `data` is longer than 262144 bytes or
    /// than 32767 UTF-16 units.
    pub fn write(&mut self, w: &mut Vec<u8>, data: &str) -> (r: DicWriteResult<usize>)
        ensures
            r is Ok <==> data.spec_bytes().len() <= MAX_UTF8_INPUT_LEN && spec_utf16_encode(
                data@,
            ).len() <= MAX_UTF16_LEN,
            r is Ok ==> final(w)@ == old(w)@ + spec_utf16_string_bytes(data@),
            r matches Ok(n) ==> n == spec_utf16_string_bytes(data@).len(),
            r is Err ==> final(w)@ == old(w)@,
    {
        let byte_len = data.as_bytes().len();
        if byte_len > MAX_UTF8_INPUT_LEN {
            return Err(BuildFailure::InvalidSize { actual: byte_len, expected: MAX_UTF8_INPUT_LEN });
        }
        self.buffer.clear();
        let mut length: usize = 0;
        let ghost chars = data@;
        proof {
            assert(spec_utf16_encode(chars.take(0)) =~= seq![]);
            assert(spec_utf16_bytes(seq![]) =~= Seq::<u8>::empty());
            lemma_utf16_encode_len_bound(chars);
            lemma_utf8_len_ge(chars);
            assert(data.spec_bytes() == encode_utf8(chars));
        }
        for c in it: data.chars()
            invariant
                chars == data@,
                length == spec_utf16_encode(chars.take(it.index() as int)).len(),
                self.buffer@ == spec_utf16_bytes(spec_utf16_encode(chars.take(it.index() as int))),
                it.seq() == chars,
                spec_utf16_encode(chars).len() <= 2 * chars.len(),
                chars.len() <= byte_len,
                byte_len <= MAX_UTF8_INPUT_LEN,
        {
            let ghost i = it.index();
            let ghost prev = chars.take(i as int);
            proof {
                assert(chars.take(i + 1) =~= prev.push(c));
                lemma_utf16_encode_push(prev, c);
                lemma_utf16_encode_prefix_bound(chars, i + 1);
            }
            let v = c as u32;
            if v < 0x10000 {
                let u = v as u16;
                self.buffer.push((u % 256) as u8);
                self.buffer.push((u / 256) as u8);
                length = length + 1;
                proof {
                    let us = seq![u];
                    assert(spec_utf16_of_char(c as u32) =~= us);
                    lemma_utf16_bytes_concat(spec_utf16_encode(prev), us);
                    assert(us.skip(1) =~= Seq::<u16>::empty());
                    assert(spec_utf16_bytes(Seq::<u16>::empty()) =~= Seq::<u8>::empty());
                    assert(spec_utf16_bytes(us) =~= seq![(u % 256) as u8, (u / 256) as u8]);
                }
            } else {
                let x = v - 0x10000;
                let hi = (0xD800 + x / 1024) as u16;
                let lo = (0xDC00 + x % 1024) as u16;
                self.buffer.push((hi % 256) as u8);
                self.buffer.push((hi / 256) as u8);
                self.buffer.push((lo % 256) as u8);
                self.buffer.push((lo / 256) as u8);
                length = length + 2;
                proof {
                    let us = seq![hi, lo];
                    assert(spec_utf16_of_char(c as u32) =~= us);
                    lemma_utf16_bytes_concat(spec_utf16_encode(prev), us);
                    assert(us.skip(1) =~= seq![lo]);
                    assert(seq![lo].skip(1) =~= Seq::<u16>::empty());
                    assert(spec_utf16_bytes(Seq::<u16>::empty()) =~= Seq::<u8>::empty());
                    assert(spec_utf16_bytes(seq![lo]) =~= seq![(lo % 256) as u8, (lo / 256) as u8]);
                    assert(spec_utf16_bytes(us) =~= seq![
                        (hi % 256) as u8,
                        (hi / 256) as u8,
                        (lo % 256) as u8,
                        (lo / 256) as u8,
                    ]);
                }
            }
        }
        proof {
            assert(chars.take(chars.len() as int) =~= chars);
            lemma_utf16_bytes_len(spec_utf16_encode(chars));
            assert(length == spec_utf16_encode(chars).len());
        }
        let prefix = self.write_len(w, length)?;
        let ghost mid = w@;
        let blen = self.buffer.len();
        let mut j: usize = 0;
        while j < blen
            invariant
                j <= blen,
                blen == self.buffer@.len(),
                w@ == mid + self.buffer@.take(j as int),
            decreases blen - j,
        {
            w.push(self.buffer[j]);
            proof {
                assert(self.buffer@.take(j + 1) =~= self.buffer@.take(j as int).push(
                    self.buffer@[j as int],
                ));
                assert(mid + self.buffer@.take(j + 1) =~= (mid + self.buffer@.take(j as int)).push(
                    self.buffer@[j as int],
                ));
            }
            j = j + 1;
        }
        proof {
            assert(self.buffer@.take(blen as int) =~= self.buffer@);
            assert(w@ =~= old(w)@ + spec_utf16_string_bytes(data@));
        }
        Ok(prefix + blen)
    }

    /// Appends the empty string when `data` equals `other`, `data` otherwise.
    pub fn write_empty_if_equal(&mut self, w: &mut Vec<u8>, data: &str, other: &str) -> (r:
        DicWriteResult<usize>)
        ensures
            data@ == other@ ==> (r matches Ok(n) && final(w)@ == old(w)@ + seq![0u8] && n == 1),
            data@ != other@ ==> (r is Ok <==> data.spec_bytes().len() <= MAX_UTF8_INPUT_LEN
                && spec_utf16_encode(data@).len() <= MAX_UTF16_LEN),
            data@ != other@ && r is Ok ==> final(w)@ == old(w)@ + spec_utf16_string_bytes(data@),
    {
        if str_eq(data, other) {
            let r = self.write(w, "");
            proof {
                reveal_strlit("");
                assert(""@ =~= Seq::<char>::empty());
                assert(spec_utf16_encode(Seq::<char>::empty()) =~= seq![]);
                assert(spec_utf16_string_bytes(""@) =~= seq![0u8]);
                assert(""@.len() == 0);
                assert(encode_utf8(""@) =~= Seq::<u8>::empty());
            }
            r
        } else {
            self.write(w, data)
        }
    }
}

/// Whether two strings are equal.
#[verifier::external_body]
pub(crate) fn str_eq(a: &str, b: &str) -> (r: bool)
    ensures
        r == (a@ == b@),
{
    a == b
}

proof fn lemma_utf8_len_ge(cs: Seq<char>)
    ensures
        encode_utf8(cs).len() >= cs.len(),
    decreases cs.len(),
{
    if cs.len() > 0 {
        lemma_utf8_len_ge(cs.drop_first());
    }
}

proof fn lemma_utf16_encode_len_bound(cs: Seq<char>)
    ensures
        spec_utf16_encode(cs).len() <= 2 * cs.len(),
    decreases cs.len(),
{
    if cs.len() > 0 {
        lemma_utf16_encode_len_bound(cs.skip(1));
    }
}

proof fn lemma_utf16_encode_prefix_bound(cs: Seq<char>, i: int)
    requires
        0 <= i <= cs.len(),
    ensures
        spec_utf16_encode(cs.take(i)).len() <= 2 * i,
{
    lemma_utf16_encode_len_bound(cs.take(i));
}

/// Little-endian bytes of a sequence of `u32` values.
pub open spec fn spec_u32s_bytes(vs: Seq<u32>) -> Seq<u8>
    decreases vs.len(),
{
    if vs.len() == 0 {
        seq![]
    } else {
        spec_u32_bytes(vs[0]) + spec_u32s_bytes(vs.skip(1))
    }
}

/// Little-endian bytes of one `u32`.
pub open spec fn spec_u32_bytes(v: u32) -> Seq<u8> {
    seq![
        (v % 256) as u8,
        ((v / 256) % 256) as u8,
        ((v / 65536) % 256) as u8,
        (v / 16777216) as u8,
    ]
}

/// Appends an array of `u32`: a count byte followed by the values; returns the
/// number of bytes written. Fails when there are more than 127 values.
pub fn write_u32_array(w: &mut Vec<u8>, data: &[u32]) -> (r: DicWriteResult<usize>)
    ensures
        r is Ok <==> data@.len() <= 127,
        r is Ok ==> final(w)@ == old(w)@ + seq![data@.len() as u8] + spec_u32s_bytes(data@),
        r matches Ok(n) ==> n == 1 + 4 * data@.len(),
        r is Err ==> final(w)@ == old(w)@,
{
    let len = data.len();
    if len > 127 {
        return Err(BuildFailure::InvalidSize { expected: 127, actual: len });
    }
    w.push(len as u8);
    let ghost start = w@;
    let mut i: usize = 0;
    while i < len
        invariant
            i <= len,
            len == data@.len(),
            len <= 127,
            w@ == start + spec_u32s_bytes(data@.take(i as int)),
        decreases len - i,
    {
        let v = data[i];
        w.push((v % 256) as u8);
        w.push(((v / 256) % 256) as u8);
        w.push(((v / 65536) % 256) as u8);
        w.push((v / 16777216) as u8);
        proof {
            lemma_u32s_bytes_push(data@.take(i as int), v);
            assert(data@.take(i + 1) =~= data@.take(i as int).push(v));
            assert(w@ =~= start + spec_u32s_bytes(data@.take(i as int)) + spec_u32_bytes(v));
        }
        i = i + 1;
    }
    proof {
        assert(data@.take(len as int) =~= data@);
        lemma_u32s_bytes_len(data@);
    }
    Ok(1 + 4 * len)
}

proof fn lemma_u32s_bytes_push(vs: Seq<u32>, v: u32)
    ensures
        spec_u32s_bytes(vs.push(v)) == spec_u32s_bytes(vs) + spec_u32_bytes(v),
    decreases vs.len(),
{
    if vs.len() == 0 {
        assert(vs.push(v).skip(1) =~= Seq::<u32>::empty());
        assert(spec_u32s_bytes(Seq::<u32>::empty()) =~= seq![]);
        assert(spec_u32_bytes(v) + seq![] =~= seq![] + spec_u32_bytes(v));
    } else {
        lemma_u32s_bytes_push(vs.skip(1), v);
        assert(vs.push(v).skip(1) =~= vs.skip(1).push(v));
        assert(spec_u32_bytes(vs[0]) + (spec_u32s_bytes(vs.skip(1)) + spec_u32_bytes(v))
            =~= (spec_u32_bytes(vs[0]) + spec_u32s_bytes(vs.skip(1))) + spec_u32_bytes(v));
    }
}

pub proof fn lemma_u32s_bytes_len(vs: Seq<u32>)
    ensures
        spec_u32s_bytes(vs).len() == 4 * vs.len(),
    decreases vs.len(),
{
    if vs.len() > 0 {
        lemma_u32s_bytes_len(vs.skip(1));
    }
}

/// Reading back a written `u32` array gives the same values.
pub proof fn lemma_u32_array_roundtrip(vs: Seq<u32>, rest: Seq<u8>)
    requires
        vs.len() <= 127,
    ensures
        ({
            let s = seq![vs.len() as u8] + spec_u32s_bytes(vs) + rest;
            &&& s[0] == vs.len()
            &&& 1 + 4 * vs.len() <= s.len()
            &&& spec_u32s_at(s, 1, vs.len() as int) == vs
        }),
{
    let s = seq![vs.len() as u8] + spec_u32s_bytes(vs) + rest;
    lemma_u32s_bytes_len(vs);
    lemma_u32s_at_bytes(vs, seq![vs.len() as u8], rest);
}

pub proof fn lemma_u32s_at_bytes(vs: Seq<u32>, pre: Seq<u8>, rest: Seq<u8>)
    ensures
        spec_u32s_at(pre + spec_u32s_bytes(vs) + rest, pre.len() as int, vs.len() as int) == vs,
    decreases vs.len(),
{
    let s = pre + spec_u32s_bytes(vs) + rest;
    if vs.len() > 0 {
        let h = spec_u32_bytes(vs[0]);
        lemma_u32s_at_bytes(vs.skip(1), pre + h, rest);
        assert(s =~= (pre + h) + spec_u32s_bytes(vs.skip(1)) + rest);
        let tail = spec_u32s_at(s, (pre.len() + 4) as int, (vs.len() - 1) as int);
        assert forall|j: int| 0 <= j < vs.len() implies #[trigger] spec_u32s_at(
            s,
            pre.len() as int,
            vs.len() as int,
        )[j] == vs[j] by {
            if j == 0 {
                let p = pre.len() as int;
                assert(s[p] == h[0]);
                assert(s[p + 1] == h[1]);
                assert(s[p + 2] == h[2]);
                assert(s[p + 3] == h[3]);
            } else {
                assert(tail[j - 1] == vs.skip(1)[j - 1]);
                assert(pre.len() + 4 * j == (pre.len() + 4) + 4 * (j - 1));
            }
        }
        assert(spec_u32s_at(s, pre.len() as int, vs.len() as int) =~= vs);
    } else {
        assert(spec_u32s_at(s, pre.len() as int, 0) =~= vs);
    }
}

} // verus!
