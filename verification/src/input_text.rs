//! Input text of an analysis: the sentence, its characters and the byte
//! offset of every character boundary.

use vstd::prelude::*;
use vstd::utf8::*;

use crate::dic::read::string_push;

verus! {

broadcast use vstd::utf8::group_utf8_lib;

/// UTF-8 encoding of two sequences one after the other is the encoding of both.
pub proof fn lemma_encode_utf8_concat(a: Seq<char>, b: Seq<char>)
    ensures
        encode_utf8(a + b) == encode_utf8(a) + encode_utf8(b),
    decreases a.len(),
{
    if a.len() == 0 {
        assert(a + b =~= b);
        assert(encode_utf8(a) =~= Seq::<u8>::empty());
        assert(Seq::<u8>::empty() + encode_utf8(b) =~= encode_utf8(b));
    } else {
        lemma_encode_utf8_concat(a.drop_first(), b);
        assert((a + b).drop_first() =~= a.drop_first() + b);
        assert(encode_utf8(a + b) == encode_scalar((a + b)[0] as u32) + encode_utf8(
            (a + b).drop_first(),
        ));
        assert(encode_scalar(a[0] as u32) + (encode_utf8(a.drop_first()) + encode_utf8(b))
            =~= (encode_scalar(a[0] as u32) + encode_utf8(a.drop_first())) + encode_utf8(b));
    }
}

/// Byte offset of character boundary `i` of `chars`.
pub open spec fn spec_byte_offset(chars: Seq<char>, i: int) -> int {
    encode_utf8(chars.take(i)).len() as int
}

/// Number of bytes of the UTF-8 encoding of `c`.
pub fn utf8_width(c: char) -> (r: usize)
    ensures
        r == encode_scalar(c as u32).len(),
        1 <= r <= 4,
{
    let v = c as u32;
    if v <= 0x7f {
        1
    } else if v <= 0x7ff {
        2
    } else if v <= 0xffff {
        3
    } else {
        4
    }
}

/// Offsets grow by the width of each character.
proof fn lemma_offset_step(chars: Seq<char>, i: int)
    requires
        0 <= i < chars.len(),
    ensures
        spec_byte_offset(chars, i + 1) == spec_byte_offset(chars, i) + encode_scalar(
            chars[i] as u32,
        ).len(),
{
    assert(chars.take(i + 1) =~= chars.take(i) + seq![chars[i]]);
    lemma_encode_utf8_concat(chars.take(i), seq![chars[i]]);
    assert(seq![chars[i]].drop_first() =~= Seq::<char>::empty());
    assert(encode_utf8(seq![chars[i]]) == encode_scalar(chars[i] as u32) + encode_utf8(
        Seq::<char>::empty(),
    ));
    assert(encode_scalar(chars[i] as u32) + Seq::<u8>::empty() =~= encode_scalar(chars[i] as u32));
}

/// Offsets never decrease.
pub proof fn lemma_offsets_monotone(chars: Seq<char>, i: int, j: int)
    requires
        0 <= i <= j <= chars.len(),
    ensures
        spec_byte_offset(chars, i) <= spec_byte_offset(chars, j),
    decreases j - i,
{
    if i < j {
        lemma_offsets_monotone(chars, i, j - 1);
        lemma_offset_step(chars, j - 1);
    }
}

/// Offsets strictly grow from one boundary to the next.
pub proof fn lemma_offsets_increase(chars: Seq<char>, i: int, j: int)
    requires
        0 <= i < j <= chars.len(),
    ensures
        spec_byte_offset(chars, i) < spec_byte_offset(chars, j),
{
    lemma_offset_step(chars, i);
    lemma_offsets_monotone(chars, i + 1, j);
}

/// Offsets grow by the width of each character.
pub proof fn lemma_byte_offset_step(chars: Seq<char>, i: int)
    requires
        0 <= i < chars.len(),
    ensures
        spec_byte_offset(chars, i + 1) == spec_byte_offset(chars, i) + encode_scalar(
            chars[i] as u32,
        ).len(),
        chars[i] as u32 >= 0x10000 ==> encode_scalar(chars[i] as u32).len() == 4,
        encode_scalar(chars[i] as u32).len() >= 1,
{
    lemma_offset_step(chars, i);
}

/// No boundary lies beyond the end of the encoding.
pub proof fn lemma_byte_offset_le(chars: Seq<char>, i: int)
    requires
        0 <= i <= chars.len(),
    ensures
        spec_byte_offset(chars, i) <= encode_utf8(chars).len(),
{
    lemma_offsets_monotone(chars, i, chars.len() as int);
    assert(chars.take(chars.len() as int) =~= chars);
}

/// Every character takes at least one byte.
pub proof fn lemma_offset_at_least(chars: Seq<char>, i: int)
    requires
        0 <= i <= chars.len(),
    ensures
        spec_byte_offset(chars, i) >= i,
    decreases i,
{
    if i > 0 {
        lemma_offset_at_least(chars, i - 1);
        lemma_offset_step(chars, i - 1);
    }
}

/// Number of bytes of the UTF-8 encoding of `s`, and number of its characters.
pub fn str_sizes(s: &str) -> (r: (usize, usize))
    ensures
        r.0 == encode_utf8(s@).len(),
        r.1 == s@.len(),
{
    let bytes = s.as_bytes().len();
    proof {
        lemma_offset_at_least(s@, s@.len() as int);
        assert(s@.take(s@.len() as int) =~= s@);
    }
    let mut n: usize = 0;
    for c in it: s.chars()
        invariant
            it.seq() == s@,
            s@.len() <= bytes,
            n == it.index(),
    {
        n = n + 1;
    }
    (bytes, n)
}

/// The sentence being analyzed, its characters and its character boundaries.
pub struct InputBuffer {
    original: String,
    chars: Vec<char>,
    offsets: Vec<usize>,
}

impl InputBuffer {
    /// The text.
    pub closed spec fn spec_text(&self) -> Seq<char> {
        self.original@
    }

    /// Characters of the text, once built.
    pub closed spec fn spec_chars(&self) -> Seq<char> {
        self.chars@
    }

    /// Byte offsets of the character boundaries, once built.
    pub closed spec fn spec_offsets(&self) -> Seq<usize> {
        self.offsets@
    }

    /// The characters and boundaries describe the text.
    pub closed spec fn wf(&self) -> bool {
        &&& self.chars@ == self.original@
        &&& self.offsets@.len() == self.chars@.len() + 1
        &&& forall|i: int|
            0 <= i <= self.chars@.len() ==> #[trigger] self.offsets@[i] == spec_byte_offset(
                self.chars@,
                i,
            )
    }

    /// A copy of the input.
    pub fn duplicate(&self) -> (r: InputBuffer)
        ensures
            r.spec_text() == self.spec_text(),
            r.spec_chars() == self.spec_chars(),
            r.spec_offsets() == self.spec_offsets(),
            self.wf() ==> r.wf(),
    {
        let mut chars: Vec<char> = Vec::new();
        let mut i: usize = 0;
        while i < self.chars.len()
            invariant
                i <= self.chars@.len(),
                chars@ == self.chars@.take(i as int),
            decreases self.chars@.len() - i,
        {
            chars.push(self.chars[i]);
            proof {
                assert(self.chars@.take(i + 1) =~= self.chars@.take(i as int).push(self.chars@[i as int]));
            }
            i = i + 1;
        }
        let mut offsets: Vec<usize> = Vec::new();
        let mut j: usize = 0;
        while j < self.offsets.len()
            invariant
                j <= self.offsets@.len(),
                offsets@ == self.offsets@.take(j as int),
            decreases self.offsets@.len() - j,
        {
            offsets.push(self.offsets[j]);
            proof {
                assert(self.offsets@.take(j + 1) =~= self.offsets@.take(j as int).push(
                    self.offsets@[j as int],
                ));
            }
            j = j + 1;
        }
        proof {
            assert(self.chars@.take(self.chars@.len() as int) =~= self.chars@);
            assert(self.offsets@.take(self.offsets@.len() as int) =~= self.offsets@);
        }
        InputBuffer { original: self.original.clone(), chars, offsets }
    }

    /// An empty input.
    pub fn new() -> (r: InputBuffer)
        ensures
            r.wf(),
            r.spec_text() == Seq::<char>::empty(),
    {
        let mut offsets: Vec<usize> = Vec::new();
        offsets.push(0);
        let r = InputBuffer { original: String::new(), chars: Vec::new(), offsets };
        proof {
            assert(r.chars@.take(0) =~= Seq::<char>::empty());
        }
        r
    }

    /// An input holding `text`, with its boundaries computed.
    pub fn from_text(text: &str) -> (r: InputBuffer)
        requires
            text@.len() < usize::MAX,
            encode_utf8(text@).len() <= usize::MAX,
        ensures
            r.wf(),
            r.spec_text() == text@,
    {
        let mut s = String::new();
        let mut chars: Vec<char> = Vec::new();
        let mut offsets: Vec<usize> = Vec::new();
        offsets.push(0);
        let mut off: usize = 0;
        let ghost all = text@;
        proof {
            assert(all.take(0) =~= Seq::<char>::empty());
        }
        for c in it: text.chars()
            invariant
                all == text@,
                it.seq() == all,
                encode_utf8(all).len() <= usize::MAX,
                s@ == all.take(it.index() as int),
                chars@ == all.take(it.index() as int),
                offsets@.len() == it.index() + 1,
                off == spec_byte_offset(all, it.index() as int),
                forall|i: int|
                    0 <= i <= it.index() ==> #[trigger] offsets@[i] == spec_byte_offset(all, i),
        {
            let ghost i = it.index() as int;
            proof {
                lemma_offset_step(all, i);
                lemma_offsets_monotone(all, i + 1, all.len() as int);
                assert(all.take(all.len() as int) =~= all);
                assert(all.take(i + 1) =~= all.take(i).push(c));
            }
            let w = utf8_width(c);
            off = off + w;
            string_push(&mut s, c);
            chars.push(c);
            offsets.push(off);
        }
        proof {
            assert(all.take(all.len() as int) =~= all);
        }
        InputBuffer { original: s, chars, offsets }
    }

    /// The text.
    pub fn original(&self) -> (r: &str)
        ensures
            r@ == self.spec_text(),
    {
        self.original.as_str()
    }

    /// The text the analysis works on; the same as the original text.
    pub fn current(&self) -> (r: &str)
        ensures
            r@ == self.spec_text(),
    {
        self.original.as_str()
    }

    /// The characters of the text.
    pub fn current_chars(&self) -> (r: &[char])
        requires
            self.wf(),
        ensures
            r@ == self.spec_text(),
    {
        self.chars.as_slice()
    }

    /// Byte offsets of the character boundaries, the end of the text included.
    pub fn curr_byte_offsets(&self) -> (r: &[usize])
        requires
            self.wf(),
        ensures
            r@.len() == self.spec_text().len() + 1,
            forall|i: int|
                0 <= i <= self.spec_text().len() ==> #[trigger] r@[i] == spec_byte_offset(
                    self.spec_text(),
                    i,
                ),
    {
        self.offsets.as_slice()
    }

    /// Byte offset of character boundary `c`.
    pub fn to_curr_byte_idx(&self, c: usize) -> (r: usize)
        requires
            self.wf(),
            c <= self.spec_text().len(),
        ensures
            r == spec_byte_offset(self.spec_text(), c as int),
    {
        self.offsets[c]
    }

    /// Byte offset of character boundary `c` in the original text.
    pub fn to_orig_byte_idx(&self, c: usize) -> (r: usize)
        requires
            self.wf(),
            c <= self.spec_text().len(),
        ensures
            r == spec_byte_offset(self.spec_text(), c as int),
    {
        self.offsets[c]
    }

    /// Character boundary `c` in the original text.
    pub fn to_orig_char_idx(&self, c: usize) -> (r: usize)
        ensures
            r == c,
    {
        c
    }

    /// The character boundary at byte offset `byte`, or `None` when `byte`
    /// is not a boundary.
    pub fn ch_idx(&self, byte: usize) -> (r: Option<usize>)
        requires
            self.wf(),
        ensures
            match r {
                Some(c) => c <= self.spec_text().len() && spec_byte_offset(self.spec_text(), c as int)
                    == byte,
                None => forall|c: int|
                    0 <= c <= self.spec_text().len() ==> spec_byte_offset(self.spec_text(), c) != byte,
            },
    {
        let n = self.offsets.len();
        let mut lo: usize = 0;
        let mut hi: usize = n;
        while lo < hi
            invariant
                self.wf(),
                n == self.offsets@.len(),
                0 <= lo <= hi <= n,
                forall|c: int| 0 <= c < lo ==> #[trigger] self.offsets@[c] < byte,
                forall|c: int| hi <= c < n ==> #[trigger] self.offsets@[c] > byte,
            decreases hi - lo,
        {
            let mid = lo + (hi - lo) / 2;
            let v = self.offsets[mid];
            if v == byte {
                return Some(mid);
            } else if v < byte {
                proof {
                    assert forall|c: int| 0 <= c <= mid implies #[trigger] self.offsets@[c] < byte by {
                        lemma_offsets_monotone(self.chars@, c, mid as int);
                    }
                }
                lo = mid + 1;
            } else {
                proof {
                    assert forall|c: int| mid <= c < n implies #[trigger] self.offsets@[c] > byte by {
                        lemma_offsets_monotone(self.chars@, mid as int, c);
                    }
                }
                hi = mid;
            }
        }
        proof {
            assert forall|c: int| 0 <= c <= self.spec_text().len() implies spec_byte_offset(
                self.spec_text(),
                c,
            ) != byte by {
                assert(self.offsets@[c] == spec_byte_offset(self.chars@, c));
            }
        }
        None
    }

    /// The characters of boundaries `begin..end`, as a string.
    pub fn curr_slice_c(&self, begin: usize, end: usize) -> (r: String)
        requires
            self.wf(),
            begin <= end <= self.spec_text().len(),
        ensures
            r@ == self.spec_text().subrange(begin as int, end as int),
    {
        let mut s = String::new();
        let mut i = begin;
        while i < end
            invariant
                self.wf(),
                begin <= i <= end <= self.chars@.len(),
                s@ == self.chars@.subrange(begin as int, i as int),
            decreases end - i,
        {
            string_push(&mut s, self.chars[i]);
            proof {
                assert(self.chars@.subrange(begin as int, i + 1) =~= self.chars@.subrange(
                    begin as int,
                    i as int,
                ).push(self.chars@[i as int]));
            }
            i = i + 1;
        }
        s
    }
}

} // verus!
