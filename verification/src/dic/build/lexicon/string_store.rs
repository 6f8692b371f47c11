//! Compacted storage of the strings of a lexicon. Each string is placed once
//! in a buffer of UTF-16 code units, at an offset aligned as its pointer
//! requires, and a string that occurs inside one already placed points into
//! it instead of being placed again.

use vstd::prelude::*;

use crate::dic::build::error::{BuildFailure, DicBuildError};
use crate::dic::build::primitives::{str_eq, utf16_len};
use crate::dic::lexicon::strings::{spec_is_valid, StringPointer, MAX_LENGTH};
use vstd::string::StringExecFns;
use crate::dic::build::lexicon::entry::{spec_headword_of, ResolvedLexiconEntry};
use crate::dic::lexicon::strings::{
    lemma_decode_encode, spec_compacted_string, spec_decode, spec_encode,
};
use crate::dic::read::{spec_utf16_bytes, spec_utf16_encode, spec_utf16_of_char};
use crate::error::{SudachiError, SudachiResult};

verus! {

/// Largest offset, in code units, that an encoded pointer keeps.
pub const MAX_OFFSET: usize = 0x0800_0000;

/// Room kept below [`MAX_OFFSET`] for one more string and its padding.
pub const PLACEMENT_ROOM: usize = 0x2000;

/// A run of unused code units inside the buffer, left by alignment padding.
#[derive(Clone, Copy)]
struct FreeSpace {
    start: usize,
    length: usize,
}

/// The code units a free space covers, as a half-open range.
spec fn span(f: FreeSpace) -> (int, int) {
    (f.start as int, f.start + f.length)
}

/// Whether two half-open ranges share no position.
pub open spec fn disjoint(a: (int, int), b: (int, int)) -> bool {
    a.1 <= b.0 || b.1 <= a.0
}

/// Whether `offset` is aligned as a string whose alignment value is `a` requires.
pub open spec fn spec_aligned(offset: u32, a: u32) -> bool {
    a == 0 || offset & (((1u32 << ((a - 1) as u32)) - 1u32) as u32) == 0
}

/// Distance between two offsets aligned for the alignment value `a`.
pub open spec fn spec_step(a: u32) -> int {
    if a == 0 {
        1
    } else {
        (1u32 << ((a - 1) as u32)) as int
    }
}

/// Placement of strings in a buffer of code units: a pointer past the used
/// area and the free spaces that padding left inside it, ordered by length
/// and then by start.
struct StringLayout {
    buffer: Vec<u16>,
    free: Vec<FreeSpace>,
    pointer: usize,
    max_len: isize,
    live: Ghost<Seq<(int, int)>>,
}

proof fn lemma_align_bits(x: u32, r: u32)
    by (bit_vector)
    requires
        r <= 11,
        x < 0x1000_0000,
    ensures
        (x & !(((1u32 << r) - 1u32) as u32)) & (((1u32 << r) - 1u32) as u32) == 0,
        (((x & !(((1u32 << r) - 1u32) as u32)) + (1u32 << r)) as u32) & (((1u32 << r) - 1u32) as u32)
            == 0,
        (x & !(((1u32 << r) - 1u32) as u32)) + (1u32 << r) < 0x1000_0000 + 2048,
        x == (x & !(((1u32 << r) - 1u32) as u32)) + (x & (((1u32 << r) - 1u32) as u32)),
        x & (((1u32 << r) - 1u32) as u32) <= ((1u32 << r) - 1u32) as u32,
        1 <= (1u32 << r) <= 2048,
        ((1u32 << r) - 1u32) as u32 + 1 == (1u32 << r),
{
}

/// Whether `len` code units fit between `start` and `end` at an offset
/// aligned for the alignment value `alignment`.
pub open spec fn spec_can_place(len: int, alignment: u32, start: int, end: int) -> bool {
    exists|a: int| start <= a < 0x1_0000_0000 && a + len <= end && #[trigger] spec_aligned(a as u32, alignment)
}

/// Two distinct multiples of `2^r` are at least `2^r` apart.
proof fn lemma_aligned_gap(x: u32, y: u32, r: u32)
    by (bit_vector)
    requires
        r <= 11,
        x & (((1u32 << r) - 1u32) as u32) == 0,
        y & (((1u32 << r) - 1u32) as u32) == 0,
        x < y,
    ensures
        x + (1u32 << r) <= y,
{
}

/// The first offset from `start` on that is aligned for the alignment value
/// `alignment`, when a string of `len` code units placed there ends by `end`.
fn aligned_start(len: usize, alignment: u32, start: usize, end: usize) -> (r: Option<usize>)
    requires
        len >= 1,
        alignment <= 12,
        start < 0x1000_0000,
    ensures
        r matches Some(a) ==> start <= a && a + len <= end && a < start + spec_step(alignment)
            && a < 0x1000_0000 + 2048 && spec_aligned(a as u32, alignment),
        end >= start + len + spec_step(alignment) ==> r is Some,
        r is Some <==> spec_can_place(len as int, alignment, start as int, end as int),
{
    let r: u32 = if alignment == 0 {
        0
    } else {
        alignment - 1
    };
    let x = start as u32;
    proof {
        lemma_align_bits(x, r);
    }
    let step: u32 = 1u32 << r;
    let mask: u32 = step - 1;
    let mut a: u32 = x & !mask;
    let is_aligned = a == x;
    proof {
        assert((1u32 << 0u32) == 1u32) by (bit_vector);
        assert(spec_step(alignment) == step as int);
        assert(x == a + (x & mask));
        assert(x & mask <= mask);
    }
    if !is_aligned {
        a = a + step;
    }
    proof {
        assert(a >= x);
        assert(a < x + step);
        if alignment > 0 {
            assert(a & mask == 0);
            assert(r == (alignment - 1) as u32);
            assert(mask == ((1u32 << ((alignment - 1) as u32)) - 1u32) as u32);
        }
        assert(spec_aligned(a, alignment));
        assert(a < 0x1000_0000 + 2048);
    }
    let a32 = a;
    let a = a as usize;
    assert(a as u32 == a32);
    let available = if end >= a {
        end - a
    } else {
        0
    };
    if available < len {
        proof {
            assert forall|b: int|
                start <= b < 0x1_0000_0000 && b + len <= end implies !#[trigger] spec_aligned(
                b as u32,
                alignment,
            ) by {
                if spec_aligned(b as u32, alignment) && alignment > 0 && b < a32 {
                    assert(r == (alignment - 1) as u32);
                    lemma_aligned_gap(b as u32, a32, r);
                }
            }
        }
        return None;
    }
    proof {
        if alignment > 0 {
            assert(r == (alignment - 1) as u32);
        }
        assert(spec_aligned(a as u32, alignment));
    }
    Some(a)
}

/// Largest power of two not above `v`.
spec fn spec_high_pow2(v: nat) -> nat
    decreases v,
{
    if v < 2 {
        1
    } else {
        2 * spec_high_pow2(v / 2)
    }
}

fn high_pow2(v: usize) -> (r: usize)
    requires
        v >= 1,
    ensures
        r == spec_high_pow2(v as nat),
        1 <= r <= v,
    decreases v,
{
    if v < 2 {
        1
    } else {
        2 * high_pow2(v / 2)
    }
}

/// Longest string that a free space of `length` code units may hold,
/// whatever its alignment.
spec fn spec_available_max_len(length: nat) -> nat {
    if length <= 20 {
        length
    } else {
        let c = spec_high_pow2((length - 20) as nat) + 20;
        if c < 20 {
            20
        } else {
            c
        }
    }
}

fn available_max_len(length: usize) -> (r: usize)
    ensures
        r == spec_available_max_len(length as nat),
        r <= length,
{
    if length <= 20 {
        length
    } else {
        let c = high_pow2(length - 20) + 20;
        if c < 20 {
            20
        } else {
            c
        }
    }
}

/// The longest string any of `free` may hold, or -1 when it is empty.
spec fn spec_max_available(free: Seq<FreeSpace>) -> int
    decreases free.len(),
{
    if free.len() == 0 {
        -1
    } else {
        let rest = spec_max_available(free.drop_last());
        let a = spec_available_max_len(free.last().length as nat) as int;
        if a > rest {
            a
        } else {
            rest
        }
    }
}

/// Whether the free space `fs` can hold `len` code units aligned for the
/// alignment value `alignment`.
spec fn spec_fits(fs: FreeSpace, len: int, alignment: u32) -> bool {
    fs.length >= len && spec_can_place(len, alignment, fs.start as int, fs.start + fs.length)
}

/// Length up to which free spaces are searched, given the longest one
/// may hold.
spec fn spec_search_limit(max_len: isize) -> int {
    if max_len > 0 {
        max_len as int
    } else {
        0
    }
}

/// Whether `a` comes before `b` in the order of free spaces: by length, then by start.
spec fn spec_free_before(a: FreeSpace, b: FreeSpace) -> bool {
    a.length < b.length || (a.length == b.length && a.start < b.start)
}

/// Inserts `f` before the first free space that does not come before it.
fn insert_free(free: &mut Vec<FreeSpace>, f: FreeSpace) -> (r: usize)
    ensures
        r <= old(free)@.len(),
        final(free)@ == old(free)@.insert(r as int, f),
{
    let mut i: usize = 0;
    while i < free.len() && spec_free_before_exec(free[i], f)
        invariant
            i <= free@.len(),
            free@ == old(free)@,
        decreases free@.len() - i,
    {
        i = i + 1;
    }
    free.insert(i, f);
    i
}

fn spec_free_before_exec(a: FreeSpace, b: FreeSpace) -> (r: bool)
    ensures
        r == spec_free_before(a, b),
{
    a.length < b.length || (a.length == b.length && a.start < b.start)
}

/// UTF-16 code units of `s`.
pub fn encode_utf16(s: &str) -> (r: Vec<u16>)
    ensures
        r@ == spec_utf16_encode(s@),
{
    let mut out: Vec<u16> = Vec::new();
    let ghost all = s@;
    proof {
        assert(all.take(0) =~= Seq::<char>::empty());
        assert(spec_utf16_encode(Seq::<char>::empty()) =~= Seq::<u16>::empty());
    }
    for c in it: s.chars()
        invariant
            it.seq() == all,
            all == s@,
            out@ == spec_utf16_encode(all.take(it.index() as int)),
    {
        let ghost i = it.index() as int;
        proof {
            assert(all[i] == c);
            assert(all.take(i + 1) =~= all.take(i).push(c));
            crate::dic::build::primitives::lemma_utf16_encode_push(all.take(i), c);
        }
        let v = c as u32;
        if v < 0x10000 {
            out.push(v as u16);
            proof {
                assert(out@ =~= spec_utf16_encode(all.take(i)) + spec_utf16_of_char(v));
            }
        } else {
            let hi = (0xD800 + (v - 0x10000) / 1024) as u16;
            let lo = (0xDC00 + (v - 0x10000) % 1024) as u16;
            out.push(hi);
            out.push(lo);
            proof {
                assert(out@ =~= spec_utf16_encode(all.take(i)) + spec_utf16_of_char(v));
            }
        }
    }
    proof {
        assert(all.take(all.len() as int) =~= all);
    }
    out
}

impl StringLayout {
    /// Free spaces lie in the used area, apart from each other and from the
    /// strings placed, and the placed strings lie in the buffer.
    spec fn wf(&self) -> bool {
        &&& self.pointer <= MAX_OFFSET
        &&& self.buffer@.len() <= self.pointer
        &&& -1 <= self.max_len <= MAX_OFFSET
        &&& forall|i: int|
            0 <= i < self.free@.len() ==> (#[trigger] self.free@[i]).length > 0
                && self.free@[i].start + self.free@[i].length <= self.pointer
        &&& forall|i: int, j: int|
            0 <= i < self.free@.len() && 0 <= j < self.free@.len() && i != j ==> disjoint(
                span(#[trigger] self.free@[i]),
                span(#[trigger] self.free@[j]),
            )
        &&& forall|i: int, k: int|
            0 <= i < self.free@.len() && 0 <= k < self.live@.len() ==> disjoint(
                span(#[trigger] self.free@[i]),
                #[trigger] self.live@[k],
            )
        &&& forall|k: int|
            0 <= k < self.live@.len() ==> 0 <= (#[trigger] self.live@[k]).0 <= self.live@[k].1
                <= self.buffer@.len()
    }

    fn new() -> (r: StringLayout)
        ensures
            r.wf(),
            r.buffer@.len() == 0,
            r.live@.len() == 0,
    {
        StringLayout {
            buffer: Vec::new(),
            free: Vec::new(),
            pointer: 0,
            max_len: -1,
            live: Ghost(Seq::empty()),
        }
    }

    /// Sets the longest string a free space may hold to the largest over
    /// all free spaces, or -1 when there is none.
    fn recompute_max_len(&mut self)
        requires
            old(self).wf(),
        ensures
            final(self).wf(),
            final(self).max_len == spec_max_available(old(self).free@),
            final(self).buffer == old(self).buffer,
            final(self).free == old(self).free,
            final(self).pointer == old(self).pointer,
            final(self).live == old(self).live,
    {
        let mut m: isize = -1;
        let mut i: usize = 0;
        while i < self.free.len()
            invariant
                self.wf(),
                i <= self.free@.len(),
                -1 <= m <= MAX_OFFSET,
                m == spec_max_available(self.free@.take(i as int)),
                self.buffer == old(self).buffer,
                self.free == old(self).free,
                self.pointer == old(self).pointer,
                self.live == old(self).live,
            decreases self.free@.len() - i,
        {
            let a = available_max_len(self.free[i].length);
            proof {
                assert(self.free@.take(i + 1).drop_last() =~= self.free@.take(i as int));
            }
            if a as isize > m {
                m = a as isize;
            }
            i = i + 1;
        }
        proof {
            assert(self.free@.take(i as int) =~= self.free@);
        }
        self.max_len = m;
    }

    /// Marks `[start, start + length)` free, a range of the used area apart
    /// from every free space and every placed string.
    fn add_free(&mut self, start: usize, length: usize)
        requires
            old(self).wf(),
            length > 0,
            start + length <= old(self).pointer,
            forall|i: int|
                0 <= i < old(self).free@.len() ==> disjoint(
                    span(#[trigger] old(self).free@[i]),
                    (start as int, start + length),
                ),
            forall|k: int|
                0 <= k < old(self).live@.len() ==> disjoint(
                    (start as int, start + length),
                    #[trigger] old(self).live@[k],
                ),
        ensures
            final(self).wf(),
            final(self).buffer == old(self).buffer,
            final(self).pointer == old(self).pointer,
            final(self).live == old(self).live,
            final(self).max_len == old(self).max_len,
            exists|pos: int|
                0 <= pos <= old(self).free@.len() && final(self).free@ == old(self).free@.insert(
                    pos,
                    FreeSpace { start, length },
                ),
            forall|i: int|
                0 <= i < final(self).free@.len() ==> #[trigger] final(self).free@[i] == (FreeSpace {
                    start,
                    length,
                }) || old(self).free@.contains(final(self).free@[i]),
    {
        let f = FreeSpace { start, length };
        let ghost old_free = self.free@;
        let pos = insert_free(&mut self.free, f);
        proof {
            let nf = self.free@;
            assert forall|i: int| 0 <= i < nf.len() implies (nf[i] == if i < pos {
                old_free[i]
            } else if i == pos {
                f
            } else {
                old_free[i - 1]
            }) by {}
            assert forall|i: int, j: int|
                0 <= i < nf.len() && 0 <= j < nf.len() && i != j implies disjoint(
                span(#[trigger] nf[i]),
                span(#[trigger] nf[j]),
            ) by {
                if i < pos {
                    assert(nf[i] == old_free[i]);
                } else if i > pos {
                    assert(nf[i] == old_free[i - 1]);
                }
                if j < pos {
                    assert(nf[j] == old_free[j]);
                } else if j > pos {
                    assert(nf[j] == old_free[j - 1]);
                }
            }
            assert forall|i: int, k: int|
                0 <= i < nf.len() && 0 <= k < self.live@.len() implies disjoint(
                span(#[trigger] nf[i]),
                #[trigger] self.live@[k],
            ) by {
                if i < pos {
                    assert(nf[i] == old_free[i]);
                } else if i > pos {
                    assert(nf[i] == old_free[i - 1]);
                }
            }
            assert forall|i: int| 0 <= i < nf.len() implies (#[trigger] nf[i]).length > 0
                && nf[i].start + nf[i].length <= self.pointer by {
                if i < pos {
                    assert(nf[i] == old_free[i]);
                } else if i > pos {
                    assert(nf[i] == old_free[i - 1]);
                }
            }
            assert forall|i: int| 0 <= i < nf.len() implies #[trigger] nf[i] == f
                || old_free.contains(nf[i]) by {
                if i < pos {
                    assert(nf[i] == old_free[i]);
                } else if i > pos {
                    assert(nf[i] == old_free[i - 1]);
                }
            }
        }
    }
}

/// Whether no free space of `free` shares a position with `range`.
spec fn free_apart(free: Seq<FreeSpace>, range: (int, int)) -> bool {
    forall|i: int| 0 <= i < free.len() ==> disjoint(span(#[trigger] free[i]), range)
}

impl StringLayout {
    /// Forgets the `i`-th free space.
    fn remove_free(&mut self, i: usize)
        requires
            old(self).wf(),
            i < old(self).free@.len(),
        ensures
            final(self).wf(),
            final(self).free@ == old(self).free@.remove(i as int),
            final(self).buffer == old(self).buffer,
            final(self).pointer == old(self).pointer,
            final(self).live == old(self).live,
            final(self).max_len == old(self).max_len,
    {
        let ghost old_free = self.free@;
        self.free.remove(i);
        proof {
            let nf = self.free@;
            assert forall|k: int| 0 <= k < nf.len() implies nf[k] == old_free[if k < i {
                k
            } else {
                k + 1
            }] by {}
            assert forall|a: int, b: int|
                0 <= a < nf.len() && 0 <= b < nf.len() && a != b implies disjoint(
                span(#[trigger] nf[a]),
                span(#[trigger] nf[b]),
            ) by {
                let a2 = if a < i {
                    a
                } else {
                    a + 1
                };
                let b2 = if b < i {
                    b
                } else {
                    b + 1
                };
                assert(nf[a] == old_free[a2]);
                assert(nf[b] == old_free[b2]);
            }
            assert forall|a: int, k: int|
                0 <= a < nf.len() && 0 <= k < self.live@.len() implies disjoint(
                span(#[trigger] nf[a]),
                #[trigger] self.live@[k],
            ) by {
                let a2 = if a < i {
                    a
                } else {
                    a + 1
                };
                assert(nf[a] == old_free[a2]);
            }
            assert forall|a: int| 0 <= a < nf.len() implies (#[trigger] nf[a]).length > 0
                && nf[a].start + nf[a].length <= self.pointer by {
                let a2 = if a < i {
                    a
                } else {
                    a + 1
                };
                assert(nf[a] == old_free[a2]);
            }
        }
    }

    /// Finds where to place `len` code units whose offset must be aligned
    /// for the alignment value `alignment`: in the first free space, in
    /// order, that can hold them when one may, else past the used area.
    /// Padding left before the place becomes free.
    fn allocate(&mut self, len: usize, alignment: u32) -> (r: usize)
        requires
            old(self).wf(),
            1 <= len <= MAX_LENGTH,
            alignment <= 12,
            old(self).pointer + PLACEMENT_ROOM <= MAX_OFFSET,
        ensures
            final(self).wf(),
            final(self).buffer == old(self).buffer,
            final(self).live == old(self).live,
            old(self).pointer <= final(self).pointer <= old(self).pointer + len + 2048,
            r + len <= final(self).pointer,
            spec_aligned(r as u32, alignment),
            free_apart(final(self).free@, (r as int, r + len)),
            forall|k: int|
                0 <= k < old(self).live@.len() ==> disjoint(
                    (r as int, r + len),
                    #[trigger] old(self).live@[k],
                ),
            forall|i: int|
                0 <= i < old(self).free@.len() && len <= spec_search_limit(old(self).max_len)
                    && spec_fits(#[trigger] old(self).free@[i], len as int, alignment) && (forall|j: int|
                    0 <= j < i ==> !spec_fits(old(self).free@[j], len as int, alignment)) ==> old(
                    self,
                ).free@[i].start <= r && r + len <= old(self).free@[i].start + old(self).free@[i].length,
            (len > spec_search_limit(old(self).max_len) || forall|i: int|
                0 <= i < old(self).free@.len() ==> !spec_fits(#[trigger] old(self).free@[i], len as int, alignment))
                ==> old(self).pointer <= r,
    {
        let limit: isize = if self.max_len > 0 {
            self.max_len
        } else {
            0
        };
        if (len as isize) <= limit {
            let mut i: usize = 0;
            while i < self.free.len()
                invariant
                    self.wf(),
                    self.buffer == old(self).buffer,
                    self.live == old(self).live,
                    self.pointer == old(self).pointer,
                    self.pointer + PLACEMENT_ROOM <= MAX_OFFSET,
                    1 <= len <= MAX_LENGTH,
                    alignment <= 12,
                    i <= self.free@.len(),
                    self.free@ == old(self).free@,
                    self.max_len == old(self).max_len,
                    limit == spec_search_limit(old(self).max_len),
                    len <= limit,
                    forall|j: int| 0 <= j < i ==> !spec_fits(#[trigger] old(self).free@[j], len as int, alignment),
                decreases self.free@.len() - i,
            {
                let fs = self.free[i];
                let mut placed: Option<usize> = None;
                if fs.length >= len {
                    placed = aligned_start(len, alignment, fs.start, fs.start + fs.length);
                }
                match placed {
                    None => {
                        proof {
                            assert(!spec_fits(old(self).free@[i as int], len as int, alignment));
                        }
                        i = i + 1;
                    },
                    Some(start) => {
                        let end = fs.start + fs.length;
                        let remaining = end - start - len;
                        let ghost old_free = self.free@;
                        proof {
                            assert(spec_fits(old(self).free@[i as int], len as int, alignment));
                            assert forall|i2: int|
                                0 <= i2 < old(self).free@.len() && spec_fits(
                                    #[trigger] old(self).free@[i2],
                                    len as int,
                                    alignment,
                                ) && (forall|j: int|
                                    0 <= j < i2 ==> !spec_fits(old(self).free@[j], len as int, alignment))
                                    implies i2 == i by {
                                if i2 > i {
                                    assert(!spec_fits(old(self).free@[i as int], len as int, alignment));
                                }
                            }
                            assert(old_free[i as int] == fs);
                            assert forall|j: int| 0 <= j < old_free.len() && j != i implies disjoint(
                                span(#[trigger] old_free[j]),
                                span(fs),
                            ) by {}
                        }
                        self.remove_free(i);
                        let ghost after_remove = self.free@;
                        proof {
                            assert forall|k: int| 0 <= k < after_remove.len() implies disjoint(
                                span(#[trigger] after_remove[k]),
                                span(fs),
                            ) by {
                                let k2 = if k < i {
                                    k
                                } else {
                                    k + 1
                                };
                                assert(after_remove[k] == old_free[k2]);
                            }
                        }
                        if remaining > 0 {
                            self.add_free(start + len, remaining);
                        }
                        let ghost after_rest = self.free@;
                        proof {
                            assert forall|k: int| 0 <= k < after_rest.len() implies disjoint(
                                span(#[trigger] after_rest[k]),
                                (fs.start as int, start as int),
                            ) && disjoint(span(after_rest[k]), (start as int, start + len)) by {
                                if remaining > 0 {
                                    if after_rest[k] != (FreeSpace { start: (start + len) as usize, length: remaining }) {
                                        let j = choose|j: int|
                                            0 <= j < after_remove.len() && after_rest[k]
                                                == after_remove[j];
                                        assert(disjoint(span(after_remove[j]), span(fs)));
                                    }
                                } else {
                                    assert(disjoint(span(after_remove[k]), span(fs)));
                                }
                            }
                        }
                        if start != fs.start {
                            self.add_free(fs.start, start - fs.start);
                            let a = available_max_len(start - fs.start);
                            if a as isize > self.max_len {
                                self.max_len = a as isize;
                            }
                        }
                        proof {
                            let fin = self.free@;
                            assert forall|k: int| 0 <= k < fin.len() implies disjoint(
                                span(#[trigger] fin[k]),
                                (start as int, start + len),
                            ) by {
                                if start != fs.start {
                                    if fin[k] != (FreeSpace { start: fs.start, length: (start - fs.start) as usize }) {
                                        let j = choose|j: int|
                                            0 <= j < after_rest.len() && fin[k] == after_rest[j];
                                        assert(disjoint(span(after_rest[j]), (start as int, start + len)));
                                    }
                                } else {
                                    assert(disjoint(span(after_rest[k]), (start as int, start + len)));
                                }
                            }
                            assert forall|k: int| 0 <= k < old(self).live@.len() implies disjoint(
                                (start as int, start + len),
                                #[trigger] old(self).live@[k],
                            ) by {
                                assert(disjoint(span(old_free[i as int]), self.live@[k]));
                            }
                        }
                        self.recompute_max_len();
                        return start;
                    },
                }
            }
            self.max_len = if self.max_len - 1 > 0 {
                self.max_len - 1
            } else {
                0
            };
        }
        let p = self.pointer;
        proof {
            lemma_step_bound(alignment);
        }
        let placed = aligned_start(len, alignment, p, usize::MAX);
        let aligned = match placed {
            Some(a) => a,
            None => p,
        };
        proof {
            assert(placed is Some);
            lemma_step_bound(alignment);
        }
        if aligned != p {
            let ghost before = self.free@;
            self.pointer = aligned + len;
            self.add_free(p, aligned - p);
            let a = available_max_len(aligned - p);
            if a as isize > self.max_len {
                self.max_len = a as isize;
            }
            proof {
                let fin = self.free@;
                assert forall|k: int| 0 <= k < fin.len() implies disjoint(
                    span(#[trigger] fin[k]),
                    (aligned as int, aligned + len),
                ) by {
                    if fin[k] != (FreeSpace { start: p, length: (aligned - p) as usize }) {
                        let j = choose|j: int| 0 <= j < before.len() && fin[k] == before[j];
                        assert(span(before[j]).1 <= p);
                    }
                }
            }
        } else {
            self.pointer = aligned + len;
        }
        aligned
    }
}

proof fn lemma_step_bound(alignment: u32)
    requires
        alignment <= 12,
    ensures
        1 <= spec_step(alignment) <= 2048,
{
    if alignment > 0 {
        let r = (alignment - 1) as u32;
        assert(1 <= (1u32 << r) <= 2048) by (bit_vector)
            requires
                r <= 11,
        ;
    }
}

impl StringLayout {
    /// Writes `data` at `offset`, a range apart from every free space and
    /// every placed string, and records it as placed.
    fn put(&mut self, offset: usize, data: &Vec<u16>)
        requires
            old(self).wf(),
            offset + data@.len() <= old(self).pointer,
            free_apart(old(self).free@, (offset as int, offset + data@.len())),
            forall|k: int|
                0 <= k < old(self).live@.len() ==> disjoint(
                    (offset as int, offset + data@.len()),
                    #[trigger] old(self).live@[k],
                ),
        ensures
            final(self).wf(),
            final(self).free == old(self).free,
            final(self).pointer == old(self).pointer,
            final(self).max_len == old(self).max_len,
            final(self).live@ == old(self).live@.push((offset as int, offset + data@.len())),
            offset + data@.len() <= final(self).buffer@.len(),
            old(self).buffer@.len() <= final(self).buffer@.len(),
            final(self).buffer@.subrange(offset as int, offset + data@.len()) == data@,
            forall|x: int|
                0 <= x < old(self).buffer@.len() && !(offset <= x < offset + data@.len())
                    ==> #[trigger] final(self).buffer@[x] == old(self).buffer@[x],
    {
        let end = offset + data.len();
        while self.buffer.len() < end
            invariant
                end <= self.pointer,
                self.pointer == old(self).pointer,
                old(self).buffer@.len() <= self.buffer@.len() <= end || self.buffer@.len()
                    == old(self).buffer@.len(),
                self.buffer@.len() <= self.pointer,
                forall|x: int|
                    0 <= x < old(self).buffer@.len() ==> #[trigger] self.buffer@[x]
                        == old(self).buffer@[x],
                self.buffer@.len() >= old(self).buffer@.len(),
                self.free == old(self).free,
                self.live == old(self).live,
                self.max_len == old(self).max_len,
            decreases end - self.buffer@.len(),
        {
            self.buffer.push(0);
        }
        let mut k: usize = 0;
        while k < data.len()
            invariant
                end == offset + data@.len(),
                end <= self.buffer@.len(),
                self.buffer@.len() <= self.pointer,
                self.pointer == old(self).pointer,
                self.buffer@.len() >= old(self).buffer@.len(),
                k <= data@.len(),
                forall|m: int| 0 <= m < k ==> self.buffer@[offset + m] == #[trigger] data@[m],
                forall|x: int|
                    0 <= x < old(self).buffer@.len() && !(offset <= x < offset + data@.len())
                        ==> #[trigger] self.buffer@[x] == old(self).buffer@[x],
                self.free == old(self).free,
                self.live == old(self).live,
                self.max_len == old(self).max_len,
            decreases data@.len() - k,
        {
            self.buffer.set(offset + k, data[k]);
            k = k + 1;
        }
        proof {
            assert(self.buffer@.subrange(offset as int, end as int) =~= data@);
            self.live@ = self.live@.push((offset as int, offset + data@.len()));
            let lv = self.live@;
            assert forall|i: int, k: int|
                0 <= i < self.free@.len() && 0 <= k < lv.len() implies disjoint(
                span(#[trigger] self.free@[i]),
                #[trigger] lv[k],
            ) by {
                if k == lv.len() - 1 {
                    assert(disjoint(span(self.free@[i]), (offset as int, offset + data@.len())));
                } else {
                    assert(lv[k] == old(self).live@[k]);
                }
            }
            assert forall|k: int| 0 <= k < lv.len() implies 0 <= (#[trigger] lv[k]).0 <= lv[k].1
                <= self.buffer@.len() by {
                if k < lv.len() - 1 {
                    assert(lv[k] == old(self).live@[k]);
                }
            }
        }
    }

    /// Places `s`: finds room for its UTF-16 code units at an offset aligned
    /// as its pointer requires, writes them there and gives their pointer.
    /// An error when the string is longer than a pointer can address, or
    /// the used area reaches where a pointer could no longer address it.
    fn add(&mut self, s: &str) -> (r: SudachiResult<StringPointer>)
        requires
            old(self).wf(),
            spec_utf16_encode(s@).len() > 0,
        ensures
            r is Err <==> spec_utf16_encode(s@).len() > MAX_LENGTH || old(self).pointer
                + PLACEMENT_ROOM > MAX_OFFSET,
            r is Err ==> *final(self) == *old(self),
            r matches Err(e) ==> spec_utf16_encode(s@).len() > MAX_LENGTH || spec_is_room_error(e),
            r matches Ok(p) ==> {
                let n = spec_utf16_encode(s@).len();
                &&& final(self).wf()
                &&& p.length == n
                &&& spec_is_valid(p.length, p.offset)
                &&& p.offset + n <= final(self).buffer@.len()
                &&& p.offset + n < MAX_OFFSET
                &&& final(self).buffer@.subrange(p.offset as int, p.offset + n) == spec_utf16_encode(s@)
                &&& final(self).live@ == old(self).live@.push((p.offset as int, p.offset + n))
                &&& old(self).buffer@.len() <= final(self).buffer@.len()
                &&& forall|x: int|
                    0 <= x < old(self).buffer@.len() && !(p.offset <= x < p.offset + n)
                        ==> #[trigger] final(self).buffer@[x] == old(self).buffer@[x]
                &&& forall|k: int|
                    0 <= k < old(self).live@.len() ==> disjoint(
                        (p.offset as int, p.offset + n),
                        #[trigger] old(self).live@[k],
                    )
            },
    {
        let data = encode_utf16(s);
        let len = data.len();
        if len > MAX_LENGTH as usize {
            return Err(
                SudachiError::DictionaryCompilationError(
                    DicBuildError {
                        file: "<string store>".to_string(),
                        line: 0,
                        cause: BuildFailure::InvalidStringPointer {
                            length: len,
                            offset: self.pointer,
                            alignment: 0,
                        },
                    },
                ),
            );
        }
        let alignment = StringPointer::required_alignment(len as u32);
        if self.pointer > MAX_OFFSET - PLACEMENT_ROOM {
            return Err(
                SudachiError::DictionaryCompilationError(
                    DicBuildError {
                        file: "<string store>".to_string(),
                        line: 0,
                        cause: BuildFailure::InvalidStringPointer {
                            length: len,
                            offset: self.pointer,
                            alignment: alignment as usize,
                        },
                    },
                ),
            );
        }
        let offset = self.allocate(len, alignment);
        self.put(offset, &data);
        proof {
            assert((len as u32) as int == len);
        }
        Ok(StringPointer::unchecked(len as u32, offset as u32))
    }
}

/// Where a string of the store lies: the code units `start..end` of the
/// string placed at `root`.
#[derive(Clone, Copy)]
struct Item {
    root: StringPointer,
    start: u32,
    end: u32,
}

impl Item {
    spec fn lo(self) -> int {
        self.root.offset + self.start
    }

    spec fn hi(self) -> int {
        self.root.offset + self.end
    }

    /// The item of the empty string.
    fn empty() -> (r: Item)
        ensures
            r.lo() == 0 && r.hi() == 0 && r.start == 0 && r.end == 0,
            r.root.length == 0 && r.root.offset == 0,
    {
        Item { root: StringPointer::unchecked(0, 0), start: 0, end: 0 }
    }

    /// The pointer to the code units of the item.
    fn as_pointer(&self) -> (r: StringPointer)
        requires
            self.start <= self.end,
            self.hi() <= MAX_OFFSET,
        ensures
            r.length == self.end - self.start,
            r.offset == self.lo(),
    {
        StringPointer::unchecked(self.end - self.start, self.root.offset + self.start)
    }
}

/// Whether `item` designates the UTF-16 code units of `s` in `layout`: a
/// valid pointer to them, inside a placed string unless empty.
spec fn item_ok(layout: StringLayout, item: Item, s: Seq<char>) -> bool {
    &&& item.start <= item.end
    &&& item.hi() < MAX_OFFSET
    &&& spec_is_valid((item.end - item.start) as u32, item.lo() as u32)
    &&& item.hi() <= layout.buffer@.len()
    &&& layout.buffer@.subrange(item.lo(), item.hi()) == spec_utf16_encode(s)
    &&& (item.lo() == item.hi() || exists|k: int|
        0 <= k < layout.live@.len() && (#[trigger] layout.live@[k]).0 <= item.lo() && item.hi()
            <= layout.live@[k].1)
}

/// What placing a string of `n` code units at `off` keeps: the buffer
/// outside it, and the placed strings, now one more.
spec fn grows(a: StringLayout, b: StringLayout, off: int, n: int) -> bool {
    &&& a.buffer@.len() <= b.buffer@.len()
    &&& b.live@ == a.live@.push((off, off + n))
    &&& forall|x: int|
        0 <= x < a.buffer@.len() && !(off <= x < off + n) ==> #[trigger] b.buffer@[x]
            == a.buffer@[x]
    &&& forall|k: int| 0 <= k < a.live@.len() ==> disjoint((off, off + n), #[trigger] a.live@[k])
}

/// An item stays valid when another string is placed.
proof fn lemma_item_kept(a: StringLayout, b: StringLayout, off: int, n: int, item: Item, s: Seq<char>)
    requires
        grows(a, b, off, n),
        item_ok(a, item, s),
    ensures
        item_ok(b, item, s),
{
    if item.lo() != item.hi() {
        let k = choose|k: int|
            0 <= k < a.live@.len() && (#[trigger] a.live@[k]).0 <= item.lo() && item.hi()
                <= a.live@[k].1;
        assert(disjoint((off, off + n), a.live@[k]));
        assert(b.live@[k] == a.live@[k]);
        assert(b.buffer@.subrange(item.lo(), item.hi()) =~= a.buffer@.subrange(item.lo(), item.hi()));
    } else {
        assert(b.buffer@.subrange(item.lo(), item.hi()) =~= a.buffer@.subrange(item.lo(), item.hi()));
    }
}

/// The UTF-16 encoding of two sequences one after the other.
proof fn lemma_utf16_concat(a: Seq<char>, b: Seq<char>)
    ensures
        spec_utf16_encode(a + b) == spec_utf16_encode(a) + spec_utf16_encode(b),
    decreases b.len(),
{
    if b.len() == 0 {
        assert(a + b =~= a);
        assert(spec_utf16_encode(b) =~= Seq::<u16>::empty());
        assert(spec_utf16_encode(a) + Seq::<u16>::empty() =~= spec_utf16_encode(a));
    } else {
        let c = b.last();
        lemma_utf16_concat(a, b.drop_last());
        assert(a + b =~= (a + b.drop_last()).push(c));
        assert(b =~= b.drop_last().push(c));
        crate::dic::build::primitives::lemma_utf16_encode_push(a + b.drop_last(), c);
        crate::dic::build::primitives::lemma_utf16_encode_push(b.drop_last(), c);
        assert(spec_utf16_encode(a) + spec_utf16_encode(b) =~= spec_utf16_encode(a)
            + spec_utf16_encode(b.drop_last()) + spec_utf16_of_char(c as u32));
    }
}

/// Code units `b(i)..b(j)` of the encoding of `cs` encode `cs[i..j]`, where
/// `b(k)` is the length of the encoding of the first `k` characters.
proof fn lemma_utf16_slice(cs: Seq<char>, i: int, j: int)
    requires
        0 <= i <= j <= cs.len(),
    ensures
        spec_utf16_encode(cs.take(i)).len() <= spec_utf16_encode(cs.take(j)).len()
            <= spec_utf16_encode(cs).len(),
        spec_utf16_encode(cs).subrange(
            spec_utf16_encode(cs.take(i)).len() as int,
            spec_utf16_encode(cs.take(j)).len() as int,
        ) == spec_utf16_encode(cs.subrange(i, j)),
{
    assert(cs.take(j) =~= cs.take(i) + cs.subrange(i, j));
    assert(cs =~= cs.take(j) + cs.skip(j));
    lemma_utf16_concat(cs.take(i), cs.subrange(i, j));
    lemma_utf16_concat(cs.take(j), cs.skip(j));
    let e = spec_utf16_encode(cs);
    let pi = spec_utf16_encode(cs.take(i));
    let m = spec_utf16_encode(cs.subrange(i, j));
    assert(e.subrange(pi.len() as int, (pi.len() + m.len()) as int) =~= m);
}

/// Whether `e` is the error of a string that no longer fits where a pointer
/// can address it.
pub open spec fn spec_is_room_error(e: SudachiError) -> bool {
    e matches SudachiError::DictionaryCompilationError(d) && (d.cause matches BuildFailure::InvalidStringPointer {
        offset,
        ..
    } && offset + PLACEMENT_ROOM > MAX_OFFSET)
}

/// Whether every candidate designates the code units of its string, the
/// empty string first.
spec fn cands_ok(layout: StringLayout, cands: Seq<(String, Item)>) -> bool {
    &&& cands.len() > 0
    &&& cands[0].0@ == Seq::<char>::empty()
    &&& forall|i: int| 0 <= i < cands.len() ==> item_ok(layout, (#[trigger] cands[i]).1, cands[i].0@)
}

/// Position of the candidate for `s`, if there is one.
fn find_candidate(cands: &Vec<(String, Item)>, s: &str) -> (r: Option<usize>)
    ensures
        r matches Some(i) ==> i < cands@.len() && cands@[i as int].0@ == s@,
        r is None ==> forall|i: int| 0 <= i < cands@.len() ==> (#[trigger] cands@[i]).0@ != s@,
{
    let mut i: usize = 0;
    while i < cands.len()
        invariant
            i <= cands@.len(),
            forall|k: int| 0 <= k < i ==> (#[trigger] cands@[k]).0@ != s@,
        decreases cands@.len() - i,
    {
        if str_eq(cands[i].0.as_str(), s) {
            return Some(i);
        }
        i = i + 1;
    }
    None
}

/// Whether `s` is one of `keys`.
fn has_key(keys: &Vec<String>, s: &str) -> (r: bool)
    ensures
        r == exists|i: int| 0 <= i < keys@.len() && (#[trigger] keys@[i])@ == s@,
{
    let mut i: usize = 0;
    while i < keys.len()
        invariant
            i <= keys@.len(),
            forall|k: int| 0 <= k < i ==> (#[trigger] keys@[k])@ != s@,
        decreases keys@.len() - i,
    {
        if str_eq(keys[i].as_str(), s) {
            return true;
        }
        i = i + 1;
    }
    false
}

/// Length of the UTF-16 encoding of each prefix of `cs`.
fn utf16_boundaries(cs: &Vec<char>) -> (r: Vec<u32>)
    requires
        spec_utf16_encode(cs@).len() <= MAX_LENGTH,
    ensures
        r@.len() == cs@.len() + 1,
        forall|i: int| 0 <= i <= cs@.len() ==> #[trigger] r@[i] == spec_utf16_encode(cs@.take(i)).len(),
{
    let mut out: Vec<u32> = Vec::new();
    let mut n: u32 = 0;
    let mut i: usize = 0;
    proof {
        assert(cs@.take(0) =~= Seq::<char>::empty());
        assert(spec_utf16_encode(Seq::<char>::empty()) =~= Seq::<u16>::empty());
    }
    while i < cs.len()
        invariant
            i <= cs@.len(),
            spec_utf16_encode(cs@).len() <= MAX_LENGTH,
            out@.len() == i,
            n == spec_utf16_encode(cs@.take(i as int)).len(),
            forall|k: int| 0 <= k < i ==> #[trigger] out@[k] == spec_utf16_encode(cs@.take(k)).len(),
        decreases cs@.len() - i,
    {
        out.push(n);
        proof {
            assert(cs@.take(i + 1) =~= cs@.take(i as int).push(cs@[i as int]));
            crate::dic::build::primitives::lemma_utf16_encode_push(cs@.take(i as int), cs@[i as int]);
            lemma_utf16_slice(cs@, i + 1, i + 1);
        }
        if (cs[i] as u32) < 0x10000 {
            n = n + 1;
        } else {
            n = n + 2;
        }
        i = i + 1;
    }
    out.push(n);
    proof {
        assert forall|k: int| 0 <= k <= cs@.len() implies #[trigger] out@[k] == spec_utf16_encode(
            cs@.take(k),
        ).len() by {}
    }
    out
}

/// Whether `k` occurs in `s` at position `i`.
fn chars_match_at(s: &Vec<char>, i: usize, k: &Vec<char>) -> (r: bool)
    requires
        i + k@.len() <= s@.len(),
    ensures
        r == (s@.subrange(i as int, i + k@.len()) == k@),
{
    let mut t: usize = 0;
    let sl = s.len();
    while t < k.len()
        invariant
            sl == s@.len(),
            i + k@.len() <= s@.len(),
            t <= k@.len(),
            forall|u: int| 0 <= u < t ==> s@[i + u] == k@[u],
        decreases k@.len() - t,
    {
        if s[i + t] != k[t] {
            proof {
                assert(s@.subrange(i as int, i + k@.len())[t as int] != k@[t as int]);
            }
            return false;
        }
        t = t + 1;
    }
    proof {
        assert(s@.subrange(i as int, i + k@.len()) =~= k@);
    }
    true
}

/// The item of `s`: its candidate when there is one; else `s` is placed,
/// and every registered string inside it becomes a candidate, pointing at
/// its first place in `s` that a pointer can address.
fn process(
    layout: &mut StringLayout,
    cands: &mut Vec<(String, Item)>,
    keys: &Vec<String>,
    s: &str,
) -> (r: SudachiResult<Item>)
    requires
        old(layout).wf(),
        cands_ok(*old(layout), old(cands)@),
    ensures
        final(layout).wf(),
        cands_ok(*final(layout), final(cands)@),
        forall|item: Item, t: Seq<char>|
            item_ok(*old(layout), item, t) ==> #[trigger] item_ok(*final(layout), item, t),
        r matches Ok(item) ==> item_ok(*final(layout), item, s@),
        spec_utf16_encode(s@).len() > MAX_LENGTH ==> r is Err,
        r matches Err(e) ==> spec_utf16_encode(s@).len() > MAX_LENGTH || spec_is_room_error(e),
{
    match find_candidate(cands, s) {
        Some(i) => {
            let item = cands[i].1;
            proof {
                assert(item_ok(*layout, cands@[i as int].1, cands@[i as int].0@));
            }
            return Ok(item);
        },
        None => {},
    }
    proof {
        assert(cands@[0].0@ != s@);
        if s@.len() == 0 {
            assert(s@ =~= Seq::<char>::empty());
        }
        assert(s@.len() > 0);
        assert(s@ =~= Seq::<char>::empty().push(s@[0]) + s@.skip(1));
        crate::dic::build::primitives::lemma_utf16_encode_push(Seq::<char>::empty(), s@[0]);
        lemma_utf16_concat(Seq::<char>::empty().push(s@[0]), s@.skip(1));
    }
    let ghost before = *layout;
    let ptr = match layout.add(s) {
        Ok(p) => p,
        Err(e) => {
            return Err(e);
        },
    };
    let ghost n = spec_utf16_encode(s@).len() as int;
    proof {
        assert(grows(before, *layout, ptr.offset as int, n));
        assert forall|item: Item, t: Seq<char>| item_ok(before, item, t) implies #[trigger] item_ok(
            *layout,
            item,
            t,
        ) by {
            lemma_item_kept(before, *layout, ptr.offset as int, n, item, t);
        }
        assert forall|i: int| 0 <= i < cands@.len() implies item_ok(
            *layout,
            (#[trigger] cands@[i]).1,
            cands@[i].0@,
        ) by {
            assert(item_ok(before, cands@[i].1, cands@[i].0@));
        }
    }
    let full = Item { root: ptr, start: 0, end: ptr.length };
    proof {
        let k = layout.live@.len() - 1;
        assert(layout.live@[k] == (ptr.offset as int, ptr.offset + n));
        assert(full.lo() == full.root.offset);
        assert(item_ok(*layout, full, s@));
    }
    cands.push((String::from_str(s), full));
    let chars = crate::dic::build::parse::str_chars(s);
    let bounds = utf16_boundaries(&chars);
    let m = chars.len();
    proof {
        lemma_utf16_len_ge(s@);
    }
    let mut q: usize = 0;
    while q < keys.len()
        invariant
            layout.wf(),
            cands_ok(*layout, cands@),
            chars@ == s@,
            m == chars@.len(),
            m <= MAX_LENGTH,
            bounds@.len() == m + 1,
            forall|k: int| 0 <= k <= m ==> #[trigger] bounds@[k] == spec_utf16_encode(chars@.take(k)).len(),
            n == spec_utf16_encode(s@).len(),
            n <= MAX_LENGTH,
            item_ok(*layout, full, s@),
            full.root == ptr,
            full.start == 0,
            full.end == n,
            ptr.offset + n < MAX_OFFSET,
            q <= keys@.len(),
        decreases keys@.len() - q,
    {
        let key = keys[q].as_str();
        if find_candidate(cands, key).is_none() {
            let kc = crate::dic::build::parse::str_chars(key);
            let kl = kc.len();
            if 0 < kl && kl <= m {
                let mut i: usize = 0;
                while i <= m - kl
                    invariant
                        layout.wf(),
                        cands_ok(*layout, cands@),
                        chars@ == s@,
                        m == chars@.len(),
                        m <= MAX_LENGTH,
                        0 < kl <= m,
                        kc@ == key@,
                        kl == kc@.len(),
                        bounds@.len() == m + 1,
                        forall|k: int| 0 <= k <= m ==> #[trigger] bounds@[k] == spec_utf16_encode(chars@.take(k)).len(),
                        n == spec_utf16_encode(s@).len(),
                        n <= MAX_LENGTH,
                        item_ok(*layout, full, s@),
                        full.root == ptr,
                        full.start == 0,
                        full.end == n,
                        ptr.offset + n < MAX_OFFSET,
                        i <= m - kl + 1,
                    decreases m - kl + 1 - i,
                {
                    if chars_match_at(&chars, i, &kc) {
                        let j = i + kl;
                        proof {
                            lemma_utf16_slice(chars@, i as int, j as int);
                            assert(chars@.take(m as int) =~= chars@);
                        }
                        let start = bounds[i];
                        let end = bounds[j];
                        let sub_len = end - start;
                        let sub_offset = ptr.offset + start;
                        if StringPointer::checked(sub_len, sub_offset).is_ok() {
                            let cand = Item { root: ptr, start, end };
                            proof {
                                assert(layout.buffer@.subrange(cand.lo(), cand.hi()) =~= layout.buffer@.subrange(
                                    full.lo(),
                                    full.hi(),
                                ).subrange(start as int, end as int));
                                if cand.lo() != cand.hi() {
                                    let k = choose|k: int|
                                        0 <= k < layout.live@.len() && (#[trigger] layout.live@[k]).0
                                            <= full.lo() && full.hi() <= layout.live@[k].1;
                                    assert(layout.live@[k].0 <= cand.lo() && cand.hi() <= layout.live@[k].1);
                                }
                                assert(item_ok(*layout, cand, key@));
                            }
                            cands.push((String::from_str(key), cand));
                            break;
                        }
                    }
                    i = i + 1;
                }
            }
        }
        q = q + 1;
    }
    Ok(full)
}

/// A text has at least as many UTF-16 code units as characters.
proof fn lemma_utf16_len_ge(cs: Seq<char>)
    ensures
        spec_utf16_encode(cs).len() >= cs.len(),
    decreases cs.len(),
{
    if cs.len() > 0 {
        lemma_utf16_len_ge(cs.drop_last());
        assert(cs =~= cs.drop_last().push(cs.last()));
        crate::dic::build::primitives::lemma_utf16_encode_push(cs.drop_last(), cs.last());
    }
}

/// Storage of the strings of a lexicon: each string is registered, then
/// placed once, and resolves to a pointer to its UTF-16 code units.
pub struct StringStore {
    keys: Vec<String>,
    items: Vec<Option<Item>>,
    layout: StringLayout,
}

impl StringStore {
    /// The registered strings.
    pub closed spec fn spec_keys(&self) -> Seq<Seq<char>> {
        self.keys@.map_values(|k: String| k@)
    }

    /// The code units the store writes.
    pub closed spec fn spec_units(&self) -> Seq<u16> {
        self.layout.buffer@
    }

    /// Every registered string is placed and points at its code units.
    pub closed spec fn wf(&self) -> bool {
        &&& self.layout.wf()
        &&& self.items@.len() == self.keys@.len()
        &&& forall|i: int|
            0 <= i < self.keys@.len() ==> ((#[trigger] self.items@[i]) matches Some(item)
                && item_ok(self.layout, item, self.keys@[i]@))
    }
}

/// Whether `a` comes before `b` in character order.
pub open spec fn spec_chars_less(a: Seq<char>, b: Seq<char>) -> bool
    decreases a.len(),
{
    if a.len() == 0 {
        b.len() > 0
    } else if b.len() == 0 {
        false
    } else if (a[0] as u32) < (b[0] as u32) {
        true
    } else if (a[0] as u32) > (b[0] as u32) {
        false
    } else {
        spec_chars_less(a.skip(1), b.skip(1))
    }
}

/// Whether `a` comes before `b` in character order.
pub(crate) fn chars_less(a: &Vec<char>, b: &Vec<char>) -> (r: bool)
    ensures
        r == spec_chars_less(a@, b@),
{
    let mut k: usize = 0;
    proof {
        assert(a@.skip(0) =~= a@);
        assert(b@.skip(0) =~= b@);
    }
    while k < a.len() && k < b.len() && (a[k] as u32) == (b[k] as u32)
        invariant
            k <= a@.len(),
            k <= b@.len(),
            spec_chars_less(a@, b@) == spec_chars_less(a@.skip(k as int), b@.skip(k as int)),
        decreases a@.len() - k,
    {
        proof {
            assert(a@.skip(k as int).skip(1) =~= a@.skip(k + 1));
            assert(b@.skip(k as int).skip(1) =~= b@.skip(k + 1));
            assert(a@.skip(k as int)[0] == a@[k as int]);
            assert(b@.skip(k as int)[0] == b@[k as int]);
        }
        k = k + 1;
    }
    proof {
        if k < a@.len() {
            assert(a@.skip(k as int)[0] == a@[k as int]);
        }
        if k < b@.len() {
            assert(b@.skip(k as int)[0] == b@[k as int]);
        }
    }
    if k == a.len() {
        k < b.len()
    } else if k == b.len() {
        false
    } else {
        (a[k] as u32) < (b[k] as u32)
    }
}

/// Character order is a strict total order: no text comes before itself,
/// of two different texts exactly one comes first, and it is transitive.
pub proof fn lemma_chars_order(a: Seq<char>, b: Seq<char>, c: Seq<char>)
    ensures
        !spec_chars_less(a, a),
        a != b ==> (spec_chars_less(a, b) || spec_chars_less(b, a)),
        !(spec_chars_less(a, b) && spec_chars_less(b, a)),
        spec_chars_less(a, b) && spec_chars_less(b, c) ==> spec_chars_less(a, c),
    decreases a.len(),
{
    if a.len() > 0 {
        if b.len() > 0 && c.len() > 0 {
            lemma_chars_order(a.skip(1), b.skip(1), c.skip(1));
        } else if b.len() > 0 {
            lemma_chars_order(a.skip(1), b.skip(1), b.skip(1));
        } else {
            lemma_chars_order(a.skip(1), a.skip(1), a.skip(1));
        }
        if a != b && b.len() > 0 && a[0] == b[0] {
            assert(a.skip(1) != b.skip(1)) by {
                if a.skip(1) == b.skip(1) {
                    assert(a =~= seq![a[0]] + a.skip(1));
                    assert(b =~= seq![b[0]] + b.skip(1));
                }
            }
        }
        if a[0] as u32 == b[0] as u32 && b.len() > 0 {
            assert(a[0] == b[0]) by {
                vstd::utf8::char_u32_cast(a[0], a[0] as u32);
                vstd::utf8::char_u32_cast(b[0], b[0] as u32);
            }
        }
    } else {
        if b.len() == 0 {
            assert(a =~= b);
        }
    }
}

/// Whether a string of `la` code units, `a`, is placed before one of `lb`,
/// `b`: the longer first, then in character order.
fn key_before(la: usize, a: &Vec<char>, lb: usize, b: &Vec<char>) -> (r: bool)
    ensures
        r == (la > lb || (la == lb && spec_chars_less(a@, b@))),
{
    la > lb || (la == lb && chars_less(a, b))
}

/// A string a valid item points at is no longer than a pointer allows.
proof fn lemma_item_short(layout: StringLayout, item: Item, s: Seq<char>)
    requires
        item_ok(layout, item, s),
    ensures
        spec_utf16_encode(s).len() <= MAX_LENGTH,
{
}

impl StringStore {
    /// Registers `data`, once.
    fn register(&mut self, data: &str)
        requires
            old(self).items@.len() == old(self).keys@.len(),
            forall|k: int| 0 <= k < old(self).items@.len() ==> (#[trigger] old(self).items@[k]) is None,
        ensures
            final(self).items@.len() == final(self).keys@.len(),
            forall|k: int| 0 <= k < final(self).items@.len() ==> (#[trigger] final(self).items@[k]) is None,
            final(self).layout == old(self).layout,
            final(self).spec_keys() == old(self).spec_keys() || final(self).spec_keys() == old(
                self,
            ).spec_keys().push(data@),
            final(self).spec_keys().contains(data@),
    {
        if !has_key(&self.keys, data) {
            self.keys.push(String::from_str(data));
            self.items.push(None);
            proof {
                assert forall|k: int| 0 <= k < self.items@.len() implies (#[trigger] self.items@[k]) is None by {
                    if k < old(self).items@.len() {
                        assert(self.items@[k] == old(self).items@[k]);
                    }
                }
                assert(self.spec_keys() =~= old(self).spec_keys().push(data@));
                assert(self.spec_keys()[self.spec_keys().len() - 1] == data@);
            }
        } else {
            proof {
                let i = choose|i: int| 0 <= i < self.keys@.len() && (#[trigger] self.keys@[i])@ == data@;
                assert(self.spec_keys()[i] == data@);
            }
        }
    }

    /// Places every registered string, the longest first and those of one
    /// length in character order; a string inside one already placed points
    /// into it.
    fn compile(&mut self) -> (r: SudachiResult<()>)
        requires
            old(self).layout.wf(),
            old(self).items@.len() == old(self).keys@.len(),
            forall|k: int| 0 <= k < old(self).items@.len() ==> (#[trigger] old(self).items@[k]) is None,
        ensures
            final(self).keys == old(self).keys,
            r is Ok ==> final(self).wf(),
            r matches Err(e) ==> spec_is_room_error(e) || exists|i: int|
                0 <= i < old(self).keys@.len() && spec_utf16_encode(
                    (#[trigger] old(self).keys@[i])@,
                ).len() > MAX_LENGTH,
    {
        let n = self.keys.len();
        let mut lens: Vec<usize> = Vec::new();
        let mut chars: Vec<Vec<char>> = Vec::new();
        let mut i: usize = 0;
        while i < n
            invariant
                n == self.keys@.len(),
                i <= n,
                lens@.len() == i,
                chars@.len() == i,
            decreases n - i,
        {
            lens.push(utf16_len(self.keys[i].as_str()));
            chars.push(crate::dic::build::parse::str_chars(self.keys[i].as_str()));
            i = i + 1;
        }
        let mut order: Vec<usize> = Vec::new();
        i = 0;
        while i < n
            invariant
                n == self.keys@.len(),
                i <= n,
                lens@.len() == n,
                chars@.len() == n,
                order@.len() == i,
                forall|p: int| 0 <= p < order@.len() ==> #[trigger] order@[p] < i,
                forall|k: usize| k < i ==> #[trigger] order@.contains(k),
            decreases n - i,
        {
            let mut p: usize = 0;
            while p < order.len() && !key_before(
                lens[i],
                &chars[i],
                lens[order[p]],
                &chars[order[p]],
            )
                invariant
                    p <= order@.len(),
                    forall|q: int| 0 <= q < order@.len() ==> #[trigger] order@[q] < i,
                    i < n,
                    lens@.len() == n,
                    chars@.len() == n,
                decreases order@.len() - p,
            {
                p = p + 1;
            }
            let ghost before = order@;
            order.insert(p, i);
            proof {
                assert forall|q: int| 0 <= q < order@.len() implies #[trigger] order@[q] < i + 1 by {
                    if q < p {
                        assert(order@[q] == before[q]);
                    } else if q > p {
                        assert(order@[q] == before[q - 1]);
                    }
                }
                assert forall|k: usize| k < i + 1 implies #[trigger] order@.contains(k) by {
                    if k == i {
                        assert(order@[p as int] == i);
                    } else {
                        assert(before.contains(k));
                        let q = choose|q: int| 0 <= q < before.len() && before[q] == k;
                        if q < p {
                            assert(order@[q] == before[q]);
                        } else {
                            assert(order@[q + 1] == before[q]);
                        }
                    }
                }
            }
            i = i + 1;
        }
        let mut cands: Vec<(String, Item)> = Vec::new();
        cands.push((String::new(), Item::empty()));
        proof {
            assert(spec_utf16_encode(Seq::<char>::empty()) =~= Seq::<u16>::empty());
            assert(self.layout.buffer@.subrange(0, 0) =~= Seq::<u16>::empty());
            assert(cands@[0].0@ =~= Seq::<char>::empty());
            assert(item_ok(self.layout, cands@[0].1, cands@[0].0@));
        }
        let mut j: usize = 0;
        while j < n
            invariant
                n == self.keys@.len(),
                self.keys == old(self).keys,
                self.items@.len() == n,
                j <= n,
                order@.len() == n,
                forall|p: int| 0 <= p < order@.len() ==> #[trigger] order@[p] < n,
                forall|k: usize| k < n ==> #[trigger] order@.contains(k),
                self.layout.wf(),
                cands_ok(self.layout, cands@),
                forall|k: int|
                    0 <= k < n ==> ((#[trigger] self.items@[k]) matches Some(it) ==> item_ok(
                        self.layout,
                        it,
                        self.keys@[k]@,
                    )),
                forall|p: int| 0 <= p < j ==> (#[trigger] self.items@[order@[p] as int]) is Some,
            decreases n - j,
        {
            let idx = order[j];
            let ghost before = self.layout;
            let ghost items_before = self.items@;
            match process(&mut self.layout, &mut cands, &self.keys, self.keys[idx].as_str()) {
                Ok(item) => {
                    self.items.set(idx, Some(item));
                    proof {
                        assert forall|k: int|
                            0 <= k < n implies ((#[trigger] self.items@[k]) matches Some(it)
                            ==> item_ok(self.layout, it, self.keys@[k]@)) by {
                            if k != idx {
                                assert(self.items@[k] == items_before[k]);
                                if let Some(it) = items_before[k] {
                                    assert(item_ok(before, it, self.keys@[k]@));
                                }
                            }
                        }
                        assert forall|p: int| 0 <= p < j + 1 implies (#[trigger] self.items@[
                            order@[p] as int
                        ]) is Some by {
                            if order@[p] != idx {
                                assert(self.items@[order@[p] as int] == items_before[order@[p] as int]);
                            }
                        }
                    }
                },
                Err(e) => {
                    proof {
                        assert(self.keys@[idx as int] == old(self).keys@[idx as int]);
                    }
                    return Err(e);
                },
            }
            j = j + 1;
        }
        proof {
            assert forall|k: int| 0 <= k < n implies ((#[trigger] self.items@[k]) matches Some(item)
                && item_ok(self.layout, item, self.keys@[k]@)) by {
                assert(order@.contains(k as usize));
                let p = choose|p: int| 0 <= p < order@.len() && order@[p] == k as usize;
                assert(order@[p] as int == k);
                assert(self.items@[order@[p] as int] is Some);
            }
        }
        Ok(())
    }
}

/// Whether `s` is the head word or the reading of one of `entries`.
pub open spec fn spec_entry_string(entries: Seq<ResolvedLexiconEntry>, s: Seq<char>) -> bool {
    exists|i: int|
        0 <= i < entries.len() && (s == spec_headword_of(
            (#[trigger] entries[i]).headword,
            entries[i].index_form,
        ) || s == entries[i].reading@)
}

impl StringStore {
    /// The store of the head words and readings of `entries`, each placed.
    /// An error when one of them is longer than a pointer can address, or
    /// the strings no longer fit where a pointer can address them.
    pub fn from_entries(entries: &[ResolvedLexiconEntry]) -> (r: SudachiResult<StringStore>)
        ensures
            r matches Ok(st) ==> {
                &&& st.wf()
                &&& forall|i: int|
                    0 <= i < entries@.len() ==> st.spec_keys().contains(
                        spec_headword_of((#[trigger] entries@[i]).headword, entries@[i].index_form),
                    ) && st.spec_keys().contains(entries@[i].reading@)
                &&& forall|k: int|
                    0 <= k < st.spec_keys().len() ==> spec_entry_string(
                        entries@,
                        #[trigger] st.spec_keys()[k],
                    )
            },
            (exists|i: int|
                0 <= i < entries@.len() && (spec_utf16_encode(
                    spec_headword_of((#[trigger] entries@[i]).headword, entries@[i].index_form),
                ).len() > MAX_LENGTH || spec_utf16_encode(entries@[i].reading@).len() > MAX_LENGTH))
                ==> r is Err,
            r matches Err(e) ==> spec_is_room_error(e) || exists|i: int|
                0 <= i < entries@.len() && (spec_utf16_encode(
                    spec_headword_of((#[trigger] entries@[i]).headword, entries@[i].index_form),
                ).len() > MAX_LENGTH || spec_utf16_encode(entries@[i].reading@).len() > MAX_LENGTH),
    {
        let mut st = StringStore { keys: Vec::new(), items: Vec::new(), layout: StringLayout::new() };
        let mut i: usize = 0;
        while i < entries.len()
            invariant
                i <= entries@.len(),
                st.items@.len() == st.keys@.len(),
                forall|k: int| 0 <= k < st.items@.len() ==> (#[trigger] st.items@[k]) is None,
                st.layout.wf(),
                forall|m: int|
                    0 <= m < i ==> st.spec_keys().contains(
                        spec_headword_of((#[trigger] entries@[m]).headword, entries@[m].index_form),
                    ) && st.spec_keys().contains(entries@[m].reading@),
                forall|k: int|
                    0 <= k < st.spec_keys().len() ==> spec_entry_string(
                        entries@,
                        #[trigger] st.spec_keys()[k],
                    ),
            decreases entries@.len() - i,
        {
            let ghost k0 = st.spec_keys();
            st.register(entries[i].headword());
            let ghost k1 = st.spec_keys();
            st.register(entries[i].reading());
            proof {
                let e = entries@[i as int];
                let h = spec_headword_of(e.headword, e.index_form);
                assert(spec_entry_string(entries@, h));
                assert(spec_entry_string(entries@, e.reading@));
                assert forall|m: int| 0 <= m < i + 1 implies st.spec_keys().contains(
                    spec_headword_of((#[trigger] entries@[m]).headword, entries@[m].index_form),
                ) && st.spec_keys().contains(entries@[m].reading@) by {
                    if m < i {
                        let hm = spec_headword_of(entries@[m].headword, entries@[m].index_form);
                        let w = choose|w: int| 0 <= w < k0.len() && k0[w] == hm;
                        assert(k1[w] == hm);
                        assert(st.spec_keys()[w] == hm);
                        let w2 = choose|w: int| 0 <= w < k0.len() && k0[w] == entries@[m].reading@;
                        assert(k1[w2] == entries@[m].reading@);
                        assert(st.spec_keys()[w2] == entries@[m].reading@);
                    } else {
                        let w = choose|w: int| 0 <= w < k1.len() && k1[w] == h;
                        assert(st.spec_keys()[w] == h);
                    }
                }
                assert forall|k: int| 0 <= k < st.spec_keys().len() implies spec_entry_string(
                    entries@,
                    #[trigger] st.spec_keys()[k],
                ) by {
                    if k < k1.len() {
                        assert(st.spec_keys()[k] == k1[k]);
                        if k < k0.len() {
                            assert(k1[k] == k0[k]);
                        }
                    }
                }
            }
            i = i + 1;
        }
        let ghost keys = st.spec_keys();
        match st.compile() {
            Ok(()) => {
                proof {
                    assert forall|m: int| 0 <= m < entries@.len() implies !(spec_utf16_encode(
                        spec_headword_of(entries@[m].headword, entries@[m].index_form),
                    ).len() > MAX_LENGTH || spec_utf16_encode(entries@[m].reading@).len()
                        > MAX_LENGTH) by {
                        let h = spec_headword_of(entries@[m].headword, entries@[m].index_form);
                        let w = choose|w: int| 0 <= w < keys.len() && keys[w] == h;
                        assert(st.spec_keys()[w] == st.keys@[w]@);
                        assert(st.items@[w] is Some);
                        lemma_item_short(st.layout, st.items@[w]->0, st.keys@[w]@);
                        let w2 = choose|w: int| 0 <= w < keys.len() && keys[w] == entries@[m].reading@;
                        assert(st.spec_keys()[w2] == st.keys@[w2]@);
                        assert(st.items@[w2] is Some);
                        lemma_item_short(st.layout, st.items@[w2]->0, st.keys@[w2]@);
                    }
                }
                Ok(st)
            },
            Err(e) => {
                proof {
                    if !spec_is_room_error(e) {
                        let w = choose|w: int|
                            0 <= w < st.keys@.len() && spec_utf16_encode(
                                (#[trigger] st.keys@[w])@,
                            ).len() > MAX_LENGTH;
                        assert(keys[w] == st.keys@[w]@);
                        assert(spec_entry_string(entries@, keys[w]));
                    }
                }
                Err(e)
            },
        }
    }

    /// The pointer to the code units of `s`, a registered string.
    pub fn resolve(&self, s: &str) -> (r: StringPointer)
        requires
            self.wf(),
            self.spec_keys().contains(s@),
        ensures
            r.length == spec_utf16_encode(s@).len(),
            spec_is_valid(r.length, r.offset),
            r.offset + r.length < MAX_OFFSET,
            r.offset + r.length <= self.spec_units().len(),
            self.spec_units().subrange(r.offset as int, r.offset + r.length) == spec_utf16_encode(s@),
    {
        let mut i: usize = 0;
        while i < self.keys.len()
            invariant
                self.wf(),
                self.spec_keys().contains(s@),
                i <= self.keys@.len(),
                forall|k: int| 0 <= k < i ==> (#[trigger] self.keys@[k])@ != s@,
            decreases self.keys@.len() - i,
        {
            if str_eq(self.keys[i].as_str(), s) {
                let item = match self.items[i] {
                    Some(item) => item,
                    None => Item::empty(),
                };
                proof {
                    assert(self.items@[i as int] is Some);
                    assert(item_ok(self.layout, item, s@));
                }
                return item.as_pointer();
            }
            i = i + 1;
        }
        proof {
            let w = choose|w: int| 0 <= w < self.spec_keys().len() && self.spec_keys()[w] == s@;
            assert(self.spec_keys()[w] == self.keys@[w]@);
        }
        StringPointer::unchecked(0, 0)
    }

    /// Appends the code units the store holds, little-endian, to `w`, and
    /// gives how many bytes that is.
    pub fn write(&self, w: &mut Vec<u8>) -> (r: SudachiResult<usize>)
        requires
            self.wf(),
        ensures
            final(w)@ == old(w)@ + spec_utf16_bytes(self.spec_units()),
            r matches Ok(n) && n == 2 * self.spec_units().len(),
    {
        let units = &self.layout.buffer;
        let mut k: usize = 0;
        proof {
            assert(units@.take(0) =~= Seq::<u16>::empty());
            assert(spec_utf16_bytes(Seq::<u16>::empty()) =~= Seq::<u8>::empty());
            assert(old(w)@ + Seq::<u8>::empty() =~= old(w)@);
        }
        while k < units.len()
            invariant
                k <= units@.len(),
                units@.len() <= MAX_OFFSET,
                w@ == old(w)@ + spec_utf16_bytes(units@.take(k as int)),
            decreases units@.len() - k,
        {
            let u = units[k];
            let ghost before = w@;
            w.push((u % 256) as u8);
            w.push((u / 256) as u8);
            proof {
                assert(units@.take(k + 1) =~= units@.take(k as int) + seq![u]);
                crate::dic::build::primitives::lemma_utf16_bytes_concat(units@.take(k as int), seq![u]);
                assert(seq![u].skip(1) =~= Seq::<u16>::empty());
                assert(spec_utf16_bytes(Seq::<u16>::empty()) =~= Seq::<u8>::empty());
                assert(seq![(u % 256) as u8, (u / 256) as u8] + Seq::<u8>::empty() =~= seq![
                    (u % 256) as u8,
                    (u / 256) as u8,
                ]);
                assert(spec_utf16_bytes(seq![u]) =~= seq![(u % 256) as u8, (u / 256) as u8]);
                assert(w@ =~= old(w)@ + spec_utf16_bytes(units@.take(k + 1)));
            }
            k = k + 1;
        }
        proof {
            assert(units@.take(units@.len() as int) =~= units@);
        }
        Ok(2 * units.len())
    }
}

/// The code units a store writes, read back as compacted strings through the
/// pointer a string resolves to, once encoded and decoded, give the string:
/// for every pointer and every text `units` that hold the code units of `s`
/// where the pointer says, as [`StringStore::resolve`] promises.
pub proof fn lemma_stored_string_reads_back(units: Seq<u16>, p: StringPointer, s: Seq<char>)
    requires
        spec_is_valid(p.length, p.offset),
        p.length == spec_utf16_encode(s).len(),
        p.offset + p.length < MAX_OFFSET,
        p.offset + p.length <= units.len(),
        units.subrange(p.offset as int, p.offset + p.length) == spec_utf16_encode(s),
    ensures
        spec_decode(spec_encode(p.length, p.offset)) == (p.length, p.offset),
        spec_compacted_string(spec_utf16_bytes(units), p.length as int, p.offset as int) == Some(s),
{
    lemma_decode_encode(p);
    let a = units.take(p.offset as int);
    let b = units.subrange(p.offset as int, p.offset + p.length);
    let c = units.skip(p.offset + p.length);
    assert(units =~= a + b + c);
    crate::dic::build::primitives::lemma_utf16_bytes_concat(a + b, c);
    crate::dic::build::primitives::lemma_utf16_bytes_concat(a, b);
    crate::dic::build::primitives::lemma_utf16_bytes_len(a);
    crate::dic::build::primitives::lemma_utf16_bytes_len(b);
    crate::dic::build::primitives::lemma_utf16_bytes_len(c);
    crate::dic::build::primitives::lemma_utf16_bytes_len(units);
    crate::dic::build::primitives::lemma_units_of_bytes(b, spec_utf16_bytes(a), spec_utf16_bytes(c));
    crate::dic::build::primitives::lemma_utf16_decode_encode(s);
}

} // verus!
