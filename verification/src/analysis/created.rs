use vstd::prelude::*;

verus! {

/// Bitset recording which word lengths (in characters) were created at a
/// position of the lattice. Lengths of 64 and more share the last bit, so for
/// them the answer is only "maybe".
#[derive(Copy, Clone, PartialEq, Eq, Structural, Debug)]
pub struct CreatedWords(u64);

/// Answer of [`CreatedWords::has_word`].
#[derive(Eq, PartialEq, Structural, Copy, Clone, Debug)]
pub enum HasWord {
    Yes,
    No,
    Maybe,
}

/// Largest word length with its own bit.
pub const MAX_VALUE: u64 = 64;

impl View for CreatedWords {
    type V = u64;

    closed spec fn view(&self) -> u64 {
        self.0
    }
}

/// Bit index used for a word of `length` characters.
pub open spec fn spec_shift(length: i64) -> u64 {
    if length < 0 {
        63
    } else if length == 0 {
        0
    } else if length - 1 < 63 {
        (length - 1) as u64
    } else {
        63
    }
}

/// Bitset with only the bit of `length` set.
pub open spec fn spec_single(length: i64) -> u64 {
    1u64 << spec_shift(length)
}

/// Answer for `length` in the bitset `bits`.
pub open spec fn spec_has_word(bits: u64, length: i64) -> HasWord {
    if bits & spec_single(length) == 0 {
        HasWord::No
    } else if length >= 64 {
        HasWord::Maybe
    } else {
        HasWord::Yes
    }
}

impl CreatedWords {
    /// The empty bitset.
    pub fn empty() -> (r: CreatedWords)
        ensures
            r@ == 0,
    {
        CreatedWords(0)
    }

    /// Bitset holding only `length`.
    pub fn single(length: i64) -> (r: CreatedWords)
        ensures
            r@ == spec_single(length),
    {
        let raw = length as u64;
        let s = raw.saturating_sub(1);
        let shift = if s < 63 {
            s
        } else {
            63
        };
        proof {
            assert(length < 0 ==> (length as u64) >= 0x8000_0000_0000_0000u64) by (bit_vector);
            assert(length >= 0 ==> (length as u64) == length) by (bit_vector);
        }
        CreatedWords(1u64 << shift)
    }

    /// This bitset with `length` added.
    pub fn add_word(&self, length: i64) -> (r: CreatedWords)
        ensures
            r@ == self@ | spec_single(length),
    {
        let mask = CreatedWords::single(length);
        self.add(mask)
    }

    /// Union of two bitsets.
    pub fn add(&self, other: CreatedWords) -> (r: CreatedWords)
        ensures
            r@ == self@ | other@,
    {
        CreatedWords(self.0 | other.0)
    }

    /// Whether a word of `length` characters was created: `No` for sure,
    /// `Yes` for sure below 64, `Maybe` from 64 on.
    pub fn has_word(&self, length: i64) -> (r: HasWord)
        ensures
            r == spec_has_word(self@, length),
    {
        let mask = CreatedWords::single(length);
        if (self.0 & mask.0) == 0 {
            HasWord::No
        } else if length >= 64 {
            HasWord::Maybe
        } else {
            HasWord::Yes
        }
    }

    /// Whether no length is recorded.
    pub fn is_empty(&self) -> (r: bool)
        ensures
            r == (self@ == 0),
    {
        self.0 == 0
    }

    /// Whether some length is recorded.
    pub fn not_empty(&self) -> (r: bool)
        ensures
            r == (self@ != 0),
    {
        !self.is_empty()
    }
}

/// A length that was added is never reported absent.
pub proof fn lemma_added_word_is_found(bits: u64, length: i64)
    ensures
        spec_has_word(bits | spec_single(length), length) != HasWord::No,
{
    let s = spec_shift(length);
    assert(s < 64);
    assert(((bits | (1u64 << s)) & (1u64 << s)) != 0) by (bit_vector)
        requires
            s < 64,
    ;
}

/// Adding more lengths never loses a recorded one.
pub proof fn lemma_add_keeps_words(bits: u64, other: u64, length: i64)
    requires
        spec_has_word(bits, length) != HasWord::No,
    ensures
        spec_has_word(bits | other, length) != HasWord::No,
{
    let m = spec_single(length);
    assert((bits & m) != 0 ==> ((bits | other) & m) != 0) by (bit_vector);
}

/// The empty bitset reports every length absent.
pub proof fn lemma_empty_has_no_word(length: i64)
    ensures
        spec_has_word(0, length) == HasWord::No,
{
    let m = spec_single(length);
    assert((0u64 & m) == 0) by (bit_vector);
}

} // verus!
