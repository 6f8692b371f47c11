use vstd::prelude::*;

use crate::error::{SudachiError, SudachiResult};

verus! {

/// Number of entry ids one dictionary can hold: the low 28 bits of a word id.
pub const WORD_ID_SPAN: u32 = 0x1000_0000;

/// Largest entry id inside one dictionary.
pub const MAX_WORD: u32 = 0x0fff_ffff;

/// Dictionary id reserved for out-of-vocabulary words.
pub const OOV_DIC: u8 = 0xf;

/// Identifier of a word: the top 4 bits name the dictionary, the low 28 bits
/// the entry inside it. Dictionary 15 marks out-of-vocabulary words.
#[derive(Clone, Copy, PartialEq, Eq, Structural, Debug, Hash)]
pub struct WordId {
    raw: u32,
}

impl View for WordId {
    type V = u32;

    closed spec fn view(&self) -> u32 {
        self.raw
    }
}

/// Dictionary part of a raw word id.
pub open spec fn spec_dic_of(raw: u32) -> int {
    raw as int / WORD_ID_SPAN as int
}

/// Entry part of a raw word id.
pub open spec fn spec_word_of(raw: u32) -> int {
    raw as int % WORD_ID_SPAN as int
}

/// Raw word id made of a dictionary id and an entry id.
pub open spec fn spec_raw_of(dic: int, word: int) -> int {
    dic * WORD_ID_SPAN as int + word
}

impl WordId {
    /// Two word ids are equal exactly when their raw values are.
    pub proof fn lemma_view_injective(a: WordId, b: WordId)
        ensures
            (a@ == b@) == (a == b),
    {
    }

    /// The word id whose raw value is `raw`.
    pub closed spec fn spec_from_raw(raw: u32) -> WordId {
        WordId { raw }
    }

    /// A word id is the one made of its raw value.
    pub proof fn lemma_from_raw(raw: u32)
        ensures
            WordId::spec_from_raw(raw)@ == raw,
            forall|w: WordId| w@ == raw ==> w == WordId::spec_from_raw(raw),
    {
    }

    /// Word id of the given raw value.
    pub fn from_raw(raw: u32) -> (r: WordId)
        ensures
            r@ == raw,
            r == WordId::spec_from_raw(raw),
    {
        WordId { raw }
    }

    /// Raw value of the word id.
    pub fn as_raw(&self) -> (r: u32)
        ensures
            r == self@,
    {
        self.raw
    }

    /// Word id of entry `word` in dictionary `dic`.
    pub fn new(dic: u8, word: u32) -> (r: WordId)
        requires
            dic < 16,
            word <= MAX_WORD,
        ensures
            r@ == spec_raw_of(dic as int, word as int),
    {
        WordId { raw: (dic as u32) * WORD_ID_SPAN + word }
    }

    /// Word id of entry `word` in dictionary `dic`, or an error when either is too large.
    pub fn checked(dic: u8, word: u32) -> (r: SudachiResult<WordId>)
        ensures
            r is Ok <==> (dic < 16 && word <= MAX_WORD),
            r matches Ok(w) ==> w@ == spec_raw_of(dic as int, word as int),
    {
        if dic >= 16 || word > MAX_WORD {
            Err(SudachiError::InvalidWordId(WordId { raw: u32::MAX }))
        } else {
            Ok(WordId::new(dic, word))
        }
    }

    /// Word id of an out-of-vocabulary word with part of speech `pos`.
    pub fn oov(pos: u32) -> (r: WordId)
        requires
            pos <= MAX_WORD,
        ensures
            r@ == spec_raw_of(OOV_DIC as int, pos as int),
    {
        WordId::new(OOV_DIC, pos)
    }

    /// Word id that addresses no entry.
    pub fn invalid() -> (r: WordId)
        ensures
            r@ == u32::MAX,
    {
        WordId { raw: u32::MAX }
    }

    /// Word id of the sentence-end (and sentence-begin) marker.
    pub fn eos() -> (r: WordId)
        ensures
            r@ == u32::MAX - 1,
    {
        WordId { raw: u32::MAX - 1 }
    }

    /// Dictionary id of the word.
    pub fn dic(&self) -> (r: u8)
        ensures
            r as int == spec_dic_of(self@),
    {
        (self.raw / WORD_ID_SPAN) as u8
    }

    /// Entry id of the word inside its dictionary.
    pub fn word(&self) -> (r: u32)
        ensures
            r as int == spec_word_of(self@),
    {
        self.raw % WORD_ID_SPAN
    }

    /// Whether the word is out of vocabulary (dictionary 15).
    pub fn is_oov(&self) -> (r: bool)
        ensures
            r == (spec_dic_of(self@) == OOV_DIC as int),
    {
        self.dic() == OOV_DIC
    }

    /// Whether the word is a sentence boundary marker.
    pub fn is_special(&self) -> (r: bool)
        ensures
            r == (self@ == u32::MAX - 1),
    {
        self.raw >= u32::MAX - 1 && self.raw < u32::MAX
    }

    /// Whether the word comes from the system dictionary (dictionary 0).
    pub fn is_system(&self) -> (r: bool)
        ensures
            r == (spec_dic_of(self@) == 0),
    {
        self.raw < WORD_ID_SPAN
    }
}

/// Reference to an entry of the system dictionary or of the user dictionary
/// being built, as stored in a dictionary under construction.
#[derive(Clone, Copy, PartialEq, Eq, Structural, Debug, Hash)]
pub struct WordRef {
    system: bool,
    entry: u32,
}

impl WordRef {
    /// Whether the reference points into the system dictionary.
    pub closed spec fn spec_is_system(self) -> bool {
        self.system
    }

    /// Entry id the reference points at.
    pub closed spec fn spec_entry(self) -> u32 {
        self.entry
    }

    /// The reference to entry `entry` of the system (`system`) or user dictionary.
    pub closed spec fn spec_new(system: bool, entry: u32) -> WordRef {
        WordRef { system, entry }
    }

    /// Reference to entry `entry` of the system (`system`) or user dictionary.
    pub fn new(system: bool, entry: u32) -> (r: WordRef)
        ensures
            r.spec_is_system() == system,
            r.spec_entry() == entry,
            r == WordRef::spec_new(system, entry),
    {
        WordRef { system, entry }
    }

    /// Two references are equal exactly when their parts are.
    pub proof fn lemma_parts_determine(a: WordRef, b: WordRef)
        ensures
            (a.spec_is_system() == b.spec_is_system() && a.spec_entry() == b.spec_entry()) == (a
                == b),
    {
    }

    /// Whether the reference points into the system dictionary.
    pub fn is_system(&self) -> (r: bool)
        ensures
            r == self.spec_is_system(),
    {
        self.system
    }

    /// Entry id the reference points at.
    pub fn entry(&self) -> (r: u32)
        ensures
            r == self.spec_entry(),
    {
        self.entry
    }

    /// Raw word id of the reference: user references live in dictionary 1.
    pub fn as_raw(&self) -> (r: u32)
        requires
            self.spec_entry() <= MAX_WORD,
        ensures
            r as int == spec_raw_of(if self.spec_is_system() { 0 } else { 1 }, self.spec_entry() as int),
    {
        if self.system {
            self.entry
        } else {
            WORD_ID_SPAN + self.entry
        }
    }
}

} // verus!
