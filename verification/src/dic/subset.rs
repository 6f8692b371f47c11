//! Selection of the fields of word information that a lookup reads.

use vstd::prelude::*;

verus! {

/// A set of word information fields, as a bit set.
#[derive(Clone, Copy, PartialEq, Eq, Structural, Debug)]
pub struct InfoSubset(pub u32);

/// Bit of the surface form.
pub const SURFACE: u32 = 1;

/// Bit of the head word length.
pub const HEAD_WORD_LENGTH: u32 = 2;

/// Bit of the part of speech id.
pub const POS_ID: u32 = 4;

/// Bit of the normalized form.
pub const NORMALIZED_FORM: u32 = 8;

/// Bit of the dictionary form and its word id.
pub const DIC_FORM_WORD_ID: u32 = 16;

/// Bit of the reading form.
pub const READING_FORM: u32 = 32;

/// Bit of the A unit split.
pub const SPLIT_A: u32 = 64;

/// Bit of the B unit split.
pub const SPLIT_B: u32 = 128;

/// Bit of the word structure.
pub const WORD_STRUCTURE: u32 = 256;

/// Bit of the synonym group ids.
pub const SYNONYM_GROUP_ID: u32 = 512;

/// All field bits.
pub const ALL_FIELDS: u32 = 1023;

impl InfoSubset {
    /// Whether every field of `flags` is in the set.
    pub open spec fn has(self, flags: u32) -> bool {
        self.0 & flags == flags
    }

    /// Every field.
    pub open spec fn spec_all() -> InfoSubset {
        InfoSubset(ALL_FIELDS)
    }

    /// Every field.
    pub fn all() -> (r: InfoSubset)
        ensures
            r == InfoSubset::spec_all(),
    {
        InfoSubset(ALL_FIELDS)
    }

    /// No field.
    pub fn empty() -> (r: InfoSubset)
        ensures
            r.0 == 0,
    {
        InfoSubset(0)
    }

    /// Whether every field of `flags` is in the set.
    pub fn contains(&self, flags: u32) -> (r: bool)
        ensures
            r == self.has(flags),
    {
        self.0 & flags == flags
    }

    /// The fields of both sets.
    pub fn union(&self, other: InfoSubset) -> (r: InfoSubset)
        ensures
            r.0 == self.0 | other.0,
    {
        InfoSubset(self.0 | other.0)
    }

    /// The set without the fields of `flags`.
    pub fn remove(&self, flags: u32) -> (r: InfoSubset)
        ensures
            r.0 == self.0 & !flags,
    {
        InfoSubset(self.0 & !flags)
    }

    /// The set `normalize` gives.
    pub open spec fn spec_normalized(self) -> InfoSubset {
        if self.0 & (NORMALIZED_FORM | DIC_FORM_WORD_ID | READING_FORM) != 0 {
            InfoSubset(self.0 | SURFACE)
        } else {
            InfoSubset(self.0)
        }
    }

    /// The set with the surface added whenever a field that falls back to
    /// the surface is in it.
    pub fn normalize(&self) -> (r: InfoSubset)
        ensures
            r == self.spec_normalized(),
            r.0 == (if self.0 & (NORMALIZED_FORM | DIC_FORM_WORD_ID | READING_FORM) != 0 {
                self.0 | SURFACE
            } else {
                self.0
            }),
    {
        if self.0 & (NORMALIZED_FORM | DIC_FORM_WORD_ID | READING_FORM) != 0 {
            InfoSubset(self.0 | SURFACE)
        } else {
            InfoSubset(self.0)
        }
    }
}

} // verus!
