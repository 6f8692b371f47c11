//! Lexicon entries of a dictionary under construction, and the references
//! between them.

pub mod entry;
pub mod resolution;
pub mod string_store;

use vstd::prelude::*;

use crate::dic::word_id::WordRef as DicWordRef;

verus! {

/// A reference to a word as written in a lexicon source.
#[derive(Clone, Debug)]
pub enum WordRef {
    /// The entry itself.
    SelfRef,
    /// The entry on a given line of a lexicon source.
    LineRef(DicWordRef),
    /// The first entry with a given head word.
    Headword(String),
    /// The entry with the given head word, part of speech and reading, or
    /// with the given reference id.
    EntryKey {
        headword: String,
        pos: u16,
        reading: Option<String>,
        reference_id: Option<String>,
    },
}

/// A reference after resolution: the entry itself, or another entry.
#[derive(Clone, Copy, Debug, PartialEq, Eq, Structural)]
pub enum ResolvedWordRef {
    SelfRef,
    Ref(DicWordRef),
}

/// The characters of an optional string.
pub open spec fn spec_opt_str(o: Option<&str>) -> Option<Seq<char>> {
    match o {
        Some(s) => Some(s@),
        None => None,
    }
}

/// The characters of an optional owned string.
pub open spec fn spec_opt_string(o: Option<String>) -> Option<Seq<char>> {
    match o {
        Some(s) => Some(s@),
        None => None,
    }
}

/// The optional string, borrowed.
pub fn opt_as_str(o: &Option<String>) -> (r: Option<&str>)
    ensures
        spec_opt_str(r) == spec_opt_string(*o),
{
    match o {
        Some(s) => Some(s.as_str()),
        None => None,
    }
}

/// Turns references of a lexicon source into entries of the dictionary.
pub trait WordRefResolver {
    /// The entry that line reference `line_ref` names; implementations
    /// state it, the default names none.
    open spec fn spec_by_line_ref(&self, line_ref: DicWordRef) -> Option<DicWordRef> {
        None
    }

    /// The entry that head word `headword` names; implementations state
    /// it, the default names none.
    open spec fn spec_by_headword(&self, headword: Seq<char>) -> Option<DicWordRef> {
        None
    }

    /// The entry that an entry key names; implementations state it, the
    /// default names none.
    open spec fn spec_by_entry_key(
        &self,
        headword: Seq<char>,
        pos: u16,
        reading: Option<Seq<char>>,
        reference_id: Option<Seq<char>>,
    ) -> Option<DicWordRef> {
        None
    }

    /// The entry that line reference `line_ref` names.
    fn resolve_by_line_ref(&self, line_ref: DicWordRef) -> (r: Option<DicWordRef>)
        ensures
            r == self.spec_by_line_ref(line_ref),
    ;

    /// The entry that head word `headword` names.
    fn resolve_by_headword(&self, headword: &str) -> (r: Option<DicWordRef>)
        ensures
            r == self.spec_by_headword(headword@),
    ;

    /// The entry with head word, part of speech and reading, or with the
    /// reference id when one is given.
    fn resolve_entry_key(
        &self,
        headword: &str,
        pos: u16,
        reading: Option<&str>,
        reference_id: Option<&str>,
    ) -> (r: Option<DicWordRef>)
        ensures
            r == self.spec_by_entry_key(
                headword@,
                pos,
                spec_opt_str(reading),
                spec_opt_str(reference_id),
            ),
    ;

    /// The entry a reference names; none for a reference to the entry itself.
    fn resolve(&self, wref: &WordRef) -> (r: Option<DicWordRef>)
        ensures
            r == match *wref {
                WordRef::SelfRef => None,
                WordRef::LineRef(line_ref) => self.spec_by_line_ref(line_ref),
                WordRef::Headword(h) => self.spec_by_headword(h@),
                WordRef::EntryKey { headword, pos, reading, reference_id } => self.spec_by_entry_key(
                    headword@,
                    pos,
                    spec_opt_string(reading),
                    spec_opt_string(reference_id),
                ),
            },
    {
        match wref {
            WordRef::SelfRef => None,
            WordRef::LineRef(line_ref) => self.resolve_by_line_ref(*line_ref),
            WordRef::Headword(h) => self.resolve_by_headword(h.as_str()),
            WordRef::EntryKey { headword, pos, reading, reference_id } => self.resolve_entry_key(
                headword.as_str(),
                *pos,
                opt_as_str(reading),
                opt_as_str(reference_id),
            ),
        }
    }
}

} // verus!
