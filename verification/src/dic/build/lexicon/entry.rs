//! Lexicon entries as read from a source, and after their references are
//! resolved.

use vstd::prelude::*;
use vstd::slice::slice_to_vec;

use crate::analysis::mode::Mode;
use crate::dic::build::error::{BuildFailure, DicWriteResult};
use crate::dic::build::primitives::utf16_len;
use crate::dic::read::spec_utf16_encode;
use vstd::string::StringExecFns;
use crate::dic::build::lexicon::{spec_opt_str, ResolvedWordRef, WordRef};
use crate::dic::word_id::WordRef as DicWordRef;

verus! {

/// The head word: the given one, or the indexed form when none is given.
pub open spec fn spec_headword_of(headword: Option<String>, index_form: String) -> Seq<char> {
    match headword {
        Some(h) => h@,
        None => index_form@,
    }
}

/// An entry's head word is the one it carries; its indexed form stands in
/// only when it carries none.
pub proof fn lemma_headword_is_given(headword: Option<String>, index_form: String)
    ensures
        headword matches Some(h) ==> spec_headword_of(headword, index_form) == h@,
        headword is None ==> spec_headword_of(headword, index_form) == index_form@,
{
}

/// The head word: the given one, or the indexed form when none is given.
fn headword_of<'s>(headword: &'s Option<String>, index_form: &'s String) -> (r: &'s str)
    ensures
        r@ == spec_headword_of(*headword, *index_form),
        *headword matches Some(h) ==> r@ == h@,
        *headword is None ==> r@ == index_form@,
{
    match headword {
        Some(h) => h.as_str(),
        None => index_form.as_str(),
    }
}

/// The reference id, borrowed.
fn reference_id_of(reference_id: &Option<String>) -> (r: Option<&str>)
    ensures
        r matches Some(s) ==> *reference_id matches Some(t) && s@ == t@,
        r is None <==> *reference_id is None,
{
    match reference_id {
        Some(s) => Some(s.as_str()),
        None => None,
    }
}

/// An entry of a lexicon source; its references are not resolved yet.
#[derive(Clone)]
pub struct ParsedLexiconEntry {
    pub left_id: i16,
    pub right_id: i16,
    pub cost: i16,
    pub index_form: String,
    pub headword: Option<String>,
    pub reference_id: Option<String>,
    pub dic_form: WordRef,
    pub norm_form: WordRef,
    pub pos: u16,
    pub splits_a: Vec<WordRef>,
    pub splits_b: Vec<WordRef>,
    pub splits_c: Vec<WordRef>,
    pub reading: String,
    pub splitting: Mode,
    pub word_structure: Vec<WordRef>,
    pub synonym_groups: Vec<u32>,
    pub user_data: String,
}

/// An entry whose references are resolved to entries of the dictionary.
pub struct ResolvedLexiconEntry {
    pub left_id: i16,
    pub right_id: i16,
    pub cost: i16,
    pub index_form: String,
    pub headword: Option<String>,
    pub reference_id: Option<String>,
    pub dic_form: ResolvedWordRef,
    pub norm_form: ResolvedWordRef,
    pub pos: u16,
    pub splits_a: Vec<DicWordRef>,
    pub splits_b: Vec<DicWordRef>,
    pub splits_c: Vec<DicWordRef>,
    pub reading: String,
    pub splitting: Mode,
    pub word_structure: Vec<DicWordRef>,
    pub synonym_groups: Vec<u32>,
    pub user_data: String,
}

impl ParsedLexiconEntry {
    /// The form the entry is indexed by.
    pub fn index_form(&self) -> (r: &str)
        ensures
            r@ == self.index_form@,
    {
        self.index_form.as_str()
    }

    /// The head word; the indexed form when none is given.
    pub fn headword(&self) -> (r: &str)
        ensures
            r@ == spec_headword_of(self.headword, self.index_form),
            self.headword matches Some(h) ==> r@ == h@,
            self.headword is None ==> r@ == self.index_form@,
    {
        headword_of(&self.headword, &self.index_form)
    }

    /// The normalized form: the head word for a reference to the entry
    /// itself, or the head word the reference names.
    pub fn norm_form(&self) -> (r: &str)
        requires
            self.norm_form is SelfRef || self.norm_form is Headword,
        ensures
            r@ == match self.norm_form {
                WordRef::Headword(s) => s@,
                _ => spec_headword_of(self.headword, self.index_form),
            },
    {
        match &self.norm_form {
            WordRef::Headword(s) => s.as_str(),
            _ => self.headword(),
        }
    }

    /// The reading.
    pub fn reading(&self) -> (r: &str)
        ensures
            r@ == self.reading@,
    {
        self.reading.as_str()
    }

    /// The reference id, if any.
    pub fn reference_id(&self) -> (r: Option<&str>)
        ensures
            r matches Some(s) ==> self.reference_id matches Some(t) && s@ == t@,
            r is None <==> self.reference_id is None,
    {
        reference_id_of(&self.reference_id)
    }

    /// Whether the entry goes into the index: its left id is not negative.
    pub fn should_index(&self) -> (r: bool)
        ensures
            r == (self.left_id >= 0),
    {
        self.left_id >= 0
    }
}

impl ResolvedLexiconEntry {
    /// An entry that only carries a head word: not indexed, with no
    /// connection and the largest cost, the reading, forms and splits of
    /// `base`, and itself as its normalized form.
    pub fn make_phantom(base: &ResolvedLexiconEntry, headword: String) -> (r: ResolvedLexiconEntry)
        ensures
            r.index_form@.len() == 0,
            r.headword matches Some(h) && h@ == headword@,
            r.reference_id is None,
            r.left_id == -1,
            r.right_id == -1,
            r.cost == i16::MAX,
            r.pos == base.pos,
            r.reading@ == base.reading@,
            r.dic_form == base.dic_form,
            r.norm_form == ResolvedWordRef::SelfRef,
            r.splitting == base.splitting,
            r.splits_a@ == base.splits_a@,
            r.splits_b@ == base.splits_b@,
            r.splits_c@ == base.splits_c@,
            r.word_structure@ == base.word_structure@,
            r.synonym_groups@ == base.synonym_groups@,
            r.user_data@ == base.user_data@,
    {
        ResolvedLexiconEntry {
            index_form: String::new(),
            headword: Some(headword),
            reference_id: None,
            left_id: -1,
            right_id: -1,
            cost: i16::MAX,
            pos: base.pos,
            reading: base.reading.clone(),
            dic_form: base.dic_form,
            norm_form: ResolvedWordRef::SelfRef,
            splitting: base.splitting,
            splits_a: slice_to_vec(base.splits_a.as_slice()),
            splits_b: slice_to_vec(base.splits_b.as_slice()),
            splits_c: slice_to_vec(base.splits_c.as_slice()),
            word_structure: slice_to_vec(base.word_structure.as_slice()),
            synonym_groups: slice_to_vec(base.synonym_groups.as_slice()),
            user_data: base.user_data.clone(),
        }
    }

    /// Whether the entry only carries a head word (its indexed form is empty).
    pub fn is_phantom(&self) -> (r: bool)
        ensures
            r == (self.index_form@.len() == 0),
    {
        self.index_form.as_str().is_empty()
    }

    /// The form the entry is indexed by.
    pub fn index_form(&self) -> (r: &str)
        ensures
            r@ == self.index_form@,
    {
        self.index_form.as_str()
    }

    /// The head word; the indexed form when none is given.
    pub fn headword(&self) -> (r: &str)
        ensures
            r@ == spec_headword_of(self.headword, self.index_form),
            self.headword matches Some(h) ==> r@ == h@,
            self.headword is None ==> r@ == self.index_form@,
    {
        headword_of(&self.headword, &self.index_form)
    }

    /// The normalized form of an entry that is its own normalized form.
    pub fn norm_form(&self) -> (r: &str)
        requires
            self.norm_form == ResolvedWordRef::SelfRef,
        ensures
            r@ == spec_headword_of(self.headword, self.index_form),
    {
        self.headword()
    }

    /// The reading.
    pub fn reading(&self) -> (r: &str)
        ensures
            r@ == self.reading@,
    {
        self.reading.as_str()
    }

    /// The reference id, if any.
    pub fn reference_id(&self) -> (r: Option<&str>)
        ensures
            r matches Some(s) ==> self.reference_id matches Some(t) && s@ == t@,
            r is None <==> self.reference_id is None,
    {
        reference_id_of(&self.reference_id)
    }

    /// Whether the entry goes into the index: its left id is not negative.
    pub fn should_index(&self) -> (r: bool)
        ensures
            r == (self.left_id >= 0),
    {
        self.left_id >= 0
    }
}

/// Largest number of items of a split, a word structure or a list of
/// synonym groups of an entry.
pub const MAX_FIELD_ITEMS: usize = 127;

/// Largest number of UTF-16 code units of the user data of an entry.
pub const MAX_USER_DATA_UNITS: usize = 32767;

/// The sizes of the variable fields of an entry's record, and which of
/// them repeat the field before: splits C, B and A, word structure,
/// synonym groups and user data.
#[derive(Clone, Copy, Debug, PartialEq, Eq, Structural)]
pub struct WordInfoVariableLayout {
    pub splits_c_len: usize,
    pub split_b_eq_c: bool,
    pub splits_b_len: usize,
    pub split_a_eq_b: bool,
    pub splits_a_len: usize,
    pub word_structure_eq_a: bool,
    pub word_structure_len: usize,
    pub synonym_groups_len: usize,
    pub user_data_units: usize,
}

/// Whether the sizes fit a record: at most [`MAX_FIELD_ITEMS`] items in
/// each list, at most [`MAX_USER_DATA_UNITS`] code units of user data.
pub open spec fn spec_layout_fits(
    splits_c_len: usize,
    splits_b_len: usize,
    splits_a_len: usize,
    word_structure_len: usize,
    synonym_groups_len: usize,
    user_data_units: usize,
) -> bool {
    &&& splits_c_len <= MAX_FIELD_ITEMS
    &&& splits_b_len <= MAX_FIELD_ITEMS
    &&& splits_a_len <= MAX_FIELD_ITEMS
    &&& word_structure_len <= MAX_FIELD_ITEMS
    &&& synonym_groups_len <= MAX_FIELD_ITEMS
    &&& user_data_units <= MAX_USER_DATA_UNITS
}

impl WordInfoVariableLayout {
    /// The layout of the given sizes, when they fit a record.
    pub fn new(
        splits_c_len: usize,
        split_b_eq_c: bool,
        splits_b_len: usize,
        split_a_eq_b: bool,
        splits_a_len: usize,
        word_structure_eq_a: bool,
        word_structure_len: usize,
        synonym_groups_len: usize,
        user_data_units: usize,
    ) -> (r: Option<WordInfoVariableLayout>)
        ensures
            r is Some <==> spec_layout_fits(
                splits_c_len,
                splits_b_len,
                splits_a_len,
                word_structure_len,
                synonym_groups_len,
                user_data_units,
            ),
            r matches Some(l) ==> l == (WordInfoVariableLayout {
                splits_c_len,
                split_b_eq_c,
                splits_b_len,
                split_a_eq_b,
                splits_a_len,
                word_structure_eq_a,
                word_structure_len,
                synonym_groups_len,
                user_data_units,
            }),
    {
        if splits_c_len > MAX_FIELD_ITEMS || splits_b_len > MAX_FIELD_ITEMS || splits_a_len
            > MAX_FIELD_ITEMS || word_structure_len > MAX_FIELD_ITEMS || synonym_groups_len
            > MAX_FIELD_ITEMS || user_data_units > MAX_USER_DATA_UNITS {
            return None;
        }
        Some(
            WordInfoVariableLayout {
                splits_c_len,
                split_b_eq_c,
                splits_b_len,
                split_a_eq_b,
                splits_a_len,
                word_structure_eq_a,
                word_structure_len,
                synonym_groups_len,
                user_data_units,
            },
        )
    }
}

/// The field named in the error of a layout that does not fit: the first,
/// in the order splits C, B, A, word structure, synonym groups, whose list
/// is too long, else the user data.
pub open spec fn spec_layout_failure(
    splits_c_len: usize,
    splits_b_len: usize,
    splits_a_len: usize,
    word_structure_len: usize,
    synonym_groups_len: usize,
    user_data_units: usize,
) -> (usize, usize, Seq<char>) {
    if splits_c_len > MAX_FIELD_ITEMS {
        (splits_c_len, MAX_FIELD_ITEMS, "splits_c"@)
    } else if splits_b_len > MAX_FIELD_ITEMS {
        (splits_b_len, MAX_FIELD_ITEMS, "splits_b"@)
    } else if splits_a_len > MAX_FIELD_ITEMS {
        (splits_a_len, MAX_FIELD_ITEMS, "splits_a"@)
    } else if word_structure_len > MAX_FIELD_ITEMS {
        (word_structure_len, MAX_FIELD_ITEMS, "word_structure"@)
    } else if synonym_groups_len > MAX_FIELD_ITEMS {
        (synonym_groups_len, MAX_FIELD_ITEMS, "synonym_groups"@)
    } else {
        (user_data_units, MAX_USER_DATA_UNITS, "user_data"@)
    }
}

/// The layout of the given sizes; an error naming the first field that is
/// too large, with its size and its limit.
pub fn variable_layout(
    splits_c_len: usize,
    split_b_eq_c: bool,
    splits_b_len: usize,
    split_a_eq_b: bool,
    splits_a_len: usize,
    word_structure_eq_a: bool,
    word_structure_len: usize,
    synonym_groups_len: usize,
    user_data_units: usize,
) -> (r: DicWriteResult<WordInfoVariableLayout>)
    ensures
        r is Ok <==> spec_layout_fits(
            splits_c_len,
            splits_b_len,
            splits_a_len,
            word_structure_len,
            synonym_groups_len,
            user_data_units,
        ),
        r matches Ok(l) ==> l == (WordInfoVariableLayout {
            splits_c_len,
            split_b_eq_c,
            splits_b_len,
            split_a_eq_b,
            splits_a_len,
            word_structure_eq_a,
            word_structure_len,
            synonym_groups_len,
            user_data_units,
        }),
        r matches Err(e) ==> ({
            let (actual, expected, field) = spec_layout_failure(
                splits_c_len,
                splits_b_len,
                splits_a_len,
                word_structure_len,
                synonym_groups_len,
                user_data_units,
            );
            e matches BuildFailure::InvalidFieldSize { actual: a, expected: x, field: f } && a
                == actual && x == expected && f@ == field
        }),
{
    match WordInfoVariableLayout::new(
        splits_c_len,
        split_b_eq_c,
        splits_b_len,
        split_a_eq_b,
        splits_a_len,
        word_structure_eq_a,
        word_structure_len,
        synonym_groups_len,
        user_data_units,
    ) {
        Some(l) => Ok(l),
        None => {
            let (actual, expected, field) = if splits_c_len > MAX_FIELD_ITEMS {
                (splits_c_len, MAX_FIELD_ITEMS, "splits_c")
            } else if splits_b_len > MAX_FIELD_ITEMS {
                (splits_b_len, MAX_FIELD_ITEMS, "splits_b")
            } else if splits_a_len > MAX_FIELD_ITEMS {
                (splits_a_len, MAX_FIELD_ITEMS, "splits_a")
            } else if word_structure_len > MAX_FIELD_ITEMS {
                (word_structure_len, MAX_FIELD_ITEMS, "word_structure")
            } else if synonym_groups_len > MAX_FIELD_ITEMS {
                (synonym_groups_len, MAX_FIELD_ITEMS, "synonym_groups")
            } else {
                (user_data_units, MAX_USER_DATA_UNITS, "user_data")
            };
            Err(BuildFailure::InvalidFieldSize { actual, expected, field: String::from_str(field) })
        },
    }
}

/// Whether two lists of references are the same.
fn refs_equal(a: &Vec<DicWordRef>, b: &Vec<DicWordRef>) -> (r: bool)
    ensures
        r == (a@ == b@),
{
    if a.len() != b.len() {
        return false;
    }
    let mut i: usize = 0;
    while i < a.len()
        invariant
            a@.len() == b@.len(),
            i <= a@.len(),
            forall|k: int| 0 <= k < i ==> a@[k] == b@[k],
        decreases a@.len() - i,
    {
        if a[i] != b[i] {
            return false;
        }
        i = i + 1;
    }
    proof {
        assert(a@ =~= b@);
    }
    true
}

impl ResolvedLexiconEntry {
    /// The layout of the variable fields of the entry's record; an error
    /// naming the first field that is too large.
    pub fn variable_layout(&self) -> (r: DicWriteResult<WordInfoVariableLayout>)
        ensures
            ({
                let u = spec_utf16_encode(self.user_data@).len() as usize;
                &&& r is Ok <==> spec_layout_fits(
                    self.splits_c@.len() as usize,
                    self.splits_b@.len() as usize,
                    self.splits_a@.len() as usize,
                    self.word_structure@.len() as usize,
                    self.synonym_groups@.len() as usize,
                    u,
                )
                &&& r matches Ok(l) ==> l == (WordInfoVariableLayout {
                    splits_c_len: self.splits_c@.len() as usize,
                    split_b_eq_c: self.splits_b@ == self.splits_c@,
                    splits_b_len: self.splits_b@.len() as usize,
                    split_a_eq_b: self.splits_a@ == self.splits_b@,
                    splits_a_len: self.splits_a@.len() as usize,
                    word_structure_eq_a: self.word_structure@ == self.splits_a@,
                    word_structure_len: self.word_structure@.len() as usize,
                    synonym_groups_len: self.synonym_groups@.len() as usize,
                    user_data_units: u,
                })
            }),
    {
        variable_layout(
            self.splits_c.len(),
            refs_equal(&self.splits_b, &self.splits_c),
            self.splits_b.len(),
            refs_equal(&self.splits_a, &self.splits_b),
            self.splits_a.len(),
            refs_equal(&self.word_structure, &self.splits_a),
            self.word_structure.len(),
            self.synonym_groups.len(),
            utf16_len(self.user_data.as_str()),
        )
    }
}

} // verus!
