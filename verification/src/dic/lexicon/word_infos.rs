//! Word information records of a lexicon: surface, head word length, part of
//! speech, normalized, dictionary and reading forms, splits and synonym groups.

use vstd::prelude::*;
use vstd::slice::slice_to_vec;

use crate::dic::read::{
    read_i32_le, read_u16_le, read_u32_le, spec_i32_of, spec_len_prefix_ok, spec_len_prefix_size,
    spec_len_prefix_value, spec_u16_le, spec_u32_array_at, spec_u32_le, spec_utf16_string_at,
    string_length_parser, u32_array_at, utf16_string_at,
};
use crate::dic::subset::{
    InfoSubset, DIC_FORM_WORD_ID, HEAD_WORD_LENGTH, NORMALIZED_FORM, POS_ID, READING_FORM,
    SPLIT_A, SPLIT_B, SURFACE, SYNONYM_GROUP_ID, WORD_STRUCTURE,
};
use crate::dic::word_id::WordId;
use crate::error::{SudachiError, SudachiResult};

verus! {

/// Abstract content of word information.
pub ghost struct WordInfoModel {
    pub surface: Seq<char>,
    pub head_word_length: int,
    pub pos_id: int,
    pub normalized_form: Seq<char>,
    pub dictionary_form_word_id: int,
    pub dictionary_form: Seq<char>,
    pub reading_form: Seq<char>,
    pub a_unit_split: Seq<u32>,
    pub b_unit_split: Seq<u32>,
    pub word_structure: Seq<u32>,
    pub synonym_group_ids: Seq<u32>,
}

/// Raw word ids of a sequence of word ids.
pub open spec fn spec_raw_ids(v: Seq<WordId>) -> Seq<u32> {
    v.map_values(|w: WordId| w@)
}

/// Word information with every field empty or zero.
pub open spec fn spec_empty_model() -> WordInfoModel {
    WordInfoModel {
        surface: Seq::empty(),
        head_word_length: 0,
        pos_id: 0,
        normalized_form: Seq::empty(),
        dictionary_form_word_id: 0,
        dictionary_form: Seq::empty(),
        reading_form: Seq::empty(),
        a_unit_split: Seq::empty(),
        b_unit_split: Seq::empty(),
        word_structure: Seq::empty(),
        synonym_group_ids: Seq::empty(),
    }
}

/// The record stored at `p`: surface, head word length, part of speech id,
/// normalized form, dictionary form word id, reading form, A and B splits,
/// word structure and, when the dictionary has them, synonym group ids.
/// The dictionary form itself is not stored and is left empty.
pub open spec fn spec_record_at(b: Seq<u8>, p: int, has_syn: bool) -> Option<WordInfoModel> {
    match spec_utf16_string_at(b, p) {
        None => None,
        Some((surface, p1)) => if !spec_len_prefix_ok(b, p1) {
            None
        } else {
            let hwl = spec_len_prefix_value(b, p1);
            let p2 = p1 + spec_len_prefix_size(b, p1);
            if p2 + 2 > b.len() {
                None
            } else {
                let pos_id = spec_u16_le(b, p2);
                match spec_utf16_string_at(b, p2 + 2) {
                    None => None,
                    Some((norm, p4)) => if p4 + 4 > b.len() {
                        None
                    } else {
                        let dfwi = spec_i32_of(spec_u32_le(b, p4));
                        match spec_utf16_string_at(b, p4 + 4) {
                            None => None,
                            Some((reading, p6)) => match spec_u32_array_at(b, p6) {
                                None => None,
                                Some((a, p7)) => match spec_u32_array_at(b, p7) {
                                    None => None,
                                    Some((bs, p8)) => match spec_u32_array_at(b, p8) {
                                        None => None,
                                        Some((ws, p9)) => {
                                            let syn = if has_syn {
                                                spec_u32_array_at(b, p9)
                                            } else {
                                                Some((Seq::empty(), p9))
                                            };
                                            match syn {
                                                None => None,
                                                Some((sg, _)) => Some(
                                                    WordInfoModel {
                                                        surface,
                                                        head_word_length: hwl,
                                                        pos_id,
                                                        normalized_form: norm,
                                                        dictionary_form_word_id: dfwi,
                                                        dictionary_form: Seq::empty(),
                                                        reading_form: reading,
                                                        a_unit_split: a,
                                                        b_unit_split: bs,
                                                        word_structure: ws,
                                                        synonym_group_ids: sg,
                                                    },
                                                ),
                                            }
                                        },
                                    },
                                },
                            },
                        }
                    },
                }
            }
        },
    }
}

/// The fields of `m` that `subset` selects; the others empty or zero.
pub open spec fn spec_select(m: WordInfoModel, subset: InfoSubset) -> WordInfoModel {
    WordInfoModel {
        surface: if subset.has(SURFACE) {
            m.surface
        } else {
            Seq::empty()
        },
        head_word_length: if subset.has(HEAD_WORD_LENGTH) {
            m.head_word_length
        } else {
            0
        },
        pos_id: if subset.has(POS_ID) {
            m.pos_id
        } else {
            0
        },
        normalized_form: if subset.has(NORMALIZED_FORM) {
            m.normalized_form
        } else {
            Seq::empty()
        },
        dictionary_form_word_id: if subset.has(DIC_FORM_WORD_ID) {
            m.dictionary_form_word_id
        } else {
            0
        },
        dictionary_form: Seq::empty(),
        reading_form: if subset.has(READING_FORM) {
            m.reading_form
        } else {
            Seq::empty()
        },
        a_unit_split: if subset.has(SPLIT_A) {
            m.a_unit_split
        } else {
            Seq::empty()
        },
        b_unit_split: if subset.has(SPLIT_B) {
            m.b_unit_split
        } else {
            Seq::empty()
        },
        word_structure: if subset.has(WORD_STRUCTURE) {
            m.word_structure
        } else {
            Seq::empty()
        },
        synonym_group_ids: if subset.has(SYNONYM_GROUP_ID) {
            m.synonym_group_ids
        } else {
            Seq::empty()
        },
    }
}

/// Position of the record of `word_id`, read from the offset table at `offset`.
pub open spec fn spec_entry_offset(b: Seq<u8>, offset: int, word_id: int) -> Option<int> {
    if 0 <= offset && offset + 4 * word_id + 4 <= b.len() {
        Some(spec_u32_le(b, offset + 4 * word_id))
    } else {
        None
    }
}

/// The fields `subset` selects of the record of `word_id`.
pub open spec fn spec_parsed_info(
    b: Seq<u8>,
    offset: int,
    word_id: int,
    subset: InfoSubset,
    has_syn: bool,
) -> Option<WordInfoModel> {
    match spec_entry_offset(b, offset, word_id) {
        None => None,
        Some(p) => match spec_record_at(b, p, has_syn) {
            None => None,
            Some(m) => Some(spec_select(m, subset)),
        },
    }
}

/// The subset actually read: synonym groups only when the dictionary has them.
pub open spec fn spec_effective_subset(subset: InfoSubset, has_syn: bool) -> InfoSubset {
    if has_syn {
        subset
    } else {
        InfoSubset(subset.0 & !SYNONYM_GROUP_ID)
    }
}

/// Word information of `word_id`: the selected fields of its record, with
/// the dictionary form taken from the surface of the record its dictionary
/// form word id names, when that is another word.
pub open spec fn spec_word_info(
    b: Seq<u8>,
    offset: int,
    word_id: int,
    subset: InfoSubset,
    has_syn: bool,
) -> Option<WordInfoModel> {
    let eff = spec_effective_subset(subset, has_syn);
    match spec_parsed_info(b, offset, word_id, eff, has_syn) {
        None => None,
        Some(m) => if eff.has(DIC_FORM_WORD_ID) && m.dictionary_form_word_id >= 0
            && m.dictionary_form_word_id != word_id {
            match spec_parsed_info(
                b,
                offset,
                m.dictionary_form_word_id,
                InfoSubset(SURFACE),
                has_syn,
            ) {
                None => None,
                Some(d) => Some(WordInfoModel { dictionary_form: d.surface, ..m }),
            }
        } else {
            Some(m)
        },
    }
}

/// Word information records of a lexicon, addressed through an offset table.
pub struct WordInfos {
    bytes: Vec<u8>,
    offset: usize,
    word_size: u32,
    has_synonym_group_ids: bool,
}

/// Stored word information. String fields may be empty, in which case the
/// surface stands for them.
#[derive(Clone, Debug)]
pub struct WordInfoData {
    pub surface: String,
    pub head_word_length: u16,
    pub pos_id: u16,
    pub normalized_form: String,
    pub dictionary_form_word_id: i32,
    pub dictionary_form: String,
    pub reading_form: String,
    pub a_unit_split: Vec<WordId>,
    pub b_unit_split: Vec<WordId>,
    pub word_structure: Vec<WordId>,
    pub synonym_group_ids: Vec<u32>,
}

impl View for WordInfoData {
    type V = WordInfoModel;

    open spec fn view(&self) -> WordInfoModel {
        WordInfoModel {
            surface: self.surface@,
            head_word_length: self.head_word_length as int,
            pos_id: self.pos_id as int,
            normalized_form: self.normalized_form@,
            dictionary_form_word_id: self.dictionary_form_word_id as int,
            dictionary_form: self.dictionary_form@,
            reading_form: self.reading_form@,
            a_unit_split: spec_raw_ids(self.a_unit_split@),
            b_unit_split: spec_raw_ids(self.b_unit_split@),
            word_structure: spec_raw_ids(self.word_structure@),
            synonym_group_ids: self.synonym_group_ids@,
        }
    }
}

impl Default for WordInfoData {
    fn default() -> (r: WordInfoData)
        ensures
            r@ == spec_empty_model(),
    {
        WordInfoData::empty()
    }
}

impl WordInfoData {
    /// A copy of the data.
    pub fn duplicate(&self) -> (r: WordInfoData)
        ensures
            r@ == self@,
    {
        WordInfoData {
            surface: self.surface.clone(),
            head_word_length: self.head_word_length,
            pos_id: self.pos_id,
            normalized_form: self.normalized_form.clone(),
            dictionary_form_word_id: self.dictionary_form_word_id,
            dictionary_form: self.dictionary_form.clone(),
            reading_form: self.reading_form.clone(),
            a_unit_split: copy_word_ids(&self.a_unit_split),
            b_unit_split: copy_word_ids(&self.b_unit_split),
            word_structure: copy_word_ids(&self.word_structure),
            synonym_group_ids: copy_u32s(&self.synonym_group_ids),
        }
    }

    /// Word information with every field empty or zero.
    pub fn empty() -> (r: WordInfoData)
        ensures
            r@ == spec_empty_model(),
    {
        let r = WordInfoData {
            surface: String::new(),
            head_word_length: 0,
            pos_id: 0,
            normalized_form: String::new(),
            dictionary_form_word_id: 0,
            dictionary_form: String::new(),
            reading_form: String::new(),
            a_unit_split: Vec::new(),
            b_unit_split: Vec::new(),
            word_structure: Vec::new(),
            synonym_group_ids: Vec::new(),
        };
        assert(spec_raw_ids(r.a_unit_split@) =~= Seq::empty());
        assert(spec_raw_ids(r.b_unit_split@) =~= Seq::empty());
        assert(spec_raw_ids(r.word_structure@) =~= Seq::empty());
        r
    }
}

/// A copy of a list of word ids.
fn copy_word_ids(v: &Vec<WordId>) -> (r: Vec<WordId>)
    ensures
        r@ == v@,
{
    let mut out: Vec<WordId> = Vec::with_capacity(v.len());
    let n = v.len();
    let mut i: usize = 0;
    while i < n
        invariant
            i <= n,
            n == v@.len(),
            out@ == v@.take(i as int),
        decreases n - i,
    {
        out.push(v[i]);
        proof {
            assert(v@.take(i as int + 1) =~= v@.take(i as int).push(v@[i as int]));
        }
        i = i + 1;
    }
    proof {
        assert(v@.take(n as int) =~= v@);
    }
    out
}

/// A copy of a list of `u32` values.
fn copy_u32s(v: &Vec<u32>) -> (r: Vec<u32>)
    ensures
        r@ == v@,
{
    let mut out: Vec<u32> = Vec::with_capacity(v.len());
    let n = v.len();
    let mut i: usize = 0;
    while i < n
        invariant
            i <= n,
            n == v@.len(),
            out@ == v@.take(i as int),
        decreases n - i,
    {
        out.push(v[i]);
        proof {
            assert(v@.take(i as int + 1) =~= v@.take(i as int).push(v@[i as int]));
        }
        i = i + 1;
    }
    proof {
        assert(v@.take(n as int) =~= v@);
    }
    out
}

/// Word ids with the given raw values.
fn to_word_ids(raw: &Vec<u32>) -> (r: Vec<WordId>)
    ensures
        spec_raw_ids(r@) == raw@,
{
    let mut out: Vec<WordId> = Vec::with_capacity(raw.len());
    let n = raw.len();
    let mut i: usize = 0;
    while i < n
        invariant
            i <= n,
            n == raw@.len(),
            spec_raw_ids(out@) =~= raw@.take(i as int),
        decreases n - i,
    {
        out.push(WordId::from_raw(raw[i]));
        proof {
            assert(raw@.take(i as int + 1) =~= raw@.take(i as int).push(raw@[i as int]));
        }
        i = i + 1;
    }
    proof {
        assert(raw@.take(n as int) =~= raw@);
    }
    out
}

impl WordInfos {
    /// The bytes the records are read from.
    pub closed spec fn spec_bytes(&self) -> Seq<u8> {
        self.bytes@
    }

    /// Position of the offset table.
    pub closed spec fn spec_offset(&self) -> usize {
        self.offset
    }

    /// Whether records carry synonym group ids.
    pub closed spec fn spec_has_synonym_group_ids(&self) -> bool {
        self.has_synonym_group_ids
    }

    /// Number of words.
    pub closed spec fn spec_word_size(&self) -> u32 {
        self.word_size
    }

    /// Records in `bytes` whose offset table starts at `offset`.
    pub fn new(bytes: &[u8], offset: usize, word_size: u32, has_synonym_group_ids: bool) -> (r:
        WordInfos)
        ensures
            r.spec_bytes() == bytes@,
            r.spec_offset() == offset,
            r.spec_word_size() == word_size,
            r.spec_has_synonym_group_ids() == has_synonym_group_ids,
    {
        WordInfos { bytes: slice_to_vec(bytes), offset, word_size, has_synonym_group_ids }
    }

    /// Position of the record of `word_id`.
    fn word_id_to_offset(&self, word_id: u32) -> (r: SudachiResult<usize>)
        ensures
            r is Ok <==> spec_entry_offset(self.bytes@, self.offset as int, word_id as int) is Some,
            r matches Ok(p) ==> spec_entry_offset(self.bytes@, self.offset as int, word_id as int)
                == Some(p as int),
    {
        let blen = self.bytes.len();
        if self.offset > blen || (blen - self.offset) / 4 <= word_id as usize {
            return Err(SudachiError::InvalidDataFormat(self.offset));
        }
        let (v, _) = read_u32_le(self.bytes.as_slice(), self.offset + 4 * word_id as usize)?;
        Ok(v as usize)
    }

    /// Reads the record at `pos`, keeping the fields `subset` selects.
    fn parse_record(&self, pos: usize, subset: InfoSubset) -> (r: SudachiResult<WordInfoData>)
        ensures
            r is Ok <==> spec_record_at(self.bytes@, pos as int, self.has_synonym_group_ids) is Some,
            r matches Ok(d) ==> d@ == spec_select(
                spec_record_at(self.bytes@, pos as int, self.has_synonym_group_ids)->0,
                subset,
            ),
    {
        let buf = self.bytes.as_slice();
        let (surface, p1) = utf16_string_at(buf, pos)?;
        let (hwl, p2) = string_length_parser(buf, p1)?;
        let (pos_id, p3) = read_u16_le(buf, p2)?;
        let (normalized_form, p4) = utf16_string_at(buf, p3)?;
        let (dfwi, p5) = read_i32_le(buf, p4)?;
        let (reading_form, p6) = utf16_string_at(buf, p5)?;
        let (a, p7) = u32_array_at(buf, p6)?;
        let (b, p8) = u32_array_at(buf, p7)?;
        let (ws, p9) = u32_array_at(buf, p8)?;
        let sg = if self.has_synonym_group_ids {
            let (sg, _) = u32_array_at(buf, p9)?;
            sg
        } else {
            Vec::new()
        };
        let mut data = WordInfoData::empty();
        if subset.contains(SURFACE) {
            data.surface = surface;
        }
        if subset.contains(HEAD_WORD_LENGTH) {
            data.head_word_length = hwl;
        }
        if subset.contains(POS_ID) {
            data.pos_id = pos_id;
        }
        if subset.contains(NORMALIZED_FORM) {
            data.normalized_form = normalized_form;
        }
        if subset.contains(DIC_FORM_WORD_ID) {
            data.dictionary_form_word_id = dfwi;
        }
        if subset.contains(READING_FORM) {
            data.reading_form = reading_form;
        }
        if subset.contains(SPLIT_A) {
            data.a_unit_split = to_word_ids(&a);
        }
        if subset.contains(SPLIT_B) {
            data.b_unit_split = to_word_ids(&b);
        }
        if subset.contains(WORD_STRUCTURE) {
            data.word_structure = to_word_ids(&ws);
        }
        if subset.contains(SYNONYM_GROUP_ID) {
            data.synonym_group_ids = sg;
        }
        Ok(data)
    }

    /// The fields `subset` selects of the record of `word_id`.
    fn parse_word_info(&self, word_id: u32, subset: InfoSubset) -> (r: SudachiResult<WordInfoData>)
        ensures
            r is Ok <==> spec_parsed_info(
                self.bytes@,
                self.offset as int,
                word_id as int,
                subset,
                self.has_synonym_group_ids,
            ) is Some,
            r matches Ok(d) ==> Some(d@) == spec_parsed_info(
                self.bytes@,
                self.offset as int,
                word_id as int,
                subset,
                self.has_synonym_group_ids,
            ),
    {
        let index = self.word_id_to_offset(word_id)?;
        self.parse_record(index, subset)
    }

    /// Word information of `word_id` with the fields `subset` selects; the
    /// dictionary form is the surface of the word the dictionary form word id
    /// names, when that is another word.
    pub fn get_word_info(&self, word_id: u32, subset: InfoSubset) -> (r: SudachiResult<WordInfo>)
        ensures
            r is Ok <==> spec_word_info(
                self.spec_bytes(),
                self.spec_offset() as int,
                word_id as int,
                subset,
                self.spec_has_synonym_group_ids(),
            ) is Some,
            r matches Ok(w) ==> Some(w@) == spec_word_info(
                self.spec_bytes(),
                self.spec_offset() as int,
                word_id as int,
                subset,
                self.spec_has_synonym_group_ids(),
            ),
    {
        let subset = if !self.has_synonym_group_ids {
            subset.remove(SYNONYM_GROUP_ID)
        } else {
            subset
        };
        let mut word_info = self.parse_word_info(word_id, subset)?;
        if subset.contains(DIC_FORM_WORD_ID) {
            let dfwi = word_info.dictionary_form_word_id;
            if dfwi >= 0 && dfwi as u32 != word_id {
                let inner = self.parse_word_info(dfwi as u32, InfoSubset(SURFACE))?;
                word_info.dictionary_form = inner.surface;
            }
        }
        Ok(WordInfo { data: word_info })
    }
}

/// Word information, with the forms that are not stored falling back to the surface.
#[derive(Clone, Debug)]
pub struct WordInfo {
    data: WordInfoData,
}

impl View for WordInfo {
    type V = WordInfoModel;

    closed spec fn view(&self) -> WordInfoModel {
        self.data@
    }
}

impl WordInfo {
    /// Head word length and part of speech id fit 16 bits, and the
    /// dictionary form word id fits 32 bits.
    pub proof fn lemma_bounds(&self)
        ensures
            0 <= self@.head_word_length <= u16::MAX,
            0 <= self@.pos_id <= u16::MAX,
            i32::MIN <= self@.dictionary_form_word_id <= i32::MAX,
    {
    }

    /// A copy of the word information.
    pub fn duplicate(&self) -> (r: WordInfo)
        ensures
            r@ == self@,
    {
        WordInfo { data: self.data.duplicate() }
    }

    /// Word information holding the given data.
    pub fn from_data(data: WordInfoData) -> (r: WordInfo)
        ensures
            r@ == data@,
    {
        WordInfo { data }
    }

    /// The data, consuming the word information.
    pub fn into_data(self) -> (r: WordInfoData)
        ensures
            r@ == self@,
    {
        self.data
    }

    /// The surface form.
    pub fn surface(&self) -> (r: &str)
        ensures
            r@ == self@.surface,
    {
        self.data.surface.as_str()
    }

    /// Length of the head word in bytes.
    pub fn head_word_length(&self) -> (r: usize)
        ensures
            r == self@.head_word_length,
    {
        self.data.head_word_length as usize
    }

    /// Part of speech id.
    pub fn pos_id(&self) -> (r: u16)
        ensures
            r == self@.pos_id,
    {
        self.data.pos_id
    }

    /// Normalized form; the surface when none is stored.
    pub fn normalized_form(&self) -> (r: &str)
        ensures
            r@ == (if self@.normalized_form.len() == 0 {
                self@.surface
            } else {
                self@.normalized_form
            }),
    {
        if self.data.normalized_form.as_str().is_empty() {
            self.surface()
        } else {
            self.data.normalized_form.as_str()
        }
    }

    /// Word id of the dictionary form, or a negative value when there is none.
    pub fn dictionary_form_word_id(&self) -> (r: i32)
        ensures
            r == self@.dictionary_form_word_id,
    {
        self.data.dictionary_form_word_id
    }

    /// Dictionary form; the surface when none is stored.
    pub fn dictionary_form(&self) -> (r: &str)
        ensures
            r@ == (if self@.dictionary_form.len() == 0 {
                self@.surface
            } else {
                self@.dictionary_form
            }),
    {
        if self.data.dictionary_form.as_str().is_empty() {
            self.surface()
        } else {
            self.data.dictionary_form.as_str()
        }
    }

    /// Reading form; the surface when none is stored.
    pub fn reading_form(&self) -> (r: &str)
        ensures
            r@ == (if self@.reading_form.len() == 0 {
                self@.surface
            } else {
                self@.reading_form
            }),
    {
        if self.data.reading_form.as_str().is_empty() {
            self.surface()
        } else {
            self.data.reading_form.as_str()
        }
    }

    /// Word ids of the A unit split.
    pub fn a_unit_split(&self) -> (r: &[WordId])
        ensures
            spec_raw_ids(r@) == self@.a_unit_split,
    {
        self.data.a_unit_split.as_slice()
    }

    /// Word ids of the B unit split.
    pub fn b_unit_split(&self) -> (r: &[WordId])
        ensures
            spec_raw_ids(r@) == self@.b_unit_split,
    {
        self.data.b_unit_split.as_slice()
    }

    /// Word ids of the word structure.
    pub fn word_structure(&self) -> (r: &[WordId])
        ensures
            spec_raw_ids(r@) == self@.word_structure,
    {
        self.data.word_structure.as_slice()
    }

    /// Synonym group ids.
    pub fn synonym_group_ids(&self) -> (r: &[u32])
        ensures
            r@ == self@.synonym_group_ids,
    {
        self.data.synonym_group_ids.as_slice()
    }

    /// The stored data.
    pub fn borrow_data(&self) -> (r: &WordInfoData)
        ensures
            r@ == self@,
    {
        &self.data
    }
}

} // verus!
