//! Morphemes: the items of an analysis result, and standalone morphemes made
//! of a single dictionary entry.

use vstd::prelude::*;
use vstd::slice::slice_to_vec;
use vstd::utf8::encode_utf8;

use crate::analysis::mlist::{spec_all_fit, spec_no_split, spec_num_splits, spec_node_split_ok, spec_split_parts, MorphemeList};
use crate::analysis::mode::Mode;
use crate::analysis::node::{spec_node_fits, LatticeNode, PathCost, ResultNode};
use crate::dic::dictionary::JapaneseDictionary;
use crate::dic::lexicon::word_infos::{spec_raw_ids, WordInfo, WordInfoData, WordInfoModel};
use crate::dic::subset::{InfoSubset, DIC_FORM_WORD_ID, SPLIT_A, SPLIT_B, SURFACE};
use crate::dic::word_id::{spec_dic_of, spec_raw_of, spec_word_of, WordId, MAX_WORD, OOV_DIC};
use crate::error::{SudachiError, SudachiResult};
use crate::input_text::{spec_byte_offset, str_sizes};
use crate::util::{decimal_string, spec_decimal};

verus! {

/// Dictionary id reported for a word: -1 for out-of-vocabulary words.
pub open spec fn spec_dictionary_id(w: WordId) -> i32 {
    if spec_dic_of(w@) == OOV_DIC as int {
        -1i32
    } else {
        spec_dic_of(w@) as i32
    }
}

/// The dictionary id reported for a word names the dictionary the word
/// comes from: the dictionary part of its word id, the index of its
/// lexicon in the set (0 for the system dictionary, 1 and up for user
/// dictionaries), and -1 only for unknown words.
pub proof fn lemma_dictionary_id_names_lexicon(w: WordId)
    ensures
        spec_dic_of(w@) != OOV_DIC as int ==> spec_dictionary_id(w) as int == spec_dic_of(w@),
        spec_dic_of(w@) == OOV_DIC as int ==> spec_dictionary_id(w) == -1,
{
    assert(0 <= spec_dic_of(w@) < 16) by (nonlinear_arith)
        requires
            spec_dic_of(w@) == w@ as int / 0x1000_0000,
            0 <= w@ < 0x1_0000_0000,
    ;
}

/// The fields a standalone morpheme reads: those asked for, and the surface.
pub open spec fn spec_headword_subset(subset: InfoSubset) -> InfoSubset {
    InfoSubset(subset.0 | SURFACE)
}

/// Whether word `raw` of `dict` can make a standalone morpheme reading the
/// fields `subset` selects: it is a dictionary word (not the invalid id, an
/// unknown word or a sentence boundary), it has parameters, and its word
/// information can be read.
pub open spec fn spec_single_ok(dict: &JapaneseDictionary, raw: u32, subset: InfoSubset) -> bool {
    let lex = dict.spec_lexicon();
    &&& raw != u32::MAX
    &&& spec_dic_of(raw) != OOV_DIC as int
    &&& raw != u32::MAX - 1
    &&& spec_dic_of(raw) < lex.spec_lexicons().len()
    &&& spec_word_of(raw) < lex.spec_lexicons()[spec_dic_of(raw)].spec_params().len()
    &&& lex.spec_word_info(WordId::spec_from_raw(raw), spec_headword_subset(subset)) is Some
}

/// Surface of word `raw` as a standalone morpheme reads it.
pub open spec fn spec_part_surface(dict: &JapaneseDictionary, raw: u32, subset: InfoSubset) -> Seq<
    char,
> {
    match dict.spec_lexicon().spec_word_info(
        WordId::spec_from_raw(raw),
        spec_headword_subset(subset),
    ) {
        Some(m) => m.surface,
        None => Seq::empty(),
    }
}

/// Total UTF-8 length of the surfaces of words `ids`.
pub open spec fn spec_parts_bytes(dict: &JapaneseDictionary, ids: Seq<u32>, subset: InfoSubset) -> int
    decreases ids.len(),
{
    if ids.len() == 0 {
        0
    } else {
        spec_parts_bytes(dict, ids.drop_last(), subset) + encode_utf8(
            spec_part_surface(dict, ids.last(), subset),
        ).len()
    }
}

/// Total number of characters of the surfaces of words `ids`.
pub open spec fn spec_parts_chars(dict: &JapaneseDictionary, ids: Seq<u32>, subset: InfoSubset) -> int
    decreases ids.len(),
{
    if ids.len() == 0 {
        0
    } else {
        spec_parts_chars(dict, ids.drop_last(), subset) + spec_part_surface(
            dict,
            ids.last(),
            subset,
        ).len()
    }
}

/// The totals over a prefix of the words never exceed those over all of them.
pub proof fn lemma_parts_prefix(dict: &JapaneseDictionary, ids: Seq<u32>, subset: InfoSubset, k: int)
    requires
        0 <= k <= ids.len(),
    ensures
        0 <= spec_parts_bytes(dict, ids.take(k), subset) <= spec_parts_bytes(dict, ids, subset),
        0 <= spec_parts_chars(dict, ids.take(k), subset) <= spec_parts_chars(dict, ids, subset),
    decreases ids.len(),
{
    if k == ids.len() {
        assert(ids.take(k) =~= ids);
        lemma_parts_nonneg(dict, ids, subset);
    } else {
        lemma_parts_prefix(dict, ids.drop_last(), subset, k);
        assert(ids.drop_last().take(k) =~= ids.take(k));
    }
}

/// The totals are never negative.
proof fn lemma_parts_nonneg(dict: &JapaneseDictionary, ids: Seq<u32>, subset: InfoSubset)
    ensures
        spec_parts_bytes(dict, ids, subset) >= 0,
        spec_parts_chars(dict, ids, subset) >= 0,
    decreases ids.len(),
{
    if ids.len() > 0 {
        lemma_parts_nonneg(dict, ids.drop_last(), subset);
    }
}

/// Text of a morpheme: a slice of the analyzed sentence, or the head word of
/// a dictionary entry.
pub enum MorphemeSurface<'a> {
    Input(String),
    Headword(&'a str),
}

impl<'a> MorphemeSurface<'a> {
    /// The characters of the text.
    pub open spec fn spec_text(&self) -> Seq<char> {
        match self {
            MorphemeSurface::Input(s) => s@,
            MorphemeSurface::Headword(s) => s@,
        }
    }

    /// The text.
    pub fn as_str(&self) -> (r: &str)
        ensures
            r@ == self.spec_text(),
    {
        match self {
            MorphemeSurface::Input(s) => s.as_str(),
            MorphemeSurface::Headword(s) => s,
        }
    }
}

/// Marks the types that may be morphemes.
pub trait Sealed {

}

/// What every kind of morpheme tells of itself.
pub trait MorphemeView: Sealed {
    /// Byte offset of the start.
    fn begin(&self) -> usize;

    /// Byte offset of the end.
    fn end(&self) -> usize;

    /// Character offset of the start.
    fn begin_c(&self) -> usize;

    /// Character offset of the end.
    fn end_c(&self) -> usize;

    /// The word id.
    fn word_id(&self) -> WordId;

    /// Part of speech id.
    fn part_of_speech_id(&self) -> u16;

    /// Whether the word is out of vocabulary.
    fn is_oov(&self) -> bool;

    /// The dictionary of the word, -1 for an unknown word.
    fn dictionary_id(&self) -> i32;
}

/// A morpheme of an analysis result: an index into a morpheme list.
#[derive(Clone, Copy)]
pub struct Morpheme<'l, 'a> {
    list: &'l MorphemeList<'a>,
    index: usize,
}

impl<'l, 'a> Morpheme<'l, 'a> {
    #[verifier::type_invariant]
    spec fn inv(&self) -> bool {
        self.index < self.list.spec_nodes().len()
    }

    /// The list the morpheme belongs to.
    pub closed spec fn spec_list(&self) -> &'l MorphemeList<'a> {
        self.list
    }

    /// Position of the morpheme in its list.
    pub closed spec fn spec_index(&self) -> usize {
        self.index
    }

    /// The node of the morpheme.
    pub open spec fn spec_node(&self) -> ResultNode {
        self.spec_list().spec_nodes()[self.spec_index() as int]
    }

    /// The analyzed sentence.
    pub open spec fn spec_text(&self) -> Seq<char> {
        self.spec_list().spec_input().spec_text()
    }

    /// The dictionary.
    pub open spec fn spec_dict(&self) -> &'a JapaneseDictionary {
        self.spec_list().spec_dict()
    }

    /// Word information of the morpheme.
    pub open spec fn spec_info(&self) -> WordInfoModel {
        self.spec_node().spec_info()
    }

    /// Word id of the morpheme.
    pub open spec fn spec_word_id(&self) -> WordId {
        self.spec_node().spec_inner().spec_word_id()
    }

    /// Character offset of the start.
    pub open spec fn spec_begin_c(&self) -> int {
        self.spec_node().spec_inner().spec_begin() as int
    }

    /// Character offset of the end.
    pub open spec fn spec_end_c(&self) -> int {
        self.spec_node().spec_inner().spec_end() as int
    }

    /// Byte offset of the start.
    pub open spec fn spec_begin(&self) -> int {
        spec_byte_offset(self.spec_text(), self.spec_begin_c())
    }

    /// Byte offset of the end.
    pub open spec fn spec_end(&self) -> int {
        spec_byte_offset(self.spec_text(), self.spec_end_c())
    }

    /// The morpheme at `index` of `list`.
    pub(crate) fn for_list(list: &'l MorphemeList<'a>, index: usize) -> (r: Morpheme<'l, 'a>)
        requires
            index < list.spec_nodes().len(),
        ensures
            r.spec_list() == list,
            r.spec_index() == index,
    {
        Morpheme { list, index }
    }

    /// The node of the morpheme, which lies inside the sentence.
    pub(crate) fn node(&self) -> (r: &'l ResultNode)
        ensures
            *r == self.spec_node(),
            spec_node_fits(*r, self.spec_text()),
            self.spec_index() < self.spec_list().spec_nodes().len(),
    {
        proof {
            use_type_invariant(self);
        }
        let input = self.list.input();
        proof {
            assert(spec_node_fits(self.list.spec_nodes()[self.index as int], input.spec_text()));
        }
        self.list.node(self.index)
    }

    /// Components of the part of speech.
    pub fn part_of_speech(&self) -> (r: &'l [String])
        requires
            self.spec_info().pos_id < self.spec_dict().spec_grammar().spec_pos_vec().len(),
        ensures
            r@ == self.spec_dict().spec_grammar().spec_pos_vec()[self.spec_info().pos_id]@,
    {
        let pos = self.part_of_speech_id();
        self.list.dict().grammar().pos_components(pos)
    }

    /// Byte offset of the start in the sentence.
    pub fn begin(&self) -> (r: usize)
        ensures
            r == self.spec_begin(),
    {
        let node = self.node();
        node.begin_bytes()
    }

    /// Byte offset of the end in the sentence.
    pub fn end(&self) -> (r: usize)
        ensures
            r == self.spec_end(),
    {
        let node = self.node();
        node.end_bytes()
    }

    /// Character offset of the start in the sentence.
    pub fn begin_c(&self) -> (r: usize)
        ensures
            r == self.spec_begin_c(),
    {
        let node = self.node();
        self.list.input().to_orig_char_idx(LatticeNode::begin(node))
    }

    /// Character offset of the end in the sentence.
    pub fn end_c(&self) -> (r: usize)
        ensures
            r == self.spec_end_c(),
    {
        let node = self.node();
        self.list.input().to_orig_char_idx(LatticeNode::end(node))
    }

    /// The part of the sentence the morpheme covers.
    pub fn surface(&self) -> (r: String)
        ensures
            r@ == self.spec_text().subrange(self.spec_begin_c(), self.spec_end_c()),
    {
        let node = self.node();
        let input = self.list.input();
        input.curr_slice_c(LatticeNode::begin(node), LatticeNode::end(node))
    }

    /// Part of speech id.
    pub fn part_of_speech_id(&self) -> (r: u16)
        ensures
            r == self.spec_info().pos_id,
    {
        self.node().word_info().pos_id()
    }

    /// Dictionary form; the surface of the entry when none is stored.
    pub fn dictionary_form(&self) -> (r: &'l str)
        ensures
            r@ == (if self.spec_info().dictionary_form.len() == 0 {
                self.spec_info().surface
            } else {
                self.spec_info().dictionary_form
            }),
    {
        self.node().word_info().dictionary_form()
    }

    /// Normalized form; the surface of the entry when none is stored.
    pub fn normalized_form(&self) -> (r: &'l str)
        ensures
            r@ == (if self.spec_info().normalized_form.len() == 0 {
                self.spec_info().surface
            } else {
                self.spec_info().normalized_form
            }),
    {
        self.node().word_info().normalized_form()
    }

    /// Reading form; the surface of the entry when none is stored.
    pub fn reading_form(&self) -> (r: &'l str)
        ensures
            r@ == (if self.spec_info().reading_form.len() == 0 {
                self.spec_info().surface
            } else {
                self.spec_info().reading_form
            }),
    {
        self.node().word_info().reading_form()
    }

    /// Whether the word is out of vocabulary.
    pub fn is_oov(&self) -> (r: bool)
        ensures
            r == (spec_dic_of(self.spec_word_id()@) == OOV_DIC as int),
    {
        self.word_id().is_oov()
    }

    /// The word id.
    pub fn word_id(&self) -> (r: WordId)
        ensures
            r == self.spec_word_id(),
    {
        LatticeNode::word_id(self.node())
    }

    /// The dictionary of the word, -1 for an unknown word.
    pub fn dictionary_id(&self) -> (r: i32)
        ensures
            r == spec_dictionary_id(self.spec_word_id()),
            spec_dic_of(self.spec_word_id()@) != OOV_DIC as int ==> r as int == spec_dic_of(
                self.spec_word_id()@,
            ),
            spec_dic_of(self.spec_word_id()@) == OOV_DIC as int ==> r == -1,
    {
        proof {
            lemma_dictionary_id_names_lexicon(self.spec_word_id());
        }
        let wid = self.word_id();
        if wid.is_oov() {
            -1
        } else {
            wid.dic() as i32
        }
    }

    /// Synonym group ids.
    pub fn synonym_group_ids(&self) -> (r: &'l [u32])
        ensures
            r@ == self.spec_info().synonym_group_ids,
    {
        self.node().word_info().synonym_group_ids()
    }

    /// Word information.
    pub fn get_word_info(&self) -> (r: &'l WordInfo)
        ensures
            r@ == self.spec_info(),
    {
        self.node().word_info()
    }

    /// Position of the morpheme in its list.
    pub fn index(&self) -> (r: usize)
        ensures
            r == self.spec_index(),
    {
        self.index
    }

    /// Total cost of the best path up to the end of the morpheme.
    pub fn total_cost(&self) -> (r: i32)
        ensures
            r == self.spec_node().spec_total_cost(),
    {
        PathCost::total_cost(self.node())
    }

    /// Appends to `out` the parts the morpheme splits into in `mode`,
    /// without clearing it; returns whether there were more than two parts.
    /// `out` takes the sentence of this morpheme when it holds no morpheme.
    pub fn split_into(&self, mode: Mode, out: &mut MorphemeList<'a>) -> (r: SudachiResult<bool>)
        requires
            old(out).spec_nodes().len() == 0 || old(out).spec_input().spec_text()
                == self.spec_text(),
        ensures
            spec_no_split(self.spec_node(), mode) ==> (r matches Ok(false) && *final(out) == *old(out)),
            r matches Ok(b) ==> b == (spec_num_splits(self.spec_node(), mode) > 2),
            final(out).spec_dict() == old(out).spec_dict(),
            final(out).spec_subset() == old(out).spec_subset(),
            final(out).spec_nodes().len() >= old(out).spec_nodes().len(),
            final(out).spec_nodes().take(old(out).spec_nodes().len() as int) == old(
                out,
            ).spec_nodes(),
            r is Ok && !spec_no_split(self.spec_node(), mode) ==> final(out).spec_input().spec_text() == self.spec_text(),
            r is Ok <==> (spec_no_split(self.spec_node(), mode) || spec_node_split_ok(
                self.spec_node(),
                mode,
                &self.spec_dict().spec_lexicon(),
                self.spec_list().spec_subset(),
                self.spec_text(),
            )),
            r is Ok && !spec_no_split(self.spec_node(), mode) ==> spec_split_parts(
                final(out).spec_nodes().skip(old(out).spec_nodes().len() as int),
                self.spec_node(),
                mode,
                &self.spec_dict().spec_lexicon(),
                self.spec_list().spec_subset(),
                self.spec_text(),
            ),
    {
        proof {
            use_type_invariant(self);
        }
        self.list.split_into(mode, self.index, out)
    }

    /// A new list of the parts the morpheme splits into in `mode`; an empty
    /// list when it does not split.
    pub fn split(&self, mode: Mode) -> (r: SudachiResult<MorphemeList<'a>>)
        ensures
            r matches Ok(l) ==> l.spec_dict() == self.spec_dict() && l.spec_input().spec_text()
                == self.spec_text(),
            r matches Ok(l) ==> l.spec_subset() == self.spec_list().spec_subset(),
            r is Ok <==> (spec_no_split(self.spec_node(), mode) || spec_node_split_ok(
                self.spec_node(),
                mode,
                &self.spec_dict().spec_lexicon(),
                self.spec_list().spec_subset(),
                self.spec_text(),
            )),
            r matches Ok(l) ==> if spec_no_split(self.spec_node(), mode) {
                l.spec_nodes().len() == 0
            } else {
                spec_split_parts(
                    l.spec_nodes(),
                    self.spec_node(),
                    mode,
                    &self.spec_dict().spec_lexicon(),
                    self.spec_list().spec_subset(),
                    self.spec_text(),
                )
            },
    {
        proof {
            use_type_invariant(self);
        }
        self.list.split(mode, self.index)
    }

    /// The morpheme of the dictionary form: this one when the word is
    /// unknown or a sentence boundary, or when its entry names no other
    /// entry of the same dictionary as its dictionary form; otherwise a
    /// standalone morpheme of that entry. An error when an entry cannot be read.
    pub fn dictionary_form_morpheme(&self) -> (r: SudachiResult<MorphemeRef<'l, 'a>>)
        ensures
            match spec_dic_form(self.spec_dict(), self.spec_word_id()) {
                None => r is Err,
                Some(None) => r == Ok::<MorphemeRef<'l, 'a>, SudachiError>(
                    MorphemeRef::ListItem(*self),
                ),
                Some(Some(t)) => if spec_single_ok(
                    self.spec_dict(),
                    t,
                    self.spec_list().spec_subset(),
                ) {
                    r matches Ok(MorphemeRef::Single(s)) && s.spec_is_entry(
                        self.spec_dict(),
                        t,
                        self.spec_list().spec_subset(),
                    )
                } else {
                    r is Err
                },
            },
    {
        let dict = self.list.dict();
        let word_id = self.word_id();
        let subset = self.list.subset();
        match resolve_dictionary_form(dict, word_id, subset)? {
            None => Ok(MorphemeRef::ListItem(*self)),
            Some(m) => Ok(MorphemeRef::Single(Box::new(m))),
        }
    }

    /// The morpheme of the normalized form. Records hold no word id for the
    /// normalized form, so this is always the morpheme itself.
    pub fn normalized_form_morpheme(&self) -> (r: SudachiResult<MorphemeRef<'l, 'a>>)
        ensures
            r == Ok::<MorphemeRef<'l, 'a>, SudachiError>(MorphemeRef::ListItem(*self)),
    {
        Ok(MorphemeRef::ListItem(*self))
    }
}

impl<'l, 'a> Sealed for Morpheme<'l, 'a> {

}

impl<'l, 'a> MorphemeView for Morpheme<'l, 'a> {
    fn begin(&self) -> (r: usize)
        ensures
            r == self.spec_begin(),
    {
        Morpheme::begin(self)
    }

    fn end(&self) -> (r: usize)
        ensures
            r == self.spec_end(),
    {
        Morpheme::end(self)
    }

    fn begin_c(&self) -> (r: usize)
        ensures
            r == self.spec_begin_c(),
    {
        Morpheme::begin_c(self)
    }

    fn end_c(&self) -> (r: usize)
        ensures
            r == self.spec_end_c(),
    {
        Morpheme::end_c(self)
    }

    fn word_id(&self) -> (r: WordId)
        ensures
            r == self.spec_word_id(),
    {
        Morpheme::word_id(self)
    }

    fn part_of_speech_id(&self) -> (r: u16)
        ensures
            r == self.spec_info().pos_id,
    {
        Morpheme::part_of_speech_id(self)
    }

    fn is_oov(&self) -> (r: bool)
        ensures
            r == (spec_dic_of(self.spec_word_id()@) == OOV_DIC as int),
    {
        Morpheme::is_oov(self)
    }

    fn dictionary_id(&self) -> (r: i32)
        ensures
            r == spec_dictionary_id(self.spec_word_id()),
    {
        Morpheme::dictionary_id(self)
    }
}

/// Where the dictionary form of word `w` leads: `None` when its entry
/// cannot be read, `Some(None)` when it is the word itself (unknown words,
/// sentence boundaries, and entries naming no other entry), `Some(Some(t))`
/// for another entry `t` of the same dictionary.
pub open spec fn spec_dic_form(dict: &JapaneseDictionary, w: WordId) -> Option<Option<u32>> {
    if spec_dic_of(w@) == OOV_DIC as int || w@ == u32::MAX - 1 {
        Some(None)
    } else {
        match dict.spec_lexicon().spec_word_info(w, InfoSubset(DIC_FORM_WORD_ID)) {
            None => None,
            Some(m) => {
                let d = m.dictionary_form_word_id;
                let t = spec_raw_of(spec_dic_of(w@), d);
                if 0 <= d <= MAX_WORD && t != w@ {
                    Some(Some(t as u32))
                } else {
                    Some(None)
                }
            },
        }
    }
}

/// Checks that `word_id` names an entry of `dict` with parameters.
pub(crate) fn validate_dictionary_word_id(dict: &JapaneseDictionary, word_id: WordId) -> (r:
    SudachiResult<()>)
    ensures
        r is Ok <==> ({
            let lex = dict.spec_lexicon();
            &&& word_id@ != u32::MAX
            &&& spec_dic_of(word_id@) != OOV_DIC as int
            &&& word_id@ != u32::MAX - 1
            &&& spec_dic_of(word_id@) < lex.spec_lexicons().len()
            &&& spec_word_of(word_id@) < lex.spec_lexicons()[spec_dic_of(word_id@)].spec_params().len()
        }),
{
    proof {
        use_type_invariant(dict);
    }
    if word_id == WordId::invalid() || word_id.is_oov() || word_id.is_special() {
        return Err(SudachiError::InvalidWordId(word_id));
    }
    match dict.lexicon().get_word_param_checked(word_id) {
        Ok(_) => Ok(()),
        Err(e) => Err(e),
    }
}

/// The standalone morpheme of the dictionary form of word `word_id`, or
/// `None` when that is the word itself.
#[verifier::spinoff_prover]
#[verifier::rlimit(40)]
fn resolve_dictionary_form<'a>(dict: &'a JapaneseDictionary, word_id: WordId, subset: InfoSubset) -> (r:
    SudachiResult<Option<SingleMorpheme<'a>>>)
    ensures
        match spec_dic_form(dict, word_id) {
            None => r is Err,
            Some(None) => r matches Ok(None),
            Some(Some(t)) => if spec_single_ok(dict, t, subset) {
                r matches Ok(Some(s)) && s.spec_is_entry(dict, t, subset)
            } else {
                r is Err
            },
        },
{
    if word_id.is_oov() || word_id.is_special() {
        return Ok(None);
    }
    proof {
        use_type_invariant(dict);
    }
    let info = dict.lexicon().get_word_info_subset(word_id, InfoSubset(DIC_FORM_WORD_ID))?;
    let form = info.dictionary_form_word_id();
    if form < 0 || form as u32 > MAX_WORD {
        return Ok(None);
    }
    let dic = word_id.dic();
    let form_id = WordId::new(dic, form as u32);
    proof {
        WordId::lemma_view_injective(form_id, word_id);
        assert(form_id@ == spec_raw_of(spec_dic_of(word_id@), info@.dictionary_form_word_id));
    }
    if form_id == word_id || form_id.is_oov() || form_id.is_special() {
        return Ok(None);
    }
    let m = SingleMorpheme::from_word_id(dict, form_id, subset);
    match m {
        Ok(m) => Ok(Some(m)),
        Err(e) => Err(e),
    }
}

/// The totals over the first `k + 1` words are those over the first `k`
/// plus the sizes of the surface of word `k`.
proof fn lemma_parts_step(dict: &JapaneseDictionary, ids: Seq<u32>, subset: InfoSubset, k: int)
    requires
        0 <= k < ids.len(),
    ensures
        spec_parts_bytes(dict, ids.take(k + 1), subset) == spec_parts_bytes(dict, ids.take(k), subset)
            + encode_utf8(spec_part_surface(dict, ids[k], subset)).len(),
        spec_parts_chars(dict, ids.take(k + 1), subset) == spec_parts_chars(dict, ids.take(k), subset)
            + spec_part_surface(dict, ids[k], subset).len(),
{
    assert(ids.take(k + 1).drop_last() =~= ids.take(k));
    assert(ids.take(k + 1).last() == ids[k]);
}

/// The standalone morpheme of word `word_id` placed at offsets `begin` and
/// `begin_c`, spanning its surface from there; an error when it cannot be
/// made or its end overflows.
fn place_part<'a>(
    dict: &'a JapaneseDictionary,
    word_id: WordId,
    subset: InfoSubset,
    begin: usize,
    begin_c: usize,
) -> (r: SudachiResult<SingleMorpheme<'a>>)
    ensures
        r is Ok <==> {
            let surface = spec_part_surface(dict, word_id@, subset);
            &&& spec_single_ok(dict, word_id@, subset)
            &&& begin + encode_utf8(surface).len() <= usize::MAX
            &&& begin_c + surface.len() <= usize::MAX
        },
        r matches Ok(m) ==> {
            let surface = spec_part_surface(dict, word_id@, subset);
            &&& m.spec_is_part(dict, word_id@, subset)
            &&& m.spec_begin() == begin
            &&& m.spec_end() == begin + encode_utf8(surface).len()
            &&& m.spec_begin_c() == begin_c
            &&& m.spec_end_c() == begin_c + surface.len()
        },
{
    proof {
        WordId::lemma_from_raw(word_id@);
    }
    let mut m = SingleMorpheme::from_word_id(dict, word_id, subset)?;
    let end = match begin.checked_add(m.end) {
        Some(e) => e,
        None => {
            return Err(SudachiError::InvalidRange(begin, m.end));
        },
    };
    let end_c = match begin_c.checked_add(m.end_c) {
        Some(e) => e,
        None => {
            return Err(SudachiError::InvalidRange(begin_c, m.end_c));
        },
    };
    m.begin = begin;
    m.end = end;
    m.begin_c = begin_c;
    m.end_c = end_c;
    Ok(m)
}

/// Morpheme `m` is part `k` of words `ids` laid one after the other from
/// offsets `begin` and `begin_c`.
pub open spec fn spec_laid_part<'a>(
    m: SingleMorpheme<'a>,
    dict: &'a JapaneseDictionary,
    ids: Seq<u32>,
    subset: InfoSubset,
    begin: int,
    begin_c: int,
    k: int,
) -> bool {
    &&& m.spec_is_part(dict, ids[k], subset)
    &&& m.spec_begin() == begin + spec_parts_bytes(dict, ids.take(k), subset)
    &&& m.spec_end() == begin + spec_parts_bytes(dict, ids.take(k + 1), subset)
    &&& m.spec_begin_c() == begin_c + spec_parts_chars(dict, ids.take(k), subset)
    &&& m.spec_end_c() == begin_c + spec_parts_chars(dict, ids.take(k + 1), subset)
}

/// The standalone morphemes of words `splits` laid one after the other
/// from offsets `begin` and `begin_c`; an error when one cannot be made or
/// an offset overflows.
#[verifier::spinoff_prover]
#[verifier::rlimit(60)]
fn lay_parts<'a>(
    dict: &'a JapaneseDictionary,
    splits: &Vec<WordId>,
    subset: InfoSubset,
    begin: usize,
    begin_c: usize,
) -> (r: SudachiResult<Vec<SingleMorpheme<'a>>>)
    ensures
        ({
            let ids = spec_raw_ids(splits@);
            &&& (r is Ok <==> {
                &&& forall|k: int| 0 <= k < ids.len() ==> spec_single_ok(dict, #[trigger] ids[k], subset)
                &&& begin + spec_parts_bytes(dict, ids, subset) <= usize::MAX
                &&& begin_c + spec_parts_chars(dict, ids, subset) <= usize::MAX
            })
            &&& (r matches Ok(v) ==> v.len() == ids.len() && forall|k: int|
                0 <= k < ids.len() ==> #[trigger] spec_laid_part(
                    v[k],
                    dict,
                    ids,
                    subset,
                    begin as int,
                    begin_c as int,
                    k,
                ))
        }),
{
    let ghost ids = spec_raw_ids(splits@);
    let mut result: Vec<SingleMorpheme<'a>> = Vec::new();
    let mut b = begin;
    let mut bc = begin_c;
    let mut k: usize = 0;
    proof {
        assert(ids.take(0) =~= Seq::<u32>::empty());
    }
    while k < splits.len()
        invariant
            k <= splits@.len(),
            ids == spec_raw_ids(splits@),
            result@.len() == k,
            b == begin + spec_parts_bytes(dict, ids.take(k as int), subset),
            bc == begin_c + spec_parts_chars(dict, ids.take(k as int), subset),
            forall|j: int| 0 <= j < k ==> spec_single_ok(dict, #[trigger] ids[j], subset),
            forall|j: int|
                0 <= j < k ==> #[trigger] spec_laid_part(
                    result@[j],
                    dict,
                    ids,
                    subset,
                    begin as int,
                    begin_c as int,
                    j,
                ),
        decreases splits@.len() - k,
    {
        proof {
            lemma_parts_step(dict, ids, subset, k as int);
            lemma_parts_prefix(dict, ids, subset, k + 1);
        }
        let m = place_part(dict, splits[k], subset, b, bc)?;
        b = m.end;
        bc = m.end_c;
        let ghost before = result@;
        result.push(m);
        proof {
            assert forall|j: int| 0 <= j < k + 1 implies #[trigger] spec_laid_part(
                result@[j],
                dict,
                ids,
                subset,
                begin as int,
                begin_c as int,
                j,
            ) by {
                if j < k {
                    assert(result@[j] == before[j]);
                }
            }
        }
        k = k + 1;
    }
    proof {
        assert(ids.take(k as int) =~= ids);
    }
    Ok(result)
}

/// The word ids of the split of `info` in mode A or B.
fn split_ids(info: &WordInfo, mode: Mode) -> (r: Vec<WordId>)
    requires
        mode != Mode::C,
    ensures
        spec_raw_ids(r@) == (if mode == Mode::A {
            info@.a_unit_split
        } else {
            info@.b_unit_split
        }),
{
    if mode == Mode::A {
        slice_to_vec(info.a_unit_split())
    } else {
        slice_to_vec(info.b_unit_split())
    }
}

/// A morpheme made of a single dictionary entry (or of an unknown word),
/// outside any sentence.
pub struct SingleMorpheme<'a> {
    dict: &'a JapaneseDictionary,
    word_id: WordId,
    word_info: WordInfo,
    subset: InfoSubset,
    begin: usize,
    end: usize,
    begin_c: usize,
    end_c: usize,
}

impl<'a> SingleMorpheme<'a> {
    /// The dictionary.
    pub closed spec fn spec_dict(&self) -> &'a JapaneseDictionary {
        self.dict
    }

    /// The word id.
    pub closed spec fn spec_word_id(&self) -> WordId {
        self.word_id
    }

    /// Word information.
    pub closed spec fn spec_info(&self) -> WordInfoModel {
        self.word_info@
    }

    /// Fields of word information held.
    pub closed spec fn spec_subset(&self) -> InfoSubset {
        self.subset
    }

    /// Byte offset of the start.
    pub closed spec fn spec_begin(&self) -> usize {
        self.begin
    }

    /// Byte offset of the end.
    pub closed spec fn spec_end(&self) -> usize {
        self.end
    }

    /// Character offset of the start.
    pub closed spec fn spec_begin_c(&self) -> usize {
        self.begin_c
    }

    /// Character offset of the end.
    pub closed spec fn spec_end_c(&self) -> usize {
        self.end_c
    }

    /// The morpheme is word `raw` of `dict`, with the fields `subset`
    /// selects and the surface.
    pub open spec fn spec_is_part(&self, dict: &'a JapaneseDictionary, raw: u32, subset: InfoSubset) -> bool {
        &&& self.spec_dict() == dict
        &&& self.spec_word_id()@ == raw
        &&& self.spec_subset() == spec_headword_subset(subset)
        &&& Some(self.spec_info()) == dict.spec_lexicon().spec_word_info(
            WordId::spec_from_raw(raw),
            spec_headword_subset(subset),
        )
    }

    /// The morpheme is word `raw` of `dict`, spanning its own surface from offset 0.
    pub open spec fn spec_is_entry(&self, dict: &'a JapaneseDictionary, raw: u32, subset: InfoSubset) -> bool {
        &&& self.spec_is_part(dict, raw, subset)
        &&& self.spec_begin() == 0
        &&& self.spec_end() == encode_utf8(self.spec_info().surface).len()
        &&& self.spec_begin_c() == 0
        &&& self.spec_end_c() == self.spec_info().surface.len()
    }

    /// Both morphemes tell the same.
    pub open spec fn spec_same(&self, other: &SingleMorpheme<'a>) -> bool {
        &&& self.spec_dict() == other.spec_dict()
        &&& self.spec_word_id() == other.spec_word_id()
        &&& self.spec_info() == other.spec_info()
        &&& self.spec_subset() == other.spec_subset()
        &&& self.spec_begin() == other.spec_begin()
        &&& self.spec_end() == other.spec_end()
        &&& self.spec_begin_c() == other.spec_begin_c()
        &&& self.spec_end_c() == other.spec_end_c()
    }

    /// The standalone morpheme of the entry `word_id`, reading the fields
    /// `subset` selects and the surface; its offsets span its surface from
    /// 0. An error unless `word_id` names an entry with parameters and
    /// readable word information.
    pub fn from_word_id(dict: &'a JapaneseDictionary, word_id: WordId, subset: InfoSubset) -> (r:
        SudachiResult<SingleMorpheme<'a>>)
        ensures
            r is Ok <==> spec_single_ok(dict, word_id@, subset),
            r matches Ok(m) ==> m.spec_is_entry(dict, word_id@, subset),
    {
        proof {
            use_type_invariant(dict);
            WordId::lemma_from_raw(word_id@);
        }
        validate_dictionary_word_id(dict, word_id)?;
        let subset = InfoSubset(subset.0 | SURFACE);
        let word_info = dict.lexicon().get_word_info_subset(word_id, subset)?;
        let (end, end_c) = str_sizes(word_info.surface());
        Ok(SingleMorpheme { dict, word_id, word_info, subset, begin: 0, end, begin_c: 0, end_c })
    }

    /// The standalone morpheme of an unknown word with part of speech
    /// `pos_id` and the given forms; it holds every field. An error when
    /// the grammar has no such part of speech.
    pub fn oov(
        dict: &'a JapaneseDictionary,
        pos_id: u16,
        surface: String,
        reading: String,
        normalized_form: String,
        dictionary_form: String,
    ) -> (r: SudachiResult<SingleMorpheme<'a>>)
        ensures
            r is Ok <==> pos_id < dict.spec_grammar().spec_pos_vec().len(),
            r matches Err(e) ==> e matches SudachiError::InvalidPartOfSpeech(s) && s@
                == spec_decimal(pos_id as nat),
            r matches Ok(m) ==> {
                &&& m.spec_dict() == dict
                &&& m.spec_word_id()@ == spec_raw_of(OOV_DIC as int, pos_id as int)
                &&& m.spec_subset() == InfoSubset::spec_all()
                &&& m.spec_info() == WordInfoModel {
                    surface: surface@,
                    head_word_length: (encode_utf8(surface@).len() as u16) as int,
                    pos_id: pos_id as int,
                    normalized_form: normalized_form@,
                    dictionary_form_word_id: -1,
                    dictionary_form: dictionary_form@,
                    reading_form: reading@,
                    a_unit_split: Seq::empty(),
                    b_unit_split: Seq::empty(),
                    word_structure: Seq::empty(),
                    synonym_group_ids: Seq::empty(),
                }
                &&& m.spec_begin() == 0
                &&& m.spec_end() == encode_utf8(surface@).len()
                &&& m.spec_begin_c() == 0
                &&& m.spec_end_c() == surface@.len()
            },
    {
        proof {
            use_type_invariant(dict);
        }
        let grammar = dict.grammar();
        proof {
            grammar.lemma_pos_vec();
        }
        if pos_id as usize >= grammar.pos_list.len() {
            return Err(SudachiError::InvalidPartOfSpeech(decimal_string(pos_id as u64)));
        }
        let (end, end_c) = str_sizes(surface.as_str());
        let word_id = WordId::oov(pos_id as u32);
        let data = WordInfoData {
            surface,
            head_word_length: end as u16,
            pos_id,
            normalized_form,
            dictionary_form_word_id: -1,
            dictionary_form,
            reading_form: reading,
            a_unit_split: Vec::new(),
            b_unit_split: Vec::new(),
            word_structure: Vec::new(),
            synonym_group_ids: Vec::new(),
        };
        proof {
            assert(spec_raw_ids(data.a_unit_split@) =~= Seq::<u32>::empty());
            assert(spec_raw_ids(data.b_unit_split@) =~= Seq::<u32>::empty());
            assert(spec_raw_ids(data.word_structure@) =~= Seq::<u32>::empty());
        }
        Ok(
            SingleMorpheme {
                dict,
                word_id,
                word_info: WordInfo::from_data(data),
                subset: InfoSubset::all(),
                begin: 0,
                end,
                begin_c: 0,
                end_c,
            },
        )
    }

    /// A copy of the morpheme.
    pub fn duplicate(&self) -> (r: SingleMorpheme<'a>)
        ensures
            r.spec_same(self),
    {
        SingleMorpheme {
            dict: self.dict,
            word_id: self.word_id,
            word_info: self.word_info.duplicate(),
            subset: self.subset,
            begin: self.begin,
            end: self.end,
            begin_c: self.begin_c,
            end_c: self.end_c,
        }
    }

    /// The split word ids of mode A or B, from the word information held or,
    /// when it lacks them, read again with them; `None` when that read fails.
    pub open spec fn spec_split_ids(&self, mode: Mode) -> Option<Seq<u32>> {
        let flag = if mode == Mode::A {
            SPLIT_A
        } else {
            SPLIT_B
        };
        let info = if self.spec_subset().has(flag) {
            Some(self.spec_info())
        } else {
            self.spec_dict().spec_lexicon().spec_word_info(
                self.spec_word_id(),
                InfoSubset(self.spec_subset().0 | flag).spec_normalized(),
            )
        };
        match info {
            None => None,
            Some(m) => Some(
                if mode == Mode::A {
                    m.a_unit_split
                } else {
                    m.b_unit_split
                },
            ),
        }
    }

    /// The standalone morphemes this one splits into in `mode`. A copy of
    /// it in mode C, when it has no split, or when its split is itself. A
    /// split into one other entry keeps this morpheme's offsets; a split
    /// into several gives each part the span of its surface, one after the
    /// other from this morpheme's start. An error when a split entry cannot
    /// be read or the offsets overflow.
    #[verifier::spinoff_prover]
    #[verifier::rlimit(60)]
    pub fn split(&self, mode: Mode) -> (r: SudachiResult<Vec<SingleMorpheme<'a>>>)
        ensures
            mode == Mode::C ==> (r matches Ok(v) && v.len() == 1 && v[0].spec_same(self)),
            mode != Mode::C ==> match self.spec_split_ids(mode) {
                None => r is Err,
                Some(ids) => {
                    let dict = self.spec_dict();
                    let sub = self.spec_subset();
                    if ids.len() == 0 || (ids.len() == 1 && ids[0] == self.spec_word_id()@) {
                        r matches Ok(v) && v.len() == 1 && v[0].spec_same(self)
                    } else if ids.len() == 1 {
                        &&& (r is Ok <==> spec_single_ok(dict, ids[0], sub))
                        &&& (r matches Ok(v) ==> {
                            &&& v.len() == 1
                            &&& v[0].spec_is_part(dict, ids[0], sub)
                            &&& v[0].spec_begin() == self.spec_begin()
                            &&& v[0].spec_end() == self.spec_end()
                            &&& v[0].spec_begin_c() == self.spec_begin_c()
                            &&& v[0].spec_end_c() == self.spec_end_c()
                        })
                    } else {
                        &&& (r is Ok <==> {
                            &&& forall|k: int| 0 <= k < ids.len() ==> spec_single_ok(dict, #[trigger] ids[k], sub)
                            &&& self.spec_begin() + spec_parts_bytes(dict, ids, sub) <= usize::MAX
                            &&& self.spec_begin_c() + spec_parts_chars(dict, ids, sub) <= usize::MAX
                        })
                        &&& (r matches Ok(v) ==> v.len() == ids.len() && forall|k: int|
                            0 <= k < ids.len() ==> #[trigger] spec_laid_part(
                                v[k],
                                dict,
                                ids,
                                sub,
                                self.spec_begin() as int,
                                self.spec_begin_c() as int,
                                k,
                            ))
                    }
                },
            },
    {
        let flag: u32 = match mode {
            Mode::A => SPLIT_A,
            Mode::B => SPLIT_B,
            Mode::C => {
                let mut one: Vec<SingleMorpheme<'a>> = Vec::new();
                one.push(self.duplicate());
                return Ok(one);
            },
        };
        let splits = if self.subset.contains(flag) {
            split_ids(&self.word_info, mode)
        } else {
            proof {
                use_type_invariant(self.dict);
            }
            let info = self.dict.lexicon().get_word_info_subset(
                self.word_id,
                InfoSubset(self.subset.0 | flag).normalize(),
            )?;
            split_ids(&info, mode)
        };
        let ghost ids = spec_raw_ids(splits@);
        if splits.len() == 0 {
            let mut one: Vec<SingleMorpheme<'a>> = Vec::new();
            one.push(self.duplicate());
            return Ok(one);
        }
        if splits.len() == 1 {
            proof {
                WordId::lemma_view_injective(splits@[0], self.word_id);
            }
            if splits[0] == self.word_id {
                let mut one: Vec<SingleMorpheme<'a>> = Vec::new();
                one.push(self.duplicate());
                return Ok(one);
            }
            let mut m = SingleMorpheme::from_word_id(self.dict, splits[0], self.subset)?;
            m.begin = self.begin;
            m.end = self.end;
            m.begin_c = self.begin_c;
            m.end_c = self.end_c;
            let mut one: Vec<SingleMorpheme<'a>> = Vec::new();
            one.push(m);
            return Ok(one);
        }
        lay_parts(self.dict, &splits, self.subset, self.begin, self.begin_c)
    }

    /// Fields of word information held.
    pub(crate) fn subset(&self) -> (r: InfoSubset)
        ensures
            r == self.spec_subset(),
    {
        self.subset
    }

    /// The dictionary.
    pub(crate) fn dict(&self) -> (r: &'a JapaneseDictionary)
        ensures
            r == self.spec_dict(),
    {
        self.dict
    }

    /// Byte offset of the start.
    pub fn begin(&self) -> (r: usize)
        ensures
            r == self.spec_begin(),
    {
        self.begin
    }

    /// Byte offset of the end.
    pub fn end(&self) -> (r: usize)
        ensures
            r == self.spec_end(),
    {
        self.end
    }

    /// Character offset of the start.
    pub fn begin_c(&self) -> (r: usize)
        ensures
            r == self.spec_begin_c(),
    {
        self.begin_c
    }

    /// Character offset of the end.
    pub fn end_c(&self) -> (r: usize)
        ensures
            r == self.spec_end_c(),
    {
        self.end_c
    }

    /// The head word.
    pub fn surface(&self) -> (r: &str)
        ensures
            r@ == self.spec_info().surface,
    {
        self.word_info.surface()
    }

    /// The word id.
    pub fn word_id(&self) -> (r: WordId)
        ensures
            r == self.spec_word_id(),
    {
        self.word_id
    }

    /// Word information.
    pub fn get_word_info(&self) -> (r: &WordInfo)
        ensures
            r@ == self.spec_info(),
    {
        &self.word_info
    }

    /// Components of the part of speech.
    pub fn part_of_speech(&self) -> (r: &'a [String])
        requires
            self.spec_info().pos_id < self.spec_dict().spec_grammar().spec_pos_vec().len(),
        ensures
            r@ == self.spec_dict().spec_grammar().spec_pos_vec()[self.spec_info().pos_id]@,
    {
        let pos = self.word_info.pos_id();
        self.dict.grammar().pos_components(pos)
    }

    /// Part of speech id.
    pub fn part_of_speech_id(&self) -> (r: u16)
        ensures
            r == self.spec_info().pos_id,
    {
        self.word_info.pos_id()
    }

    /// Dictionary form; the surface when none is stored.
    pub fn dictionary_form(&self) -> (r: &str)
        ensures
            r@ == (if self.spec_info().dictionary_form.len() == 0 {
                self.spec_info().surface
            } else {
                self.spec_info().dictionary_form
            }),
    {
        self.word_info.dictionary_form()
    }

    /// Normalized form; the surface when none is stored.
    pub fn normalized_form(&self) -> (r: &str)
        ensures
            r@ == (if self.spec_info().normalized_form.len() == 0 {
                self.spec_info().surface
            } else {
                self.spec_info().normalized_form
            }),
    {
        self.word_info.normalized_form()
    }

    /// Reading form; the surface when none is stored.
    pub fn reading_form(&self) -> (r: &str)
        ensures
            r@ == (if self.spec_info().reading_form.len() == 0 {
                self.spec_info().surface
            } else {
                self.spec_info().reading_form
            }),
    {
        self.word_info.reading_form()
    }

    /// Whether the word is out of vocabulary.
    pub fn is_oov(&self) -> (r: bool)
        ensures
            r == (spec_dic_of(self.spec_word_id()@) == OOV_DIC as int),
    {
        self.word_id.is_oov()
    }

    /// The dictionary of the word, -1 for an unknown word.
    pub fn dictionary_id(&self) -> (r: i32)
        ensures
            r == spec_dictionary_id(self.spec_word_id()),
            spec_dic_of(self.spec_word_id()@) != OOV_DIC as int ==> r as int == spec_dic_of(
                self.spec_word_id()@,
            ),
            spec_dic_of(self.spec_word_id()@) == OOV_DIC as int ==> r == -1,
    {
        proof {
            lemma_dictionary_id_names_lexicon(self.spec_word_id());
        }
        if self.word_id.is_oov() {
            -1
        } else {
            self.word_id.dic() as i32
        }
    }

    /// Synonym group ids.
    pub fn synonym_group_ids(&self) -> (r: &[u32])
        ensures
            r@ == self.spec_info().synonym_group_ids,
    {
        self.word_info.synonym_group_ids()
    }

    /// The morpheme of the dictionary form: this one when the word is
    /// unknown or a sentence boundary, or when its entry names no other
    /// entry of the same dictionary; otherwise the standalone morpheme of
    /// that entry. An error when an entry cannot be read.
    pub fn dictionary_form_morpheme<'l>(&self) -> (r: SudachiResult<MorphemeRef<'l, 'a>>)
        ensures
            match spec_dic_form(self.spec_dict(), self.spec_word_id()) {
                None => r is Err,
                Some(None) => r matches Ok(MorphemeRef::Single(s)) && s.spec_same(self),
                Some(Some(t)) => if spec_single_ok(self.spec_dict(), t, self.spec_subset()) {
                    r matches Ok(MorphemeRef::Single(s)) && s.spec_is_entry(
                        self.spec_dict(),
                        t,
                        self.spec_subset(),
                    )
                } else {
                    r is Err
                },
            },
    {
        match resolve_dictionary_form(self.dict, self.word_id, self.subset)? {
            None => Ok(MorphemeRef::Single(Box::new(self.duplicate()))),
            Some(m) => Ok(MorphemeRef::Single(Box::new(m))),
        }
    }

    /// The morpheme of the normalized form. Records hold no word id for the
    /// normalized form, so this is always a copy of the morpheme.
    pub fn normalized_form_morpheme<'l>(&self) -> (r: SudachiResult<MorphemeRef<'l, 'a>>)
        ensures
            r matches Ok(MorphemeRef::Single(s)) && s.spec_same(self),
    {
        Ok(MorphemeRef::Single(Box::new(self.duplicate())))
    }
}

/// A morpheme that is either an item of an analysis result or standalone.
pub enum MorphemeRef<'l, 'a> {
    ListItem(Morpheme<'l, 'a>),
    Single(Box<SingleMorpheme<'a>>),
}

impl<'l, 'a> MorphemeRef<'l, 'a> {
    /// Byte offset of the start.
    pub open spec fn spec_begin(&self) -> int {
        match self {
            MorphemeRef::ListItem(m) => m.spec_begin(),
            MorphemeRef::Single(m) => m.spec_begin() as int,
        }
    }

    /// Byte offset of the end.
    pub open spec fn spec_end(&self) -> int {
        match self {
            MorphemeRef::ListItem(m) => m.spec_end(),
            MorphemeRef::Single(m) => m.spec_end() as int,
        }
    }

    /// Character offset of the start.
    pub open spec fn spec_begin_c(&self) -> int {
        match self {
            MorphemeRef::ListItem(m) => m.spec_begin_c(),
            MorphemeRef::Single(m) => m.spec_begin_c() as int,
        }
    }

    /// Character offset of the end.
    pub open spec fn spec_end_c(&self) -> int {
        match self {
            MorphemeRef::ListItem(m) => m.spec_end_c(),
            MorphemeRef::Single(m) => m.spec_end_c() as int,
        }
    }

    /// The word id.
    pub open spec fn spec_word_id(&self) -> WordId {
        match self {
            MorphemeRef::ListItem(m) => m.spec_word_id(),
            MorphemeRef::Single(m) => m.spec_word_id(),
        }
    }

    /// Word information.
    pub open spec fn spec_info(&self) -> WordInfoModel {
        match self {
            MorphemeRef::ListItem(m) => m.spec_info(),
            MorphemeRef::Single(m) => m.spec_info(),
        }
    }

    /// Text of the morpheme: the part of the sentence it covers, or the head word.
    pub open spec fn spec_surface(&self) -> Seq<char> {
        match self {
            MorphemeRef::ListItem(m) => m.spec_text().subrange(m.spec_begin_c(), m.spec_end_c()),
            MorphemeRef::Single(m) => m.spec_info().surface,
        }
    }

    /// Text of the morpheme.
    pub fn surface(&self) -> (r: MorphemeSurface<'_>)
        ensures
            r.spec_text() == self.spec_surface(),
    {
        match self {
            MorphemeRef::ListItem(m) => MorphemeSurface::Input(m.surface()),
            MorphemeRef::Single(m) => MorphemeSurface::Headword(m.surface()),
        }
    }

    /// Word information.
    pub fn get_word_info(&self) -> (r: &WordInfo)
        ensures
            r@ == self.spec_info(),
    {
        match self {
            MorphemeRef::ListItem(m) => m.get_word_info(),
            MorphemeRef::Single(m) => m.get_word_info(),
        }
    }

    /// A copy of the reference.
    pub fn duplicate(&self) -> (r: MorphemeRef<'l, 'a>)
        ensures
            r.spec_begin() == self.spec_begin(),
            r.spec_end() == self.spec_end(),
            r.spec_begin_c() == self.spec_begin_c(),
            r.spec_end_c() == self.spec_end_c(),
            r.spec_word_id() == self.spec_word_id(),
            r.spec_info() == self.spec_info(),
            r.spec_surface() == self.spec_surface(),
    {
        match self {
            MorphemeRef::ListItem(m) => MorphemeRef::ListItem(*m),
            MorphemeRef::Single(m) => MorphemeRef::Single(Box::new(m.duplicate())),
        }
    }
}

impl<'a> Sealed for SingleMorpheme<'a> {

}

impl<'a> MorphemeView for SingleMorpheme<'a> {
    fn begin(&self) -> (r: usize)
        ensures
            r == self.spec_begin(),
    {
        SingleMorpheme::begin(self)
    }

    fn end(&self) -> (r: usize)
        ensures
            r == self.spec_end(),
    {
        SingleMorpheme::end(self)
    }

    fn begin_c(&self) -> (r: usize)
        ensures
            r == self.spec_begin_c(),
    {
        SingleMorpheme::begin_c(self)
    }

    fn end_c(&self) -> (r: usize)
        ensures
            r == self.spec_end_c(),
    {
        SingleMorpheme::end_c(self)
    }

    fn word_id(&self) -> (r: WordId)
        ensures
            r == self.spec_word_id(),
    {
        SingleMorpheme::word_id(self)
    }

    fn part_of_speech_id(&self) -> (r: u16)
        ensures
            r == self.spec_info().pos_id,
    {
        SingleMorpheme::part_of_speech_id(self)
    }

    fn is_oov(&self) -> (r: bool)
        ensures
            r == (spec_dic_of(self.spec_word_id()@) == OOV_DIC as int),
    {
        SingleMorpheme::is_oov(self)
    }

    fn dictionary_id(&self) -> (r: i32)
        ensures
            r == spec_dictionary_id(self.spec_word_id()),
    {
        SingleMorpheme::dictionary_id(self)
    }
}

impl<'l, 'a> Sealed for MorphemeRef<'l, 'a> {

}

impl<'l, 'a> MorphemeView for MorphemeRef<'l, 'a> {
    fn begin(&self) -> (r: usize)
        ensures
            r == self.spec_begin(),
    {
        match self {
            MorphemeRef::ListItem(m) => Morpheme::begin(m),
            MorphemeRef::Single(m) => SingleMorpheme::begin(m),
        }
    }

    fn end(&self) -> (r: usize)
        ensures
            r == self.spec_end(),
    {
        match self {
            MorphemeRef::ListItem(m) => Morpheme::end(m),
            MorphemeRef::Single(m) => SingleMorpheme::end(m),
        }
    }

    fn begin_c(&self) -> (r: usize)
        ensures
            r == self.spec_begin_c(),
    {
        match self {
            MorphemeRef::ListItem(m) => Morpheme::begin_c(m),
            MorphemeRef::Single(m) => SingleMorpheme::begin_c(m),
        }
    }

    fn end_c(&self) -> (r: usize)
        ensures
            r == self.spec_end_c(),
    {
        match self {
            MorphemeRef::ListItem(m) => Morpheme::end_c(m),
            MorphemeRef::Single(m) => SingleMorpheme::end_c(m),
        }
    }

    fn word_id(&self) -> (r: WordId)
        ensures
            r == self.spec_word_id(),
    {
        match self {
            MorphemeRef::ListItem(m) => Morpheme::word_id(m),
            MorphemeRef::Single(m) => SingleMorpheme::word_id(m),
        }
    }

    fn part_of_speech_id(&self) -> (r: u16)
        ensures
            r == self.spec_info().pos_id,
    {
        match self {
            MorphemeRef::ListItem(m) => Morpheme::part_of_speech_id(m),
            MorphemeRef::Single(m) => SingleMorpheme::part_of_speech_id(m),
        }
    }

    fn is_oov(&self) -> (r: bool)
        ensures
            r == (spec_dic_of(self.spec_word_id()@) == OOV_DIC as int),
    {
        match self {
            MorphemeRef::ListItem(m) => Morpheme::is_oov(m),
            MorphemeRef::Single(m) => SingleMorpheme::is_oov(m),
        }
    }

    fn dictionary_id(&self) -> (r: i32)
        ensures
            r == spec_dictionary_id(self.spec_word_id()),
    {
        match self {
            MorphemeRef::ListItem(m) => Morpheme::dictionary_id(m),
            MorphemeRef::Single(m) => SingleMorpheme::dictionary_id(m),
        }
    }
}

} // verus!
