//! Several lexicons seen as one: the system lexicon first, then user lexicons.

use vstd::prelude::*;

use crate::dic::lexicon::word_infos::{spec_raw_ids, spec_word_info, WordInfo, WordInfoModel};
use crate::dic::lexicon::word_params::{spec_cost_of, spec_left_id, spec_right_id};
use crate::dic::lexicon::{spec_lexicon_entries, spec_prepend_all, Lexicon, LexiconEntry, MAX_DICTIONARIES};
use crate::dic::subset::{InfoSubset, POS_ID, SPLIT_A, SPLIT_B, WORD_STRUCTURE};
use crate::dic::word_id::{spec_dic_of, spec_raw_of, spec_word_of, WordId, MAX_WORD};
use crate::error::{SudachiError, SudachiResult};

verus! {

/// Errors of a set of lexicons.
#[derive(Debug, Clone, Copy, PartialEq, Eq, Structural)]
pub enum LexiconSetError {
    /// A word id too large for the dictionary it names: `(word_id, dictionary)`.
    TooLargeWordId(u32, usize),
    /// A dictionary id beyond the set.
    TooLargeDictionaryId(usize),
    /// The set already holds the maximum number of dictionaries.
    TooManyDictionaries,
    /// A string pointer that breaks the alignment rule: `(length, offset, alignment)`.
    InvalidStringPointer(usize, usize, usize),
}

/// Results of looking `input` up at `offset` in lexicons `k - 1` down to 0.
pub open spec fn spec_set_lookup(lexs: Seq<Lexicon>, input: Seq<u8>, offset: int, k: int) -> Option<
    Seq<(u32, int)>,
>
    decreases k,
{
    if k <= 0 {
        Some(Seq::empty())
    } else {
        match lexs[k - 1].spec_lookup(input, offset) {
            None => None,
            Some(x) => spec_prepend_all(x, spec_set_lookup(lexs, input, offset, k - 1)),
        }
    }
}

/// A split word id read from dictionary `dic`: ids of user dictionaries are
/// given the id of the dictionary they were read from.
pub open spec fn spec_fix_split(ids: Seq<u32>, dic: int) -> Seq<u32> {
    ids.map_values(
        |id: u32|
            if spec_dic_of(id) > 0 {
                spec_raw_of(dic, spec_word_of(id)) as u32
            } else {
                id
            },
    )
}

/// Split ids read from dictionary `dic` name the same words the dictionary
/// recorded: an id of the system dictionary (dictionary part 0) is kept as
/// it is, and an id of a user dictionary keeps its entry and gets the
/// dictionary part `dic`.
pub proof fn lemma_fix_split_keeps_system_words(ids: Seq<u32>, dic: int)
    requires
        0 <= dic < 16,
    ensures
        spec_fix_split(ids, dic).len() == ids.len(),
        forall|i: int| 0 <= i < ids.len() && spec_dic_of(ids[i]) == 0 ==> #[trigger] spec_fix_split(ids, dic)[i] == ids[i],
        forall|i: int|
            0 <= i < ids.len() && spec_dic_of(ids[i]) != 0 ==> spec_dic_of(#[trigger] spec_fix_split(ids, dic)[i]) == dic
                && spec_word_of(spec_fix_split(ids, dic)[i]) == spec_word_of(ids[i]),
{
    assert forall|i: int|
        0 <= i < ids.len() && spec_dic_of(ids[i]) != 0 implies spec_dic_of(#[trigger] spec_fix_split(ids, dic)[i]) == dic
            && spec_word_of(spec_fix_split(ids, dic)[i]) == spec_word_of(ids[i]) by {
        let w = spec_word_of(ids[i]);
        assert(0 <= w < 0x1000_0000);
        let r = dic * 0x1000_0000 + w;
        assert(0 <= r < 0x1_0000_0000) by (nonlinear_arith)
            requires
                0 <= dic < 16,
                0 <= w < 0x1000_0000,
                r == dic * 0x1000_0000 + w,
        ;
        assert(r / 0x1000_0000 == dic && r % 0x1000_0000 == w) by (nonlinear_arith)
            requires
                0 <= dic < 16,
                0 <= w < 0x1000_0000,
                r == dic * 0x1000_0000 + w,
        ;
    }
}

/// Part of speech id of a word of dictionary `dic`: user parts of speech
/// (those past the system ones) are moved past `pos_offset`.
pub open spec fn spec_fix_pos(pos_id: int, dic: int, num_system_pos: int, pos_offset: int) -> int {
    if dic > 0 && pos_id >= num_system_pos {
        pos_id - num_system_pos + pos_offset
    } else {
        pos_id
    }
}

/// Word information read from dictionary `dic`, with part of speech id and
/// splits turned into ids valid across the set.
pub open spec fn spec_resolve(
    m: WordInfoModel,
    subset: InfoSubset,
    dic: int,
    num_system_pos: int,
    pos_offset: int,
) -> WordInfoModel {
    WordInfoModel {
        pos_id: if subset.has(POS_ID) {
            spec_fix_pos(m.pos_id, dic, num_system_pos, pos_offset)
        } else {
            m.pos_id
        },
        a_unit_split: if subset.has(SPLIT_A) {
            spec_fix_split(m.a_unit_split, dic)
        } else {
            m.a_unit_split
        },
        b_unit_split: if subset.has(SPLIT_B) {
            spec_fix_split(m.b_unit_split, dic)
        } else {
            m.b_unit_split
        },
        word_structure: if subset.has(WORD_STRUCTURE) {
            spec_fix_split(m.word_structure, dic)
        } else {
            m.word_structure
        },
        ..m
    }
}

/// Raw word ids of all words of lexicons `0..k`, in order.
pub open spec fn spec_all_word_ids(lexs: Seq<Lexicon>, k: int) -> Seq<u32>
    decreases k,
{
    if k <= 0 {
        Seq::empty()
    } else {
        spec_all_word_ids(lexs, k - 1) + spec_word_ids_of(k - 1, lexs[k - 1].spec_params().len() as int)
    }
}

/// Raw word ids of the first `n` words of dictionary `dic`.
pub open spec fn spec_word_ids_of(dic: int, n: int) -> Seq<u32> {
    Seq::new(n as nat, |j: int| spec_raw_of(dic, j) as u32)
}

/// Sum of the numbers of words of lexicons `0..k`.
pub open spec fn spec_total_size(lexs: Seq<Lexicon>, k: int) -> int
    decreases k,
{
    if k <= 0 {
        0
    } else {
        spec_total_size(lexs, k - 1) + lexs[k - 1].spec_params().len()
    }
}

/// The word after position `(li, e)` of a walk over all words, with the
/// position after it; `None` when the walk is over.
pub open spec fn spec_next_word(lexs: Seq<Lexicon>, li: int, e: int) -> Option<(u32, int, int)>
    decreases lexs.len() - li,
{
    if li < 0 || li >= lexs.len() {
        None
    } else if e < lexs[li].spec_params().len() {
        Some((spec_raw_of(li, e) as u32, li, e + 1))
    } else {
        spec_next_word(lexs, li + 1, 0)
    }
}

/// Set of lexicons; the first one is the system lexicon.
pub struct LexiconSet {
    lexicons: Vec<Lexicon>,
    pos_offsets: Vec<usize>,
    num_system_pos: usize,
}

/// Position of a walk over all words of a set of lexicons.
pub struct WordIdCursor {
    lexicon_index: usize,
    entry: u32,
}

impl WordIdCursor {
    /// Index of the lexicon the walk is in.
    pub closed spec fn spec_lexicon_index(&self) -> int {
        self.lexicon_index as int
    }

    /// Next entry of that lexicon.
    pub closed spec fn spec_entry(&self) -> int {
        self.entry as int
    }
}

impl LexiconSet {
    /// The lexicons, by dictionary id.
    pub closed spec fn spec_lexicons(&self) -> Seq<Lexicon> {
        self.lexicons@
    }

    /// Where the parts of speech of each lexicon start in the grammar.
    pub closed spec fn spec_pos_offsets(&self) -> Seq<usize> {
        self.pos_offsets@
    }

    /// Number of parts of speech of the system dictionary.
    pub closed spec fn spec_num_system_pos(&self) -> usize {
        self.num_system_pos
    }

    /// Between one and the maximum number of lexicons, each well formed and
    /// carrying its index as id, with one part of speech offset each.
    pub closed spec fn wf(&self) -> bool {
        &&& 1 <= self.lexicons@.len() <= MAX_DICTIONARIES
        &&& self.pos_offsets@.len() == self.lexicons@.len()
        &&& forall|i: int|
            0 <= i < self.lexicons@.len() ==> (#[trigger] self.lexicons@[i]).wf()
                && self.lexicons@[i].spec_lex_id() == i
    }

    /// A set holding the system lexicon, which gets id 0.
    pub fn new(system_lexicon: Lexicon, num_system_pos: usize) -> (r: LexiconSet)
        requires
            system_lexicon.wf(),
        ensures
            r.wf(),
            r.spec_lexicons().len() == 1,
            r.spec_lexicons()[0].spec_lex_id() == 0,
            r.spec_lexicons()[0].spec_trie() == system_lexicon.spec_trie(),
            r.spec_lexicons()[0].spec_table() == system_lexicon.spec_table(),
            r.spec_lexicons()[0].spec_params() == system_lexicon.spec_params(),
            r.spec_lexicons()[0].spec_info_bytes() == system_lexicon.spec_info_bytes(),
            r.spec_lexicons()[0].spec_info_offset() == system_lexicon.spec_info_offset(),
            r.spec_lexicons()[0].spec_has_syn() == system_lexicon.spec_has_syn(),
            r.spec_pos_offsets() == seq![0usize],
            r.spec_num_system_pos() == num_system_pos,
    {
        let mut system_lexicon = system_lexicon;
        system_lexicon.set_dic_id(0);
        let mut lexicons: Vec<Lexicon> = Vec::new();
        lexicons.push(system_lexicon);
        let mut pos_offsets: Vec<usize> = Vec::new();
        pos_offsets.push(0);
        let r = LexiconSet { lexicons, pos_offsets, num_system_pos };
        assert(r.pos_offsets@ =~= seq![0usize]);
        r
    }

    /// Adds a user lexicon, whose parts of speech start at `pos_offset` in
    /// the grammar; it gets the next id. An error when the set is full.
    pub fn append(&mut self, lexicon: Lexicon, pos_offset: usize) -> (r: Result<(), LexiconSetError>)
        requires
            old(self).wf(),
            lexicon.wf(),
        ensures
            final(self).wf(),
            r is Err <==> old(self).spec_lexicons().len() >= MAX_DICTIONARIES,
            r matches Err(e) ==> e == LexiconSetError::TooManyDictionaries && *final(self) == *old(
                self,
            ),
            r is Ok ==> {
                let n = old(self).spec_lexicons().len();
                &&& final(self).spec_lexicons().len() == n + 1
                &&& forall|i: int|
                    0 <= i < n ==> #[trigger] final(self).spec_lexicons()[i] == old(
                        self,
                    ).spec_lexicons()[i]
                &&& final(self).spec_lexicons()[n as int].spec_lex_id() == n
                &&& final(self).spec_lexicons()[n as int].spec_trie() == lexicon.spec_trie()
                &&& final(self).spec_lexicons()[n as int].spec_table() == lexicon.spec_table()
                &&& final(self).spec_lexicons()[n as int].spec_params() == lexicon.spec_params()
                &&& final(self).spec_lexicons()[n as int].spec_info_bytes()
                    == lexicon.spec_info_bytes()
                &&& final(self).spec_lexicons()[n as int].spec_info_offset()
                    == lexicon.spec_info_offset()
                &&& final(self).spec_lexicons()[n as int].spec_has_syn() == lexicon.spec_has_syn()
                &&& final(self).spec_pos_offsets() == old(self).spec_pos_offsets().push(pos_offset)
            },
            final(self).spec_num_system_pos() == old(self).spec_num_system_pos(),
    {
        if self.is_full() {
            return Err(LexiconSetError::TooManyDictionaries);
        }
        let mut lexicon = lexicon;
        let id = self.lexicons.len() as u8;
        lexicon.set_dic_id(id);
        self.lexicons.push(lexicon);
        self.pos_offsets.push(pos_offset);
        Ok(())
    }

    /// Whether the set holds the maximum number of lexicons.
    pub fn is_full(&self) -> (r: bool)
        ensures
            r == (self.spec_lexicons().len() >= MAX_DICTIONARIES),
    {
        self.lexicons.len() >= MAX_DICTIONARIES
    }

    /// Words whose index form is a prefix of `input[offset..]`, from the last
    /// user lexicon down to the system lexicon.
    pub fn lookup(&self, input: &[u8], offset: usize) -> (r: SudachiResult<Vec<LexiconEntry>>)
        requires
            self.wf(),
        ensures
            r is Ok <==> spec_set_lookup(
                self.spec_lexicons(),
                input@,
                offset as int,
                self.spec_lexicons().len() as int,
            ) is Some,
            r matches Ok(v) ==> Some(spec_lexicon_entries(v@)) == spec_set_lookup(
                self.spec_lexicons(),
                input@,
                offset as int,
                self.spec_lexicons().len() as int,
            ),
    {
        let ghost lexs = self.lexicons@;
        let ghost total = spec_set_lookup(lexs, input@, offset as int, lexs.len() as int);
        let mut out: Vec<LexiconEntry> = Vec::new();
        let mut k = self.lexicons.len();
        proof {
            assert(spec_lexicon_entries(out@) =~= Seq::<(u32, int)>::empty());
            match total {
                Some(x) => {
                    assert(Seq::<(u32, int)>::empty() + x =~= x);
                },
                None => {},
            }
        }
        while k > 0
            invariant
                k <= lexs.len(),
                lexs == self.lexicons@,
                self.wf(),
                total == spec_set_lookup(lexs, input@, offset as int, lexs.len() as int),
                total == spec_prepend_all(
                    spec_lexicon_entries(out@),
                    spec_set_lookup(lexs, input@, offset as int, k as int),
                ),
            decreases k,
        {
            let lex = &self.lexicons[k - 1];
            assert(lex.wf() && lex.spec_lex_id() == k - 1);
            let found = lex.lookup(input, offset)?;
            let ghost before = out@;
            let mut j: usize = 0;
            let m = found.len();
            while j < m
                invariant
                    j <= m,
                    m == found@.len(),
                    out@ =~= before + found@.take(j as int),
                decreases m - j,
            {
                out.push(found[j]);
                proof {
                    assert(found@.take(j as int + 1) =~= found@.take(j as int).push(found@[j as int]));
                }
                j = j + 1;
            }
            proof {
                assert(found@.take(m as int) =~= found@);
                assert(spec_lexicon_entries(out@) =~= spec_lexicon_entries(before)
                    + spec_lexicon_entries(found@));
                match spec_set_lookup(lexs, input@, offset as int, k - 1) {
                    Some(x) => {
                        assert(spec_lexicon_entries(before) + (spec_lexicon_entries(found@) + x)
                            =~= spec_lexicon_entries(out@) + x);
                    },
                    None => {},
                }
            }
            k = k - 1;
        }
        proof {
            assert(spec_lexicon_entries(out@) + Seq::<(u32, int)>::empty() =~= spec_lexicon_entries(
                out@,
            ));
        }
        Ok(out)
    }

    /// Word information of `id` with every field.
    pub fn get_word_info(&self, id: WordId) -> (r: SudachiResult<WordInfo>)
        requires
            self.wf(),
        ensures
            r is Ok <==> self.spec_word_info(id, InfoSubset::spec_all()) is Some,
            r matches Ok(w) ==> Some(w@) == self.spec_word_info(id, InfoSubset::spec_all()),
    {
        self.get_word_info_subset(id, InfoSubset::all())
    }

    /// Word information of `id` as a lookup returns it: read from the lexicon
    /// the id names and made valid across the set; `None` when there is no
    /// such lexicon or entry, or the moved part of speech id does not fit 16 bits.
    pub open spec fn spec_word_info(&self, id: WordId, subset: InfoSubset) -> Option<
        WordInfoModel,
    > {
        let dic = spec_dic_of(id@);
        if dic >= self.spec_lexicons().len() {
            None
        } else {
            let lex = self.spec_lexicons()[dic];
            match spec_word_info(
                lex.spec_info_bytes(),
                lex.spec_info_offset(),
                spec_word_of(id@),
                subset,
                lex.spec_has_syn(),
            ) {
                None => None,
                Some(m) => {
                    let res = spec_resolve(
                        m,
                        subset,
                        dic,
                        self.spec_num_system_pos() as int,
                        self.spec_pos_offsets()[dic] as int,
                    );
                    if res.pos_id > u16::MAX {
                        None
                    } else {
                        Some(res)
                    }
                },
            }
        }
    }

    /// Word information of `id` with the fields `subset` selects; an error
    /// when the id addresses no entry or its record is malformed.
    pub fn get_word_info_subset(&self, id: WordId, subset: InfoSubset) -> (r: SudachiResult<
        WordInfo,
    >)
        requires
            self.wf(),
        ensures
            r is Ok <==> self.spec_word_info(id, subset) is Some,
            r matches Ok(w) ==> Some(w@) == self.spec_word_info(id, subset),
    {
        let dic = id.dic() as usize;
        if dic >= self.lexicons.len() {
            return Err(SudachiError::InvalidWordId(id));
        }
        let info = self.lexicons[dic].get_word_info(id.word(), subset)?;
        let mut data = info.into_data();
        if subset.contains(POS_ID) {
            let pos_id = data.pos_id as usize;
            if dic > 0 && pos_id >= self.num_system_pos {
                let moved = pos_id - self.num_system_pos;
                let offset = self.pos_offsets[dic];
                if offset > 65535 || moved > 65535 - offset {
                    return Err(SudachiError::InvalidDictionaryGrammar);
                }
                data.pos_id = (moved + offset) as u16;
            }
        }
        if subset.contains(SPLIT_A) {
            data.a_unit_split = fix_split(&data.a_unit_split, dic as u8);
        }
        if subset.contains(SPLIT_B) {
            data.b_unit_split = fix_split(&data.b_unit_split, dic as u8);
        }
        if subset.contains(WORD_STRUCTURE) {
            data.word_structure = fix_split(&data.word_structure, dic as u8);
        }
        Ok(WordInfo::from_data(data))
    }

    /// Connection ids and cost of `id`.
    pub fn get_word_param(&self, id: WordId) -> (r: (i16, i16, i16))
        requires
            self.wf(),
            spec_dic_of(id@) < self.spec_lexicons().len(),
            spec_word_of(id@) < self.spec_lexicons()[spec_dic_of(id@)].spec_params().len(),
        ensures
            ({
                let x = self.spec_lexicons()[spec_dic_of(id@)].spec_params()[spec_word_of(id@)];
                r == (spec_left_id(x), spec_right_id(x), spec_cost_of(x))
            }),
    {
        let dic = id.dic() as usize;
        self.lexicons[dic].get_word_param(id.word())
    }

    /// Connection ids and cost of `id`; an error when it addresses no entry.
    pub fn get_word_param_checked(&self, id: WordId) -> (r: SudachiResult<(i16, i16, i16)>)
        requires
            self.wf(),
        ensures
            r is Ok <==> (spec_dic_of(id@) < self.spec_lexicons().len() && spec_word_of(id@)
                < self.spec_lexicons()[spec_dic_of(id@)].spec_params().len()),
            r matches Ok(t) ==> {
                let x = self.spec_lexicons()[spec_dic_of(id@)].spec_params()[spec_word_of(id@)];
                t == (spec_left_id(x), spec_right_id(x), spec_cost_of(x))
            },
            r matches Err(e) ==> e matches SudachiError::InvalidWordId(w) && w == id,
    {
        let dic = id.dic() as usize;
        if dic >= self.lexicons.len() {
            return Err(SudachiError::InvalidWordId(id));
        }
        match self.lexicons[dic].get_word_param_checked(id.word()) {
            Some(t) => Ok(t),
            None => Err(SudachiError::InvalidWordId(id)),
        }
    }

    /// Total number of words.
    pub fn size(&self) -> (r: u32)
        requires
            self.wf(),
            spec_total_size(self.spec_lexicons(), self.spec_lexicons().len() as int) <= u32::MAX,
        ensures
            r == spec_total_size(self.spec_lexicons(), self.spec_lexicons().len() as int),
    {
        let n = self.lexicons.len();
        let mut acc: u32 = 0;
        let mut i: usize = 0;
        while i < n
            invariant
                i <= n,
                n == self.lexicons@.len(),
                self.wf(),
                acc == spec_total_size(self.lexicons@, i as int),
                spec_total_size(self.lexicons@, n as int) <= u32::MAX,
            decreases n - i,
        {
            proof {
                lemma_total_size_monotone(self.lexicons@, i as int + 1, n as int);
            }
            let lex = &self.lexicons[i];
            assert(lex.wf());
            acc = acc + lex.size();
            i = i + 1;
        }
        acc
    }

    /// Ids of all words, dictionary by dictionary and in entry order.
    pub fn word_ids(&self) -> (r: Vec<WordId>)
        requires
            self.wf(),
        ensures
            spec_raw_ids(r@) == spec_all_word_ids(
                self.spec_lexicons(),
                self.spec_lexicons().len() as int,
            ),
    {
        let mut out: Vec<WordId> = Vec::new();
        let n = self.lexicons.len();
        let mut d: usize = 0;
        while d < n
            invariant
                d <= n,
                n == self.lexicons@.len(),
                self.wf(),
                spec_raw_ids(out@) =~= spec_all_word_ids(self.lexicons@, d as int),
            decreases n - d,
        {
            let lex = &self.lexicons[d];
            assert(lex.wf());
            let size = lex.size();
            let ghost before = out@;
            let mut e: u32 = 0;
            while e < size
                invariant
                    e <= size,
                    size <= MAX_WORD + 1,
                    d < n <= MAX_DICTIONARIES,
                    size == self.lexicons@[d as int].spec_params().len(),
                    spec_raw_ids(out@) =~= spec_raw_ids(before)
                        + spec_word_ids_of(d as int, e as int),
                decreases size - e,
            {
                let w = WordId::new(d as u8, e);
                let ghost prev = out@;
                out.push(w);
                proof {
                    assert(spec_raw_ids(out@) =~= spec_raw_ids(prev).push(w@));
                    assert(spec_word_ids_of(d as int, e as int + 1) =~= spec_word_ids_of(
                        d as int,
                        e as int,
                    ).push(w@));
                }
                e = e + 1;
            }
            d = d + 1;
        }
        out
    }

    /// A walk over all words, at the first entry of the first lexicon.
    pub fn word_id_cursor(&self) -> (r: WordIdCursor)
        ensures
            r.spec_lexicon_index() == 0,
            r.spec_entry() == 0,
    {
        WordIdCursor { lexicon_index: 0, entry: 0 }
    }

    /// The next word of a walk over all words, dictionary by dictionary and
    /// in entry order; `None` when every word was returned.
    pub fn next_word_id(&self, cursor: &mut WordIdCursor) -> (r: SudachiResult<Option<WordId>>)
        requires
            self.wf(),
        ensures
            r is Ok,
            match spec_next_word(
                self.spec_lexicons(),
                old(cursor).spec_lexicon_index(),
                old(cursor).spec_entry(),
            ) {
                None => r == SudachiResult::<Option<WordId>>::Ok(None),
                Some((w, li, e)) => (r matches Ok(Some(x)) && x@ == w)
                    && final(cursor).spec_lexicon_index() == li && final(cursor).spec_entry() == e,
            },
    {
        let n = self.lexicons.len();
        loop
            invariant
                n == self.lexicons@.len(),
                self.wf(),
                spec_next_word(self.lexicons@, cursor.lexicon_index as int, cursor.entry as int)
                    == spec_next_word(
                    self.lexicons@,
                    old(cursor).lexicon_index as int,
                    old(cursor).entry as int,
                ),
            decreases n - cursor.lexicon_index,
        {
            if cursor.lexicon_index >= n {
                return Ok(None);
            }
            let li = cursor.lexicon_index;
            let lex = &self.lexicons[li];
            assert(lex.wf());
            if cursor.entry < lex.size() {
                let w = WordId::new(li as u8, cursor.entry);
                cursor.entry = cursor.entry + 1;
                return Ok(Some(w));
            }
            cursor.lexicon_index = li + 1;
            cursor.entry = 0;
        }
    }

    /// Ids of the words of the system lexicon, in entry order.
    pub fn system_word_ids_in_order(&self) -> (r: Vec<WordId>)
        requires
            self.wf(),
        ensures
            spec_raw_ids(r@) == spec_word_ids_of(
                0,
                self.spec_lexicons()[0].spec_params().len() as int,
            ),
    {
        let lex = &self.lexicons[0];
        assert(lex.wf());
        let size = lex.size();
        let mut out: Vec<WordId> = Vec::new();
        let mut e: u32 = 0;
        while e < size
            invariant
                e <= size,
                size <= MAX_WORD + 1,
                size == self.lexicons@[0].spec_params().len(),
                spec_raw_ids(out@) =~= spec_word_ids_of(0, e as int),
            decreases size - e,
        {
            let w = WordId::new(0, e);
            let ghost prev = out@;
            out.push(w);
            proof {
                assert(spec_raw_ids(out@) =~= spec_raw_ids(prev).push(w@));
                assert(spec_word_ids_of(0, e as int + 1) =~= spec_word_ids_of(0, e as int).push(w@));
            }
            e = e + 1;
        }
        out
    }
}

/// The total size grows with the number of lexicons counted.
proof fn lemma_total_size_monotone(lexs: Seq<Lexicon>, i: int, n: int)
    requires
        0 <= i <= n,
    ensures
        spec_total_size(lexs, i) <= spec_total_size(lexs, n),
    decreases n - i,
{
    if i < n {
        lemma_total_size_monotone(lexs, i, n - 1);
    }
}

/// Split word ids read from dictionary `dic`, with user ids given `dic`.
fn fix_split(ids: &Vec<WordId>, dic: u8) -> (r: Vec<WordId>)
    requires
        dic < 16,
    ensures
        spec_raw_ids(r@) == spec_fix_split(spec_raw_ids(ids@), dic as int),
        r@.len() == ids@.len(),
        forall|i: int| 0 <= i < ids@.len() && spec_dic_of(ids@[i]@) == 0 ==> (#[trigger] r@[i])@ == ids@[i]@,
        forall|i: int|
            0 <= i < ids@.len() && spec_dic_of(ids@[i]@) != 0 ==> spec_dic_of((#[trigger] r@[i])@) == dic
                && spec_word_of(r@[i]@) == spec_word_of(ids@[i]@),
{
    let mut out: Vec<WordId> = Vec::with_capacity(ids.len());
    let n = ids.len();
    let mut i: usize = 0;
    while i < n
        invariant
            i <= n,
            n == ids@.len(),
            dic < 16,
            spec_raw_ids(out@) =~= spec_fix_split(spec_raw_ids(ids@), dic as int).take(i as int),
        decreases n - i,
    {
        let id = ids[i];
        let fixed = if id.dic() > 0 {
            WordId::new(dic, id.word())
        } else {
            id
        };
        out.push(fixed);
        proof {
            assert(spec_fix_split(spec_raw_ids(ids@), dic as int).take(i as int + 1)
                =~= spec_fix_split(spec_raw_ids(ids@), dic as int).take(i as int).push(fixed@));
        }
        i = i + 1;
    }
    proof {
        assert(spec_fix_split(spec_raw_ids(ids@), dic as int).take(n as int) =~= spec_fix_split(
            spec_raw_ids(ids@),
            dic as int,
        ));
        lemma_fix_split_keeps_system_words(spec_raw_ids(ids@), dic as int);
        assert forall|i: int| 0 <= i < ids@.len() implies (#[trigger] out@[i])@ == spec_fix_split(
            spec_raw_ids(ids@),
            dic as int,
        )[i] && ids@[i]@ == spec_raw_ids(ids@)[i] by {
            assert(spec_raw_ids(out@)[i] == out@[i]@);
        }
    }
    out
}

} // verus!
