//! Lexicon of one dictionary: trie index, word id table, word parameters and
//! word information.

pub mod strings;
pub mod trie;
pub mod word_id_table;
pub mod record_layout;
pub mod word_infos;
pub mod word_params;

use vstd::prelude::*;
use vstd::slice::slice_subrange;

use crate::dic::lexicon::trie::{spec_common_prefix, Trie, TrieEntry};
use crate::dic::lexicon::word_id_table::{spec_word_ids_at, WordIdTable};
use crate::dic::lexicon::word_infos::{spec_word_info, WordInfo, WordInfos};
use crate::dic::lexicon::word_params::{
    spec_cost_of, spec_left_id, spec_right_id, spec_u64s, WordParams,
};
use crate::dic::read::{read_u32_le, read_u32s, spec_u32_le, spec_u32s_at};
use crate::analysis::mlist::MorphemeList;
use crate::analysis::mode::Mode;
use crate::analysis::stateful_tokenizer::StatefulTokenizer;
use crate::dic::dictionary::JapaneseDictionary;
use crate::dic::subset::{InfoSubset, SURFACE};
use crate::dic::word_id::{spec_raw_of, WordId, MAX_WORD};
use crate::error::{SudachiError, SudachiResult};

verus! {

/// Number of lexicons a set can hold: the top 4 bits of a word id name the
/// lexicon and the sixteenth value marks out-of-vocabulary words.
pub const MAX_DICTIONARIES: usize = 15;

/// One result of a lexicon lookup.
#[derive(Clone, Copy, PartialEq, Eq, Structural, Debug)]
pub struct LexiconEntry {
    /// Id of the word found.
    pub word_id: WordId,
    /// Byte offset right after the word in the input.
    pub end: usize,
}

impl LexiconEntry {
    /// An entry for `word_id` ending at byte `end`.
    pub fn new(word_id: WordId, end: usize) -> (r: LexiconEntry)
        ensures
            r.word_id == word_id,
            r.end == end,
    {
        LexiconEntry { word_id, end }
    }
}

/// Where the parts of a lexicon lie in a buffer: the trie units, the start
/// and size of the word id table, the number of words (at most one more than
/// the largest entry id), and the position of the word information offset table.
pub open spec fn spec_lexicon_layout(b: Seq<u8>, off: int) -> Option<(Seq<u32>, int, int, int, int)> {
    if off < 0 || off + 4 > b.len() {
        None
    } else {
        let trie_size = spec_u32_le(b, off);
        let table_head = off + 4 + 4 * trie_size;
        if table_head + 4 > b.len() {
            None
        } else {
            let table_size = spec_u32_le(b, table_head);
            let params_head = table_head + 4 + table_size;
            if params_head + 4 > b.len() {
                None
            } else {
                let n = spec_u32_le(b, params_head);
                let infos = params_head + 4 + 8 * n;
                if infos > b.len() || n > MAX_WORD + 1 {
                    None
                } else {
                    Some(
                        (spec_u32s_at(b, off + 4, trie_size), table_head + 4, table_size, n, infos),
                    )
                }
            }
        }
    }
}

/// The `(raw word id, end)` pairs of the words listed for the trie matches
/// `ms`, in order, for a lexicon with id `lex_id`; `None` when a list is out
/// of range or holds a word id too large.
pub open spec fn spec_expand(table: Seq<u8>, lex_id: int, ms: Seq<(u32, int)>) -> Option<
    Seq<(u32, int)>,
>
    decreases ms.len(),
{
    if ms.len() == 0 {
        Some(Seq::empty())
    } else {
        match spec_word_ids_at(table, ms[0].0 as int) {
            None => None,
            Some(ids) => if exists|j: int| 0 <= j < ids.len() && ids[j] > MAX_WORD {
                None
            } else {
                match spec_expand(table, lex_id, ms.drop_first()) {
                    None => None,
                    Some(rest) => Some(
                        ids.map_values(|id: u32| (spec_raw_of(lex_id, id as int) as u32, ms[0].1))
                            + rest,
                    ),
                }
            },
        }
    }
}

/// `p` followed by the sequence in `rest`, or `None` when `rest` is `None`.
pub open spec fn spec_prepend_all<T>(p: Seq<T>, rest: Option<Seq<T>>) -> Option<Seq<T>> {
    match rest {
        None => None,
        Some(r) => Some(p + r),
    }
}

/// `(raw word id, end)` pairs of lookup results.
pub open spec fn spec_lexicon_entries(v: Seq<LexiconEntry>) -> Seq<(u32, int)> {
    v.map_values(|e: LexiconEntry| (e.word_id@, e.end as int))
}

/// Lexicon of one dictionary.
pub struct Lexicon {
    trie: Trie,
    word_id_table: WordIdTable,
    word_params: WordParams,
    word_infos: WordInfos,
    lex_id: u8,
}

impl Lexicon {
    /// Units of the trie.
    pub closed spec fn spec_trie(&self) -> Seq<u32> {
        self.trie.spec_array()
    }

    /// Bytes of the word id table.
    pub closed spec fn spec_table(&self) -> Seq<u8> {
        self.word_id_table.spec_bytes()
    }

    /// Packed parameters, by word.
    pub closed spec fn spec_params(&self) -> Seq<u64> {
        self.word_params.spec_data()
    }

    /// Bytes the word information is read from.
    pub closed spec fn spec_info_bytes(&self) -> Seq<u8> {
        self.word_infos.spec_bytes()
    }

    /// Position of the word information offset table.
    pub closed spec fn spec_info_offset(&self) -> int {
        self.word_infos.spec_offset() as int
    }

    /// Whether word information carries synonym group ids.
    pub closed spec fn spec_has_syn(&self) -> bool {
        self.word_infos.spec_has_synonym_group_ids()
    }

    /// Id of the lexicon in its set.
    pub closed spec fn spec_lex_id(&self) -> u8 {
        self.lex_id
    }

    /// `(raw word id, end)` pairs that a lookup of `input` at `offset` returns,
    /// or `None` when it fails.
    pub open spec fn spec_lookup(&self, input: Seq<u8>, offset: int) -> Option<Seq<(u32, int)>> {
        spec_expand(
            self.spec_table(),
            self.spec_lex_id() as int,
            spec_common_prefix(self.spec_trie(), input, offset),
        )
    }

    /// Whether the parts agree: the table starts at its own offset zero and
    /// there are as many parameters as words.
    pub closed spec fn wf(&self) -> bool {
        &&& self.word_id_table.spec_offset() == 0
        &&& self.word_params.spec_data().len() <= MAX_WORD + 1
        &&& self.word_infos.spec_word_size() == self.word_params.spec_data().len()
    }

    /// Reads a lexicon that starts at `original_offset` in `buf`: a trie
    /// (unit count and units), a word id table (size and bytes), word
    /// parameters (count and 8 bytes each), then the word information offset
    /// table. The lexicon id is left unset (255).
    pub fn parse(buf: &[u8], original_offset: usize, has_synonym_group_ids: bool) -> (r:
        SudachiResult<Lexicon>)
        ensures
            r is Ok <==> spec_lexicon_layout(buf@, original_offset as int) is Some,
            r matches Ok(lex) ==> {
                let (trie, table_start, table_size, n, infos) = spec_lexicon_layout(
                    buf@,
                    original_offset as int,
                )->0;
                &&& lex.wf()
                &&& lex.spec_trie() == trie
                &&& lex.spec_table() == buf@.subrange(table_start, table_start + table_size)
                &&& lex.spec_params() == spec_u64s(buf@.subrange(infos - 8 * n, infos), n)
                &&& lex.spec_info_bytes() == buf@
                &&& lex.spec_info_offset() == infos
                &&& lex.spec_has_syn() == has_synonym_group_ids
                &&& lex.spec_lex_id() == 255
            },
    {
        let blen = buf.len();
        let mut offset = original_offset;
        let (trie_size, _) = read_u32_le(buf, offset)?;
        offset = offset + 4;
        let (trie_array, after_trie) = read_u32s(buf, offset, trie_size as usize)?;
        let trie = Trie::new_owned(trie_array);
        offset = after_trie;
        let (table_size, table_start) = read_u32_le(buf, offset)?;
        if table_start > blen || (blen - table_start) < table_size as usize {
            return Err(SudachiError::InvalidRange(table_start, blen));
        }
        let table_end = table_start + table_size as usize;
        let word_id_table = WordIdTable::new(
            slice_subrange(buf, table_start, table_end),
            table_size,
            0,
        );
        offset = table_end;
        let (n, params_start) = read_u32_le(buf, offset)?;
        if params_start > blen || (blen - params_start) / 8 < n as usize || n > MAX_WORD + 1 {
            return Err(SudachiError::InvalidRange(params_start, blen));
        }
        let params_end = params_start + 8 * n as usize;
        let params_bytes = slice_subrange(buf, params_start, params_end);
        let word_params = WordParams::from_bytes(params_bytes);
        proof {
            assert(params_bytes@.len() / 8 == n);
        }
        let word_infos = WordInfos::new(buf, params_end, n, has_synonym_group_ids);
        Ok(Lexicon { trie, word_id_table, word_params, word_infos, lex_id: 255 })
    }

    /// A lexicon made of its parts, with no id yet.
    pub(crate) fn from_parts(
        trie: Trie,
        word_id_table: WordIdTable,
        word_params: WordParams,
        word_infos: WordInfos,
    ) -> (r: Lexicon)
        requires
            word_id_table.spec_offset() == 0,
            word_params.spec_data().len() <= MAX_WORD + 1,
            word_infos.spec_word_size() == word_params.spec_data().len(),
        ensures
            r.wf(),
            r.spec_trie() == trie.spec_array(),
            r.spec_table() == word_id_table.spec_bytes(),
            r.spec_params() == word_params.spec_data(),
            r.spec_info_bytes() == word_infos.spec_bytes(),
            r.spec_info_offset() == word_infos.spec_offset(),
            r.spec_has_syn() == word_infos.spec_has_synonym_group_ids(),
            r.spec_lex_id() == 255,
    {
        Lexicon { trie, word_id_table, word_params, word_infos, lex_id: 255 }
    }

    /// Sets the id of the lexicon in its set.
    pub fn set_dic_id(&mut self, id: u8)
        requires
            id < MAX_DICTIONARIES,
        ensures
            final(self).spec_lex_id() == id,
            final(self).spec_trie() == old(self).spec_trie(),
            final(self).spec_table() == old(self).spec_table(),
            final(self).spec_params() == old(self).spec_params(),
            final(self).spec_info_bytes() == old(self).spec_info_bytes(),
            final(self).spec_info_offset() == old(self).spec_info_offset(),
            final(self).spec_has_syn() == old(self).spec_has_syn(),
            final(self).wf() == old(self).wf(),
    {
        self.lex_id = id;
    }

    /// Words whose index form is a prefix of `input[offset..]`, with the byte
    /// offset where each ends, shortest first and in table order; an error
    /// when a word id list is out of range or holds a word id too large.
    pub fn lookup(&self, input: &[u8], offset: usize) -> (r: SudachiResult<Vec<LexiconEntry>>)
        requires
            self.wf(),
            self.spec_lex_id() < MAX_DICTIONARIES,
        ensures
            r is Ok <==> self.spec_lookup(input@, offset as int) is Some,
            r matches Ok(v) ==> Some(spec_lexicon_entries(v@)) == self.spec_lookup(
                input@,
                offset as int,
            ),
    {
        let matches = self.trie.common_prefix_search(input, offset);
        let ghost ms = spec_common_prefix(self.spec_trie(), input@, offset as int);
        let ghost table = self.spec_table();
        let ghost lex = self.spec_lex_id() as int;
        let mut out: Vec<LexiconEntry> = Vec::new();
        let n = matches.len();
        proof {
            assert(ms.skip(0) =~= ms);
            assert(spec_lexicon_entries(out@) =~= Seq::<(u32, int)>::empty());
            match spec_expand(table, lex, ms) {
                Some(x) => {
                    assert(Seq::<(u32, int)>::empty() + x =~= x);
                },
                None => {},
            }
        }
        let mut i: usize = 0;
        while i < n
            invariant
                i <= n,
                n == matches@.len(),
                self.wf(),
                self.spec_lex_id() < MAX_DICTIONARIES,
                table == self.spec_table(),
                lex == self.spec_lex_id() as int,
                ms == spec_common_prefix(self.spec_trie(), input@, offset as int),
                ms.len() == n,
                forall|k: int|
                    0 <= k < n ==> (#[trigger] matches@[k]).value == ms[k].0 && matches@[k].end
                        == ms[k].1,
                spec_expand(table, lex, ms) == spec_prepend_all(
                    spec_lexicon_entries(out@),
                    spec_expand(table, lex, ms.skip(i as int)),
                ),
            decreases n - i,
        {
            let e: TrieEntry = matches[i];
            let ghost rest = ms.skip(i as int);
            proof {
                assert(rest[0] == ms[i as int]);
                assert(rest.drop_first() =~= ms.skip(i as int + 1));
            }
            let ids = match self.word_id_table.entries(e.value as usize) {
                Ok(ids) => ids,
                Err(err) => {
                    proof {
                        assert(spec_word_ids_at(table, rest[0].0 as int) is None);
                        assert(spec_expand(table, lex, rest) is None);
                        assert(spec_expand(table, lex, ms) is None);
                    }
                    return Err(err);
                },
            };
            let ghost before = out@;
            let ghost mapped = ids@.map_values(
                |id: u32| (spec_raw_of(lex, id as int) as u32, e.end as int),
            );
            let m = ids.len();
            let mut j: usize = 0;
            while j < m
                invariant
                    j <= m,
                    m == ids@.len(),
                    self.spec_lex_id() < MAX_DICTIONARIES,
                    lex == self.spec_lex_id() as int,
                    mapped == ids@.map_values(
                        |id: u32| (spec_raw_of(lex, id as int) as u32, e.end as int),
                    ),
                    forall|k: int| 0 <= k < j ==> ids@[k] <= MAX_WORD,
                    spec_lexicon_entries(out@) =~= spec_lexicon_entries(before) + mapped.take(
                        j as int,
                    ),
                    rest.len() > 0,
                    rest[0].0 == e.value,
                    ms == spec_common_prefix(self.spec_trie(), input@, offset as int),
                    table == self.spec_table(),
                    Some(ids@) == spec_word_ids_at(table, e.value as int),
                    spec_expand(table, lex, ms) == spec_prepend_all(
                        spec_lexicon_entries(before),
                        spec_expand(table, lex, rest),
                    ),
                decreases m - j,
            {
                let wid = ids[j];
                if wid > MAX_WORD {
                    proof {
                        assert(ids@[j as int] > MAX_WORD);
                        assert(spec_expand(table, lex, rest) is None);
                        assert(spec_expand(table, lex, ms) is None);
                    }
                    return Err(SudachiError::InvalidWordId(WordId::from_raw(wid)));
                }
                let ghost prev = out@;
                let entry = LexiconEntry::new(WordId::new(self.lex_id, wid), e.end);
                out.push(entry);
                proof {
                    assert(mapped[j as int] == (spec_raw_of(lex, wid as int) as u32, e.end as int));
                    assert(spec_lexicon_entries(out@) =~= spec_lexicon_entries(prev).push(
                        (entry.word_id@, entry.end as int),
                    ));
                    assert(mapped.take(j as int + 1) =~= mapped.take(j as int).push(mapped[j as int]));
                }
                j = j + 1;
            }
            proof {
                assert(mapped.take(m as int) =~= mapped);
                assert(!(exists|k: int| 0 <= k < ids@.len() && ids@[k] > MAX_WORD));
                match spec_expand(table, lex, ms.skip(i as int + 1)) {
                    Some(x) => {
                        assert(spec_lexicon_entries(before) + (mapped + x) =~= (
                        spec_lexicon_entries(before) + mapped) + x);
                    },
                    None => {},
                }
            }
            i = i + 1;
        }
        proof {
            assert(ms.skip(n as int) =~= Seq::<(u32, int)>::empty());
            assert(spec_lexicon_entries(out@) + Seq::<(u32, int)>::empty() =~= spec_lexicon_entries(
                out@,
            ));
        }
        Ok(out)
    }

    /// Word information of entry `word_id` with the fields `subset` selects.
    pub fn get_word_info(&self, word_id: u32, subset: InfoSubset) -> (r: SudachiResult<WordInfo>)
        ensures
            r is Ok <==> spec_word_info(
                self.spec_info_bytes(),
                self.spec_info_offset(),
                word_id as int,
                subset,
                self.spec_has_syn(),
            ) is Some,
            r matches Ok(w) ==> Some(w@) == spec_word_info(
                self.spec_info_bytes(),
                self.spec_info_offset(),
                word_id as int,
                subset,
                self.spec_has_syn(),
            ),
    {
        self.word_infos.get_word_info(word_id, subset)
    }

    /// Connection ids and cost `(left_id, right_id, cost)` of entry `word_id`.
    pub fn get_word_param(&self, word_id: u32) -> (r: (i16, i16, i16))
        requires
            word_id < self.spec_params().len(),
        ensures
            r == (
                spec_left_id(self.spec_params()[word_id as int]),
                spec_right_id(self.spec_params()[word_id as int]),
                spec_cost_of(self.spec_params()[word_id as int]),
            ),
    {
        let p = self.word_params.get_params(word_id);
        (p.left_id(), p.right_id(), p.cost())
    }

    /// Connection ids and cost of entry `word_id`, or `None` when there is no such entry.
    pub fn get_word_param_checked(&self, word_id: u32) -> (r: Option<(i16, i16, i16)>)
        ensures
            r is Some <==> word_id < self.spec_params().len(),
            r matches Some(t) ==> t == (
                spec_left_id(self.spec_params()[word_id as int]),
                spec_right_id(self.spec_params()[word_id as int]),
                spec_cost_of(self.spec_params()[word_id as int]),
            ),
    {
        match self.word_params.get_params_checked(word_id) {
            Some(p) => Some((p.left_id(), p.right_id(), p.cost())),
            None => None,
        }
    }

    /// Replaces the cost of entry `word_id`.
    pub fn set_word_cost(&mut self, word_id: u32, cost: i16)
        requires
            word_id < old(self).spec_params().len(),
        ensures
            final(self).spec_params().len() == old(self).spec_params().len(),
            spec_cost_of(final(self).spec_params()[word_id as int]) == cost,
            spec_left_id(final(self).spec_params()[word_id as int]) == spec_left_id(
                old(self).spec_params()[word_id as int],
            ),
            spec_right_id(final(self).spec_params()[word_id as int]) == spec_right_id(
                old(self).spec_params()[word_id as int],
            ),
            forall|k: int|
                0 <= k < old(self).spec_params().len() && k != word_id
                    ==> #[trigger] final(self).spec_params()[k] == old(self).spec_params()[k],
            final(self).spec_trie() == old(self).spec_trie(),
            final(self).spec_table() == old(self).spec_table(),
            final(self).spec_info_bytes() == old(self).spec_info_bytes(),
            final(self).spec_info_offset() == old(self).spec_info_offset(),
            final(self).spec_has_syn() == old(self).spec_has_syn(),
            final(self).spec_lex_id() == old(self).spec_lex_id(),
            old(self).wf() ==> final(self).wf(),
    {
        proof {
            crate::dic::lexicon::word_params::lemma_with_cost(
                self.word_params.spec_data()[word_id as int],
                cost,
            );
        }
        self.word_params.set_cost(word_id, cost);
    }

    /// Number of words.
    pub fn size(&self) -> (r: u32)
        requires
            self.wf(),
        ensures
            r == self.spec_params().len(),
            r <= MAX_WORD + 1,
    {
        self.word_params.size()
    }
}

/// Cost added for each morpheme of the analysis of a user word.
pub const USER_DICT_COST_PER_MORPH: i32 = -20;

/// Cost of a user word whose surface analyzes into `morphemes` morphemes
/// with the given internal cost, clamped to the range of `i16`.
pub open spec fn spec_user_word_cost(internal_cost: i32, morphemes: nat) -> i16 {
    let c = internal_cost + USER_DICT_COST_PER_MORPH * morphemes;
    if c > i16::MAX {
        i16::MAX
    } else if c < i16::MIN {
        i16::MIN
    } else {
        c as i16
    }
}

/// Whether `cost` is the cost of a user word for some analysis of its
/// surface.
pub open spec fn spec_is_user_cost(cost: i16) -> bool {
    exists|c: i32, n: nat| cost == #[trigger] spec_user_word_cost(c, n)
}

/// Cost of a user word whose surface analyzes into `morphemes` morphemes
/// with the given internal cost, clamped to the range of `i16`.
pub fn user_word_cost(internal_cost: i32, morphemes: usize) -> (r: i16)
    ensures
        r == spec_user_word_cost(internal_cost, morphemes as nat),
{
    let n: i64 = if morphemes > 1_000_000_000 {
        1_000_000_000
    } else {
        morphemes as i64
    };
    let c: i64 = internal_cost as i64 + (USER_DICT_COST_PER_MORPH as i64) * n;
    if c > i16::MAX as i64 {
        i16::MAX
    } else if c < i16::MIN as i64 {
        i16::MIN
    } else {
        c as i16
    }
}

impl Lexicon {
    /// Gives each entry whose cost is `i16::MIN` the cost of its surface as
    /// `dict` analyzes it in mode C: the internal cost of the analysis plus
    /// [`USER_DICT_COST_PER_MORPH`] per morpheme, clamped. Other entries keep
    /// their costs. An error when an entry cannot be read or its surface
    /// cannot be analyzed.
    pub fn update_cost(&mut self, dict: &JapaneseDictionary) -> (r: SudachiResult<()>)
        requires
            old(self).wf(),
        ensures
            final(self).wf(),
            final(self).spec_params().len() == old(self).spec_params().len(),
            final(self).spec_trie() == old(self).spec_trie(),
            final(self).spec_table() == old(self).spec_table(),
            final(self).spec_info_bytes() == old(self).spec_info_bytes(),
            final(self).spec_info_offset() == old(self).spec_info_offset(),
            final(self).spec_has_syn() == old(self).spec_has_syn(),
            final(self).spec_lex_id() == old(self).spec_lex_id(),
            forall|k: int|
                0 <= k < old(self).spec_params().len() && spec_cost_of(old(self).spec_params()[k])
                    != i16::MIN ==> #[trigger] final(self).spec_params()[k] == old(self).spec_params()[k],
            forall|k: int|
                0 <= k < old(self).spec_params().len() ==> spec_left_id(
                    #[trigger] final(self).spec_params()[k],
                ) == spec_left_id(old(self).spec_params()[k]) && spec_right_id(
                    final(self).spec_params()[k],
                ) == spec_right_id(old(self).spec_params()[k]),
            r is Err ==> exists|k: int|
                0 <= k < old(self).spec_params().len() && #[trigger] spec_cost_of(old(self).spec_params()[k])
                    == i16::MIN,
            r is Ok ==> forall|k: int|
                0 <= k < old(self).spec_params().len() && spec_cost_of(old(self).spec_params()[k]) == i16::MIN
                    ==> spec_is_user_cost(spec_cost_of(#[trigger] final(self).spec_params()[k])),
    {
        let mut tok = StatefulTokenizer::create(dict, false, Mode::C);
        let mut ms = MorphemeList::empty(dict);
        let size = self.size();
        let mut wid: u32 = 0;
        while wid < size
            invariant
                self.wf(),
                size == self.spec_params().len(),
                wid <= size,
                tok.spec_result_ok(),
                tok.spec_dict() == dict,
                ms.spec_dict() == dict,
                self.spec_trie() == old(self).spec_trie(),
                self.spec_table() == old(self).spec_table(),
                self.spec_info_bytes() == old(self).spec_info_bytes(),
                self.spec_info_offset() == old(self).spec_info_offset(),
                self.spec_has_syn() == old(self).spec_has_syn(),
                self.spec_lex_id() == old(self).spec_lex_id(),
                self.spec_params().len() == old(self).spec_params().len(),
                forall|k: int|
                    0 <= k < old(self).spec_params().len() && spec_cost_of(old(self).spec_params()[k])
                        != i16::MIN ==> #[trigger] self.spec_params()[k] == old(self).spec_params()[k],
                forall|k: int|
                    wid <= k < old(self).spec_params().len() ==> #[trigger] self.spec_params()[k]
                        == old(self).spec_params()[k],
                forall|k: int|
                    0 <= k < wid && spec_cost_of(old(self).spec_params()[k]) == i16::MIN ==> spec_is_user_cost(
                        spec_cost_of(#[trigger] self.spec_params()[k]),
                    ),
                forall|k: int|
                    0 <= k < old(self).spec_params().len() ==> spec_left_id(
                        #[trigger] self.spec_params()[k],
                    ) == spec_left_id(old(self).spec_params()[k]) && spec_right_id(
                        self.spec_params()[k],
                    ) == spec_right_id(old(self).spec_params()[k]),
            decreases size - wid,
        {
            let (_, _, cost) = self.get_word_param(wid);
            if cost == i16::MIN {
                proof {
                    assert(self.spec_params()[wid as int] == old(self).spec_params()[wid as int]);
                    assert(spec_cost_of(old(self).spec_params()[wid as int]) == i16::MIN);
                }
                let wi = self.get_word_info(wid, InfoSubset(SURFACE))?;
                tok.set_text(wi.surface());
                tok.do_tokenize()?;
                ms.collect_results(&mut tok)?;
                let internal_cost = ms.get_internal_cost();
                let count = ms.len();
                let c = user_word_cost(internal_cost, count);
                let ghost before = self.spec_params();
                self.set_word_cost(wid, c);
                proof {
                    assert(spec_cost_of(self.spec_params()[wid as int]) == spec_user_word_cost(
                        internal_cost,
                        count as nat,
                    ));
                    assert(spec_is_user_cost(c));
                    assert forall|k: int|
                        0 <= k < wid + 1 && spec_cost_of(old(self).spec_params()[k]) == i16::MIN implies spec_is_user_cost(
                            spec_cost_of(#[trigger] self.spec_params()[k]),
                        ) by {
                        if k == wid {
                        } else {
                            assert(self.spec_params()[k] == before[k]);
                        }
                    }
                    assert forall|k: int|
                        0 <= k < old(self).spec_params().len() && spec_cost_of(old(self).spec_params()[k])
                            != i16::MIN implies #[trigger] self.spec_params()[k] == old(self).spec_params()[k] by {
                        if k == wid {
                            assert(before[k] == old(self).spec_params()[k]);
                        }
                    }
                }
            }
            wid = wid + 1;
        }
        Ok(())
    }
}

} // verus!
