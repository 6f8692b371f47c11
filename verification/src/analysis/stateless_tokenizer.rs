//! Tokenizer without state between analyses, and the splitting of a path.

use vstd::prelude::*;

use crate::analysis::mlist::{spec_all_fit, spec_node_split_ok, spec_word_ids, MorphemeList};
use crate::analysis::node::spec_split_ok;
use crate::dic::word_id::WordId;
use crate::analysis::lattice::MAX_LATTICE_LENGTH;
use crate::analysis::mode::Mode;
use crate::analysis::node::{spec_node_fits, spec_tiles, ResultNode};
use crate::dic::lexicon::word_infos::spec_raw_ids;
use crate::analysis::stateful_tokenizer::{spec_analysis_failed, StatefulTokenizer};
use crate::analysis::Tokenize;
use crate::dic::dictionary::JapaneseDictionary;
use crate::dic::subset::InfoSubset;
use crate::error::SudachiResult;
use crate::input_text::InputBuffer;

verus! {

/// Tokenizer that creates a fresh stateful tokenizer for each analysis.
pub struct StatelessTokenizer<'a> {
    dict: &'a JapaneseDictionary,
}

impl<'a> StatelessTokenizer<'a> {
    /// The dictionary.
    pub closed spec fn spec_dict(&self) -> &'a JapaneseDictionary {
        self.dict
    }

    /// A tokenizer over `dict`.
    pub fn new(dict: &'a JapaneseDictionary) -> (r: StatelessTokenizer<'a>)
        ensures
            r.spec_dict() == dict,
    {
        StatelessTokenizer { dict }
    }

    /// The dictionary.
    pub fn as_dict(&self) -> (r: &'a JapaneseDictionary)
        ensures
            r == self.spec_dict(),
    {
        self.dict
    }
}

impl<'a> Tokenize<'a> for StatelessTokenizer<'a> {
    fn tokenize(&self, input: &str, mode: Mode, enable_debug: bool) -> (r: SudachiResult<
        MorphemeList<'a>,
    >)
        ensures
            r matches Ok(l) ==> l.spec_dict() == self.spec_dict() && l.spec_input().spec_text()
                == input@,
            input@.len() > MAX_LATTICE_LENGTH ==> r is Err,
            input@.len() == 0 ==> (r matches Ok(l) && l.spec_nodes().len() == 0),
            r matches Ok(l) ==> spec_tiles(l.spec_nodes(), input@.len() as int),
            r matches Ok(l) ==> l.spec_subset() == crate::dic::subset::InfoSubset::spec_all(),
            r is Err ==> input@.len() > MAX_LATTICE_LENGTH || spec_analysis_failed(
                self.spec_dict(),
                input@,
                crate::dic::subset::InfoSubset::spec_all(),
                mode,
            ),
    {
        proof {
            use_type_invariant(self.dict);
        }
        let mut tok = StatefulTokenizer::create(self.dict, enable_debug, mode);
        tok.set_text(input);
        tok.do_tokenize()?;
        tok.into_morpheme_list()
    }
}

/// Whether each of `v` but the last ends where the next one begins.
pub open spec fn spec_chained(v: Seq<ResultNode>) -> bool {
    forall|j: int| 0 <= j < v.len() - 1 ==> #[trigger] v[j + 1].spec_inner().spec_begin() == v[j].spec_inner().spec_end()
}

/// The path with each node that splits into several parts in `mode`
/// replaced by its parts; unchanged in mode C. Nodes that lie inside the
/// text give parts that lie inside it too, and a path that covers the text
/// gives one that covers it too.
#[verifier::spinoff_prover]
#[verifier::rlimit(80)]
pub fn split_path(
    dict: &JapaneseDictionary,
    path: Vec<ResultNode>,
    mode: Mode,
    subset: InfoSubset,
    input: &InputBuffer,
) -> (r: SudachiResult<Vec<ResultNode>>)
    requires
        input.wf(),
        spec_all_fit(path@, input.spec_text()),
    ensures
        mode == Mode::C ==> (r matches Ok(v) && v@ == path@),
        r matches Ok(v) ==> spec_all_fit(v@, input.spec_text()),
        r matches Ok(v) ==> (spec_tiles(path@, input.spec_text().len() as int) ==> spec_tiles(
            v@,
            input.spec_text().len() as int,
        )),
        r is Err ==> exists|i: int|
            0 <= i < path@.len() && !spec_node_split_ok(
                #[trigger] path@[i],
                mode,
                &dict.spec_lexicon(),
                subset,
                input.spec_text(),
            ),
{
    if mode == Mode::C {
        return Ok(path);
    }
    proof {
        use_type_invariant(dict);
    }
    let ghost tiles = spec_tiles(path@, input.spec_text().len() as int);
    let lexicon = dict.lexicon();
    let mut new_path: Vec<ResultNode> = Vec::new();
    let n = path.len();
    let mut i: usize = 0;
    while i < n
        invariant
            i <= n,
            n == path@.len(),
            lexicon.wf(),
            input.wf(),
            mode != Mode::C,
            spec_all_fit(path@, input.spec_text()),
            spec_all_fit(new_path@, input.spec_text()),
            tiles == spec_tiles(path@, input.spec_text().len() as int),
            *lexicon == dict.spec_lexicon(),
            tiles ==> spec_chained(new_path@),
            tiles && i == 0 ==> new_path@.len() == 0,
            tiles && i > 0 ==> new_path@.len() > 0 && new_path@[0].spec_inner().spec_begin() == 0
                && new_path@.last().spec_inner().spec_end() == path@[i - 1].spec_inner().spec_end(),
        decreases n - i,
    {
        let node = &path[i];
        let ghost cur = path@[i as int];
        let ghost len0 = new_path@.len();
        proof {
            assert(spec_node_fits(path@[i as int], input.spec_text()));
            if tiles && i > 0 {
                assert(path@[(i - 1) + 1].spec_inner().spec_begin() == path@[i - 1].spec_inner().spec_end());
            }
        }
        if node.num_splits(mode) <= 1 {
            let d = node.duplicate();
            let ghost before = new_path@;
            new_path.push(d);
            proof {
                if tiles {
                    assert forall|j: int| 0 <= j < new_path@.len() - 1 implies #[trigger] new_path@[j
                        + 1].spec_inner().spec_begin() == new_path@[j].spec_inner().spec_end() by {
                        if j + 1 < before.len() {
                            assert(new_path@[j + 1] == before[j + 1]);
                        }
                        assert(new_path@[j] == before[j]);
                    }
                }
            }
        } else {
            let mut it = node.split(mode, lexicon, subset, input);
            proof {
                assert(it.spec_remaining().len() >= 2) by {
                    assert(spec_raw_ids(it.spec_remaining()).len() == it.spec_remaining().len());
                }
                let ids = spec_word_ids(cur.spec_splits(mode));
                assert forall|k: int| 0 <= k < ids.len() implies #[trigger] it.spec_remaining()[k] == ids[k] by {
                    assert(it.spec_remaining()[k]@ == cur.spec_splits(mode)[k]);
                    WordId::lemma_from_raw(cur.spec_splits(mode)[k]);
                }
                assert(it.spec_remaining() =~= ids);
            }
            loop
                invariant
                    it.spec_lexicon() == lexicon,
                    it.spec_text() == input,
                    lexicon.wf(),
                    input.wf(),
                    it.spec_position_ok(),
                    mode != Mode::C,
                    spec_all_fit(new_path@, input.spec_text()),
                    new_path@.len() >= len0,
                    it.spec_char_end() == cur.spec_inner().spec_end(),
                    it.spec_remaining().len() == 0 ==> it.spec_char_offset() == it.spec_char_end(),
                    new_path@.len() == len0 ==> it.spec_char_offset() == cur.spec_inner().spec_begin()
                        && it.spec_remaining().len() > 0,
                    new_path@.len() > len0 ==> new_path@.last().spec_inner().spec_end() == it.spec_char_offset(),
                    tiles ==> spec_chained(new_path@),
                    tiles && len0 == 0 ==> cur.spec_inner().spec_begin() == 0,
                    tiles && len0 > 0 ==> new_path@[len0 - 1].spec_inner().spec_end() == cur.spec_inner().spec_begin()
                        && new_path@[0].spec_inner().spec_begin() == 0,
                    tiles && new_path@.len() > 0 ==> new_path@[0].spec_inner().spec_begin() == 0,
                    cur == path@[i as int],
                    it.spec_subset() == subset,
                    *lexicon == dict.spec_lexicon(),
                    i < n,
                    n == path@.len(),
                    spec_node_split_ok(cur, mode, lexicon, subset, input.spec_text()) <==> spec_split_ok(
                        lexicon,
                        subset,
                        input.spec_text(),
                        it.spec_remaining(),
                        it.spec_byte_offset() as int,
                        cur.spec_inner().spec_end() as int,
                    ),
                ensures
                    it.spec_remaining().len() == 0,
                decreases it.spec_remaining().len(),
            {
                let ghost it0 = it;
                let next = match it.next() {
                    Ok(x) => x,
                    Err(e) => {
                        proof {
                            assert(!spec_node_split_ok(cur, mode, lexicon, subset, input.spec_text()));
                            assert(!spec_node_split_ok(path@[i as int], mode, &dict.spec_lexicon(), subset, input.spec_text()));
                            assert(0 <= i < path@.len());
                            assert(exists|i2: int|
                                0 <= i2 < path@.len() && !spec_node_split_ok(
                                    #[trigger] path@[i2],
                                    mode,
                                    &dict.spec_lexicon(),
                                    subset,
                                    input.spec_text(),
                                ));
                        }
                        return Err(e);
                    },
                };
                match next {
                    Some(part) => {
                        let ghost before = new_path@;
                        new_path.push(part);
                        proof {
                            if it0.spec_remaining().len() == 1 {
                                assert(it.spec_remaining().len() == 0);
                            }
                            if tiles {
                                assert forall|j: int| 0 <= j < new_path@.len() - 1 implies #[trigger] new_path@[j
                                    + 1].spec_inner().spec_begin() == new_path@[j].spec_inner().spec_end() by {
                                    if j + 1 < before.len() {
                                        assert(new_path@[j + 1] == before[j + 1]);
                                    }
                                    assert(new_path@[j] == before[j]);
                                }
                            }
                            if len0 > 0 {
                                assert(new_path@[len0 - 1] == before[len0 - 1]);
                            }
                            if before.len() > 0 {
                                assert(new_path@[0] == before[0]);
                            }
                        }
                    },
                    None => {
                        break;
                    },
                }
            }
        }
        i = i + 1;
    }
    Ok(new_path)
}

} // verus!
