//! Access to the parts of a dictionary, and lookups over all its entries.

use std::collections::HashMap;
use vstd::prelude::*;

use crate::analysis::morpheme::{spec_single_ok, SingleMorpheme};
use crate::dic::binary_loader::LoadedDictionary;
use crate::dic::description::Description;
use crate::dic::dictionary::JapaneseDictionary;
use crate::dic::grammar::Grammar;
use crate::dic::lexicon::word_infos::spec_raw_ids;
use crate::dic::lexicon_set::{spec_all_word_ids, LexiconSet};
use crate::dic::subset::{InfoSubset, SURFACE};
use crate::dic::word_id::WordId;
use crate::error::{SudachiError, SudachiResult};
use crate::input_text::{str_sizes, InputBuffer};

verus! {

/// Gives access to the lexicons.
pub trait LexiconAccess {
    /// The lexicons.
    fn lexicon(&self) -> &LexiconSet;
}

/// Gives access to the description of a dictionary.
pub trait DescriptionAccess {
    /// The description.
    fn description(&self) -> &Description;
}

/// Gives access to the reference ids of entries, by entry id.
pub trait ReferenceIdAccess {
    /// The reference ids of entries, by entry id.
    fn reference_ids(&self) -> HashMap<u32, String>;
}

/// Gives access to the lexicons and the grammar.
pub trait DictionaryAccess: LexiconAccess {
    /// The grammar.
    fn grammar(&self) -> &Grammar;
}

impl LexiconAccess for JapaneseDictionary {
    fn lexicon(&self) -> (r: &LexiconSet)
        ensures
            *r == self.spec_lexicon(),
    {
        JapaneseDictionary::lexicon(self)
    }
}

impl DictionaryAccess for JapaneseDictionary {
    fn grammar(&self) -> (r: &Grammar)
        ensures
            *r == self.spec_grammar(),
    {
        JapaneseDictionary::grammar(self)
    }
}

impl LexiconAccess for LoadedDictionary {
    fn lexicon(&self) -> (r: &LexiconSet)
        ensures
            *r == self.lexicon_set,
    {
        &self.lexicon_set
    }
}

impl DictionaryAccess for LoadedDictionary {
    fn grammar(&self) -> (r: &Grammar)
        ensures
            *r == self.grammar,
    {
        &self.grammar
    }
}

impl DescriptionAccess for LoadedDictionary {
    fn description(&self) -> (r: &Description)
        ensures
            *r == self.description,
    {
        &self.description
    }
}

/// Puts `text` into `buffer` as the input to analyze; the dictionary has no
/// input text rewriting, so the text is kept as it is. An error when the
/// text has as many characters as a `usize` can count.
pub fn normalize_input_text(dict: &JapaneseDictionary, text: &str, buffer: &mut InputBuffer) -> (r:
    SudachiResult<()>)
    ensures
        r is Ok <==> text@.len() < usize::MAX,
        r is Ok ==> final(buffer).wf() && final(buffer).spec_text() == text@,
        r is Err ==> *final(buffer) == *old(buffer),
{
    let (bytes, chars) = str_sizes(text);
    if chars == usize::MAX {
        return Err(SudachiError::InvalidRange(0, bytes));
    }
    *buffer = InputBuffer::from_text(text);
    Ok(())
}

/// Whether entry `raw` of `dict` has head word `surface`; `None` when its
/// word information cannot be read, or its head word cannot be taken as
/// input text.
pub open spec fn spec_headword_is(dict: &JapaneseDictionary, raw: u32, surface: Seq<char>) -> Option<
    bool,
> {
    match dict.spec_lexicon().spec_word_info(WordId::spec_from_raw(raw), InfoSubset(SURFACE)) {
        None => None,
        Some(m) => if m.surface.len() < usize::MAX {
            Some(m.surface == surface)
        } else {
            None
        },
    }
}

/// The entries among `ids` whose head word is `surface`, in order; `None`
/// when one cannot be read, or a match cannot make a standalone morpheme
/// with the fields `subset` selects.
pub open spec fn spec_scan(
    dict: &JapaneseDictionary,
    ids: Seq<u32>,
    surface: Seq<char>,
    subset: InfoSubset,
) -> Option<Seq<u32>>
    decreases ids.len(),
{
    if ids.len() == 0 {
        Some(Seq::empty())
    } else {
        match spec_scan(dict, ids.drop_last(), surface, subset) {
            None => None,
            Some(found) => match spec_headword_is(dict, ids.last(), surface) {
                None => None,
                Some(false) => Some(found),
                Some(true) => if spec_single_ok(dict, ids.last(), subset) {
                    Some(found.push(ids.last()))
                } else {
                    None
                },
            },
        }
    }
}

/// Once a scan fails, scanning more ids fails too.
proof fn lemma_scan_fails_onward(
    dict: &JapaneseDictionary,
    ids: Seq<u32>,
    surface: Seq<char>,
    subset: InfoSubset,
    i: int,
)
    requires
        0 <= i <= ids.len(),
        spec_scan(dict, ids.take(i), surface, subset) is None,
    ensures
        spec_scan(dict, ids, surface, subset) is None,
    decreases ids.len() - i,
{
    if i < ids.len() {
        assert(ids.take(i + 1).drop_last() =~= ids.take(i));
        lemma_scan_fails_onward(dict, ids, surface, subset, i + 1);
    } else {
        assert(ids.take(i) =~= ids);
    }
}

/// Standalone morphemes of every entry of `dict` whose head word is
/// `surface`, dictionary by dictionary and in entry order, each reading the
/// fields `subset` selects; an error when an entry cannot be read.
#[verifier::rlimit(60)]
#[verifier::spinoff_prover]
pub fn lookup_all_entries<'a>(dict: &'a JapaneseDictionary, surface: &str, subset: InfoSubset) -> (r:
    SudachiResult<Vec<SingleMorpheme<'a>>>)
    ensures
        ({
            let lex = dict.spec_lexicon();
            let ids = spec_all_word_ids(lex.spec_lexicons(), lex.spec_lexicons().len() as int);
            match spec_scan(dict, ids, surface@, subset) {
                None => surface@.len() < usize::MAX ==> r is Err,
                Some(found) => surface@.len() < usize::MAX ==> (r matches Ok(v) && v@.len()
                    == found.len() && forall|k: int|
                    0 <= k < found.len() ==> (#[trigger] v@[k]).spec_is_entry(dict, found[k], subset)),
            }
        }),
        surface@.len() >= usize::MAX ==> r is Err,
{
    proof {
        use_type_invariant(dict);
    }
    let mut query = InputBuffer::new();
    normalize_input_text(dict, surface, &mut query)?;
    let lexicon = dict.lexicon();
    let ids = lexicon.word_ids();
    let ghost all = spec_raw_ids(ids@);
    let mut result: Vec<SingleMorpheme<'a>> = Vec::new();
    let mut i: usize = 0;
    proof {
        assert(all.take(0) =~= Seq::<u32>::empty());
    }
    while i < ids.len()
        invariant
            i <= ids@.len(),
            all == spec_raw_ids(ids@),
            all == spec_all_word_ids(
                dict.spec_lexicon().spec_lexicons(),
                dict.spec_lexicon().spec_lexicons().len() as int,
            ),
            *lexicon == dict.spec_lexicon(),
            lexicon.wf(),
            query.wf(),
            query.spec_text() == surface@,
            spec_scan(dict, all.take(i as int), surface@, subset) matches Some(found) && result@.len()
                == found.len() && forall|k: int|
                0 <= k < found.len() ==> (#[trigger] result@[k]).spec_is_entry(dict, found[k], subset),
        decreases ids@.len() - i,
    {
        let w = ids[i];
        let ghost found = spec_scan(dict, all.take(i as int), surface@, subset)->0;
        proof {
            assert(all.take(i + 1).drop_last() =~= all.take(i as int));
            assert(all.take(i + 1).last() == w@);
            WordId::lemma_from_raw(w@);
        }
        let info = match lexicon.get_word_info_subset(w, InfoSubset(SURFACE)) {
            Ok(info) => info,
            Err(e) => {
                proof {
                    lemma_scan_fails_onward(dict, all, surface@, subset, i + 1);
                }
                return Err(e);
            },
        };
        let mut entry = InputBuffer::new();
        match normalize_input_text(dict, info.surface(), &mut entry) {
            Ok(()) => {},
            Err(e) => {
                proof {
                    lemma_scan_fails_onward(dict, all, surface@, subset, i + 1);
                }
                return Err(e);
            },
        }
        if crate::dic::build::primitives::str_eq(entry.current(), query.current()) {
            match SingleMorpheme::from_word_id(dict, w, subset) {
                Ok(m) => {
                    let ghost before = result@;
                    result.push(m);
                    proof {
                        assert(forall|k: int| 0 <= k < before.len() ==> result@[k] == before[k]);
                    }
                },
                Err(e) => {
                    proof {
                        lemma_scan_fails_onward(dict, all, surface@, subset, i + 1);
                    }
                    return Err(e);
                },
            }
        }
        i = i + 1;
    }
    proof {
        assert(all.take(i as int) =~= all);
    }
    Ok(result)
}

} // verus!
