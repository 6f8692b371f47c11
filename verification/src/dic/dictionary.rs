//! A dictionary ready for analysis: grammar, lexicons and the provider of
//! unknown words.

use vstd::prelude::*;

use crate::dic::binary_loader::{BinaryDictionary, LoadedDictionary};
use crate::dic::connect::ConnectionMatrix;
use crate::dic::grammar::Grammar;
use crate::dic::lexicon::word_params::spec_cost_of;
use crate::dic::lexicon::Lexicon;
use crate::dic::lexicon_set::LexiconSet;
use crate::error::{SudachiError, SudachiResult};
use crate::plugin::oov::SimpleOovPlugin;

verus! {

/// Grammar, lexicons and unknown word provider of an analysis.
pub struct JapaneseDictionary {
    grammar: Grammar,
    lexicon: LexiconSet,
    oov: SimpleOovPlugin,
}

impl JapaneseDictionary {
    /// The grammar.
    pub closed spec fn spec_grammar(&self) -> Grammar {
        self.grammar
    }

    /// The lexicons.
    pub closed spec fn spec_lexicon(&self) -> LexiconSet {
        self.lexicon
    }

    /// The unknown word provider.
    pub closed spec fn spec_oov(&self) -> SimpleOovPlugin {
        self.oov
    }

    /// The lexicons are well formed, the connection matrix has at least one
    /// id on each side, and the unknown words' ids fall inside it and their
    /// part of speech inside the grammar.
    #[verifier::type_invariant]
    pub open spec fn wf(&self) -> bool {
        let conn = self.spec_grammar().spec_connection();
        &&& self.spec_lexicon().wf()
        &&& conn.wf()
        &&& conn.spec_num_left() > 0
        &&& conn.spec_num_right() > 0
        &&& self.spec_oov().left_id < conn.spec_num_right()
        &&& self.spec_oov().right_id < conn.spec_num_left()
        &&& self.spec_oov().pos_id < self.spec_grammar().spec_pos_vec().len()
    }

    /// A dictionary made of a loaded system dictionary (with its user
    /// dictionaries) and an unknown word provider; an error when the
    /// connection matrix is empty or the provider does not fit the grammar.
    pub fn from_loaded(loaded: LoadedDictionary, oov: SimpleOovPlugin) -> (r: SudachiResult<
        JapaneseDictionary,
    >)
        requires
            loaded.spec_lexicon_set().wf(),
            loaded.spec_grammar().spec_connection().wf(),
        ensures
            r matches Ok(d) ==> d.wf() && d.spec_grammar() == loaded.spec_grammar()
                && d.spec_lexicon() == loaded.spec_lexicon_set() && d.spec_oov() == oov,
            r is Ok <==> ({
                let conn = loaded.spec_grammar().spec_connection();
                &&& conn.spec_num_left() > 0
                &&& conn.spec_num_right() > 0
                &&& oov.left_id < conn.spec_num_right()
                &&& oov.right_id < conn.spec_num_left()
                &&& oov.pos_id < loaded.spec_grammar().spec_pos_vec().len()
            }),
    {
        let grammar = loaded.grammar;
        let lexicon = loaded.lexicon_set;
        proof {
            grammar.lemma_pos_vec();
        }
        let conn = grammar.conn_matrix();
        if conn.num_left() == 0 || conn.num_right() == 0 || oov.left_id as usize >= conn.num_right()
            || oov.right_id as usize >= conn.num_left() || oov.pos_id as usize
            >= grammar.pos_list.len() {
            return Err(SudachiError::InvalidDictionaryGrammar);
        }
        Ok(JapaneseDictionary { grammar, lexicon, oov })
    }

    /// The grammar.
    pub fn grammar(&self) -> (r: &Grammar)
        ensures
            *r == self.spec_grammar(),
    {
        &self.grammar
    }

    /// The lexicons.
    pub fn lexicon(&self) -> (r: &LexiconSet)
        ensures
            *r == self.spec_lexicon(),
    {
        &self.lexicon
    }

    /// The unknown word provider.
    pub fn oov_provider(&self) -> (r: &SimpleOovPlugin)
        ensures
            *r == self.spec_oov(),
    {
        &self.oov
    }

    /// Adds a user dictionary: first each of its words whose cost is
    /// `i16::MIN` gets the cost of its surface as this dictionary analyzes it
    /// (see [`Lexicon::update_cost`]), then its lexicon goes after the
    /// others and its parts of speech after those of the grammar. An error
    /// when a cost cannot be computed or the set is full.
    pub fn merge_user_dictionary(self, user: BinaryDictionary) -> (r: SudachiResult<
        JapaneseDictionary,
    >)
        requires
            self.wf(),
            user.lexicon_ok(),
        ensures
            r matches Ok(d) ==> d.wf() && d.spec_lexicon().spec_lexicons().len()
                == self.spec_lexicon().spec_lexicons().len() + 1 && d.spec_oov() == self.spec_oov(),
            self.spec_lexicon().spec_lexicons().len() >= crate::dic::lexicon::MAX_DICTIONARIES
                ==> r is Err,
            self.spec_lexicon().spec_lexicons().len() < crate::dic::lexicon::MAX_DICTIONARIES
                && (forall|k: int|
                0 <= k < user.lexicon.word_params.spec_data().len() ==> spec_cost_of(
                    #[trigger] user.lexicon.word_params.spec_data()[k],
                ) != i16::MIN) ==> r is Ok,
            r matches Ok(d) ==> {
                let n = self.spec_lexicon().spec_lexicons().len() as int;
                &&& d.spec_grammar().spec_pos_vec() == self.spec_grammar().spec_pos_vec() + user.grammar.pos_list@
                &&& d.spec_grammar().spec_connection() == self.spec_grammar().spec_connection()
                &&& forall|i: int|
                    0 <= i < n ==> #[trigger] d.spec_lexicon().spec_lexicons()[i] == self.spec_lexicon().spec_lexicons()[i]
                &&& d.spec_lexicon().spec_lexicons()[n].spec_trie() == user.lexicon.trie.spec_array()
                &&& d.spec_lexicon().spec_lexicons()[n].spec_table() == user.lexicon.word_id_table.spec_bytes()
                &&& d.spec_lexicon().spec_lexicons()[n].spec_params().len() == user.lexicon.word_params.spec_data().len()
            },
    {
        let mut user_lexicon = Lexicon::from_binary(user.lexicon);
        user_lexicon.update_cost(&self)?;
        let user_grammar = user.grammar;
        let JapaneseDictionary { grammar: mut sys_grammar, lexicon: mut lexicons, oov } = self;
        proof {
            sys_grammar.lemma_pos_vec();
        }
        let pos_len = sys_grammar.pos_list.len();
        match lexicons.append(user_lexicon, pos_len) {
            Ok(()) => {},
            Err(e) => {
                return Err(SudachiError::LexiconSetError(e));
            },
        }
        sys_grammar.merge_binary(user_grammar);
        Ok(JapaneseDictionary { grammar: sys_grammar, lexicon: lexicons, oov })
    }
}

} // verus!
