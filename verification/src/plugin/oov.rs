use vstd::prelude::*;

use crate::analysis::created::CreatedWords;
use crate::analysis::inner::Node;
use crate::dic::word_id::{spec_raw_of, WordId, OOV_DIC};
use crate::error::SudachiResult;

verus! {

/// Provides a one-character unknown word wherever no other word starts,
/// with fixed connection ids, cost and part of speech.
#[derive(Clone, Copy, Debug)]
pub struct SimpleOovPlugin {
    /// Left connection id of the unknown words.
    pub left_id: u16,
    /// Right connection id of the unknown words.
    pub right_id: u16,
    /// Cost of the unknown words.
    pub cost: i16,
    /// Part of speech of the unknown words.
    pub pos_id: u16,
}

impl SimpleOovPlugin {
    /// A provider of unknown words with the given parameters.
    pub fn new(left_id: u16, right_id: u16, cost: i16, pos_id: u16) -> (r: SimpleOovPlugin)
        ensures
            r.left_id == left_id,
            r.right_id == right_id,
            r.cost == cost,
            r.pos_id == pos_id,
    {
        SimpleOovPlugin { left_id, right_id, cost, pos_id }
    }

    /// Adds to `result` the unknown word of the one character at `offset`,
    /// unless other words start there; returns the number of words added.
    pub fn provide_oov(
        &self,
        offset: usize,
        other_words: CreatedWords,
        result: &mut Vec<Node>,
    ) -> (r: SudachiResult<usize>)
        requires
            offset < u16::MAX,
        ensures
            r is Ok,
            other_words@ != 0 ==> r == SudachiResult::<usize>::Ok(0) && final(result)@ == old(
                result,
            )@,
            other_words@ == 0 ==> {
                &&& r == SudachiResult::<usize>::Ok(1)
                &&& final(result)@.len() == old(result)@.len() + 1
                &&& final(result)@.drop_last() == old(result)@
                &&& final(result)@.last().spec_begin() == offset
                &&& final(result)@.last().spec_end() == offset + 1
                &&& final(result)@.last().spec_left_id() == self.left_id
                &&& final(result)@.last().spec_right_id() == self.right_id
                &&& final(result)@.last().spec_cost() == self.cost
                &&& final(result)@.last().spec_word_id()@ == spec_raw_of(
                    OOV_DIC as int,
                    self.pos_id as int,
                )
            },
    {
        if other_words.not_empty() {
            return Ok(0);
        }
        let node = Node::new(
            offset as u16,
            (offset + 1) as u16,
            self.left_id,
            self.right_id,
            self.cost,
            WordId::oov(self.pos_id as u32),
        );
        result.push(node);
        proof {
            assert(result@.drop_last() =~= old(result)@);
        }
        Ok(1)
    }
}

} // verus!
