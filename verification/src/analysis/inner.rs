use vstd::prelude::*;

use crate::analysis::node::{LatticeNode, RightId};
use crate::dic::word_id::{spec_dic_of, WordId, OOV_DIC};

verus! {

/// Position of a node in the lattice: the boundary where it ends and its
/// index among the nodes ending there.
#[derive(Copy, Clone, Eq, PartialEq, Structural, Debug)]
pub struct NodeIdx {
    end: u16,
    index: u16,
}

impl NodeIdx {
    /// Boundary where the node ends.
    pub closed spec fn spec_end(self) -> u16 {
        self.end
    }

    /// Index of the node among the nodes ending at the same boundary.
    pub closed spec fn spec_index(self) -> u16 {
        self.index
    }

    /// Two indices are equal exactly when their parts are.
    pub proof fn lemma_parts_determine(a: NodeIdx, b: NodeIdx)
        ensures
            (a.spec_end() == b.spec_end() && a.spec_index() == b.spec_index()) == (a == b),
    {
    }

    /// The index that points nowhere.
    pub closed spec fn spec_empty() -> NodeIdx {
        NodeIdx { end: u16::MAX, index: u16::MAX }
    }

    /// The index that points nowhere.
    pub fn empty() -> (r: NodeIdx)
        ensures
            r.spec_end() == u16::MAX,
            r.spec_index() == u16::MAX,
            r == NodeIdx::spec_empty(),
    {
        NodeIdx { end: u16::MAX, index: u16::MAX }
    }

    /// Index of node `index` among those ending at boundary `end`.
    pub closed spec fn spec_new(end: u16, index: u16) -> NodeIdx {
        NodeIdx { end, index }
    }

    /// The parts of a new index are the ones it was made of.
    pub proof fn lemma_new(end: u16, index: u16)
        ensures
            NodeIdx::spec_new(end, index).spec_end() == end,
            NodeIdx::spec_new(end, index).spec_index() == index,
    {
    }

    /// Index of node `index` among those ending at boundary `end`.
    pub fn new(end: u16, index: u16) -> (r: NodeIdx)
        ensures
            r.spec_end() == end,
            r.spec_index() == index,
            r == NodeIdx::spec_new(end, index),
    {
        NodeIdx { end, index }
    }

    /// Boundary where the node ends.
    pub fn end(&self) -> (r: u16)
        ensures
            r == self.spec_end(),
    {
        self.end
    }

    /// Index of the node among the nodes ending at the same boundary.
    pub fn index(&self) -> (r: u16)
        ensures
            r == self.spec_index(),
    {
        self.index
    }
}

/// A lattice node: a word spanning the character range `begin..end`, with its
/// connection ids, its own cost and its word id.
#[derive(Clone, Copy, Debug)]
pub struct Node {
    begin: u16,
    end: u16,
    left_id: u16,
    right_id: u16,
    cost: i16,
    word_id: WordId,
}

impl Node {
    /// First character of the node.
    pub closed spec fn spec_begin(self) -> u16 {
        self.begin
    }

    /// Character boundary right after the node.
    pub closed spec fn spec_end(self) -> u16 {
        self.end
    }

    /// Left connection id.
    pub closed spec fn spec_left_id(self) -> u16 {
        self.left_id
    }

    /// Right connection id.
    pub closed spec fn spec_right_id(self) -> u16 {
        self.right_id
    }

    /// Cost of the word itself.
    pub closed spec fn spec_cost(self) -> i16 {
        self.cost
    }

    /// Word id of the node.
    pub closed spec fn spec_word_id(self) -> WordId {
        self.word_id
    }

    /// A node with the given fields.
    pub fn new(begin: u16, end: u16, left_id: u16, right_id: u16, cost: i16, word_id: WordId) -> (r:
        Node)
        ensures
            r.spec_begin() == begin,
            r.spec_end() == end,
            r.spec_left_id() == left_id,
            r.spec_right_id() == right_id,
            r.spec_cost() == cost,
            r.spec_word_id() == word_id,
    {
        Node { begin, end, left_id, right_id, cost, word_id }
    }

    /// Moves the node to the character range `begin..end`.
    pub fn set_range(&mut self, begin: u16, end: u16)
        ensures
            final(self).spec_begin() == begin,
            final(self).spec_end() == end,
            final(self).spec_left_id() == old(self).spec_left_id(),
            final(self).spec_right_id() == old(self).spec_right_id(),
            final(self).spec_cost() == old(self).spec_cost(),
            final(self).spec_word_id() == old(self).spec_word_id(),
    {
        self.begin = begin;
        self.end = end;
    }

    /// Number of characters the node spans.
    pub fn num_codepts(&self) -> (r: usize)
        requires
            self.spec_begin() <= self.spec_end(),
        ensures
            r == self.spec_end() - self.spec_begin(),
    {
        self.end as usize - self.begin as usize
    }

    /// A copy of the node.
    pub fn copy(&self) -> (r: Node)
        ensures
            r == *self,
    {
        *self
    }
}

impl RightId for Node {
    fn right_id(&self) -> (r: u16)
        ensures
            r == self.spec_right_id(),
    {
        self.right_id
    }
}

impl LatticeNode for Node {
    fn begin(&self) -> (r: usize)
        ensures
            r == self.spec_begin(),
    {
        self.begin as usize
    }

    fn end(&self) -> (r: usize)
        ensures
            r == self.spec_end(),
    {
        self.end as usize
    }

    fn cost(&self) -> (r: i16)
        ensures
            r == self.spec_cost(),
    {
        self.cost
    }

    fn word_id(&self) -> (r: WordId)
        ensures
            r == self.spec_word_id(),
    {
        self.word_id
    }

    fn left_id(&self) -> (r: u16)
        ensures
            r == self.spec_left_id(),
    {
        self.left_id
    }

    fn is_oov(&self) -> (r: bool)
        ensures
            r == (spec_dic_of(self.spec_word_id()@) == OOV_DIC as int),
    {
        self.word_id.is_oov()
    }

    fn is_special_node(&self) -> (r: bool)
        ensures
            r == (self.spec_word_id()@ == u32::MAX - 1),
    {
        self.word_id.is_special()
    }
}

} // verus!
