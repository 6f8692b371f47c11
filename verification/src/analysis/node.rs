use vstd::prelude::*;
use vstd::string::StringExecFns;

use crate::analysis::inner::Node;
use crate::analysis::mode::Mode;
use crate::dic::lexicon::word_infos::{spec_raw_ids, WordInfo, WordInfoData, WordInfoModel};
use crate::dic::lexicon_set::LexiconSet;
use crate::dic::subset::InfoSubset;
use crate::dic::word_id::{spec_dic_of, spec_raw_of, spec_word_of, WordId, MAX_WORD, OOV_DIC};
use crate::error::{SudachiError, SudachiResult};
use crate::input_text::{spec_byte_offset, InputBuffer};

verus! {

/// Access to the right connection id of a node.
pub trait RightId {
    fn right_id(&self) -> u16;
}

/// Access to the total cost of the best path ending with a node.
pub trait PathCost {
    fn total_cost(&self) -> i32;

    /// Whether some path from the sentence start reaches the node.
    fn is_connected_to_bos(&self) -> bool;
}

/// Common accessors of lattice nodes.
pub trait LatticeNode: RightId {
    /// First character of the node.
    fn begin(&self) -> usize;

    /// Character boundary right after the node.
    fn end(&self) -> usize;

    /// Cost of the word itself.
    fn cost(&self) -> i16;

    /// Word id of the node.
    fn word_id(&self) -> WordId;

    /// Left connection id.
    fn left_id(&self) -> u16;

    /// Whether the word does not come from a dictionary.
    fn is_oov(&self) -> bool;

    /// Whether the node is a sentence boundary marker.
    fn is_special_node(&self) -> bool;
}


/// Node `n` lies inside `text`: its character range is ordered and within
/// the text, and its byte range is the byte range of those characters.
pub open spec fn spec_node_fits(n: ResultNode, text: Seq<char>) -> bool {
    &&& n.spec_inner().spec_begin() <= n.spec_inner().spec_end() <= text.len()
    &&& n.spec_begin_bytes() == spec_byte_offset(text, n.spec_inner().spec_begin() as int)
    &&& n.spec_end_bytes() == spec_byte_offset(text, n.spec_inner().spec_end() as int)
}

/// Whether part `w` can be read and located from byte offset `b0`: its
/// word information can be read and, unless it is the last part, it ends
/// `head_word_length` bytes further, at a 16-bit offset that is a character
/// boundary no later than `c_end`.
pub open spec fn spec_split_step_ok(
    lex: &LexiconSet,
    sub: InfoSubset,
    text: Seq<char>,
    w: WordId,
    b0: int,
    c_end: int,
    last: bool,
) -> bool {
    &&& lex.spec_word_info(w, sub) is Some
    &&& (last || {
        let b1 = b0 + lex.spec_word_info(w, sub)->0.head_word_length;
        &&& b1 <= 65535
        &&& exists|c: int| 0 <= c <= c_end && spec_byte_offset(text, c) == b1
    })
}

/// Whether the parts `ids` can be read and located one after the other
/// from byte offset `b0`, the last one ending at character boundary `c_end`.
pub open spec fn spec_split_ok(
    lex: &LexiconSet,
    sub: InfoSubset,
    text: Seq<char>,
    ids: Seq<WordId>,
    b0: int,
    c_end: int,
) -> bool
    decreases ids.len(),
{
    if ids.len() == 0 {
        true
    } else {
        &&& spec_split_step_ok(lex, sub, text, ids[0], b0, c_end, ids.len() == 1)
        &&& (ids.len() == 1 || spec_split_ok(
            lex,
            sub,
            text,
            ids.drop_first(),
            b0 + lex.spec_word_info(ids[0], sub)->0.head_word_length,
            c_end,
        ))
    }
}

/// Whether the nodes `p` cover the characters `0..n` one after the other:
/// the first starts at 0, each starts where the one before it ends, and the
/// last ends at `n`; no node when `n` is 0.
pub open spec fn spec_tiles(p: Seq<ResultNode>, n: int) -> bool {
    &&& p.len() == 0 ==> n == 0
    &&& p.len() > 0 ==> p[0].spec_inner().spec_begin() == 0 && p.last().spec_inner().spec_end() == n
    &&& forall|j: int|
        0 <= j < p.len() - 1 ==> #[trigger] p[j + 1].spec_inner().spec_begin() == p[j].spec_inner().spec_end()
}

/// Concatenation of the strings of `parts`, in order.
pub open spec fn spec_concat_parts(parts: Seq<Seq<char>>) -> Seq<char>
    decreases parts.len(),
{
    if parts.len() == 0 {
        Seq::empty()
    } else {
        spec_concat_parts(parts.drop_last()) + parts.last()
    }
}

/// A node of an analysis result: the lattice node, the cost of the path up
/// to it, its byte range in the text and its word information.
#[derive(Clone, Debug)]
pub struct ResultNode {
    inner: Node,
    total_cost: i32,
    begin_bytes: u16,
    end_bytes: u16,
    word_info: WordInfo,
}

impl ResultNode {
    /// The lattice node.
    pub closed spec fn spec_inner(&self) -> Node {
        self.inner
    }

    /// Cost of the path up to and including the node.
    pub closed spec fn spec_total_cost(&self) -> i32 {
        self.total_cost
    }

    /// Byte offset where the node starts.
    pub closed spec fn spec_begin_bytes(&self) -> u16 {
        self.begin_bytes
    }

    /// Byte offset where the node ends.
    pub closed spec fn spec_end_bytes(&self) -> u16 {
        self.end_bytes
    }

    /// Word information of the node.
    pub closed spec fn spec_info(&self) -> WordInfoModel {
        self.word_info@
    }

    /// Head word length and part of speech id of the word fit 16 bits.
    pub proof fn lemma_info_bounds(&self)
        ensures
            0 <= self.spec_info().head_word_length <= u16::MAX,
            0 <= self.spec_info().pos_id <= u16::MAX,
    {
        self.word_info.lemma_bounds();
    }

    /// A result node with the given parts.
    pub fn new(
        inner: Node,
        total_cost: i32,
        begin_bytes: u16,
        end_bytes: u16,
        word_info: WordInfo,
    ) -> (r: ResultNode)
        ensures
            r.spec_inner() == inner,
            r.spec_total_cost() == total_cost,
            r.spec_begin_bytes() == begin_bytes,
            r.spec_end_bytes() == end_bytes,
            r.spec_info() == word_info@,
    {
        ResultNode { inner, total_cost, begin_bytes, end_bytes, word_info }
    }

    /// A copy of the node.
    pub fn duplicate(&self) -> (r: ResultNode)
        ensures
            r.spec_inner() == self.spec_inner(),
            r.spec_total_cost() == self.spec_total_cost(),
            r.spec_begin_bytes() == self.spec_begin_bytes(),
            r.spec_end_bytes() == self.spec_end_bytes(),
            r.spec_info() == self.spec_info(),
    {
        ResultNode {
            inner: self.inner,
            total_cost: self.total_cost,
            begin_bytes: self.begin_bytes,
            end_bytes: self.end_bytes,
            word_info: self.word_info.duplicate(),
        }
    }

    /// Word information of the node.
    pub fn word_info(&self) -> (r: &WordInfo)
        ensures
            r@ == self.spec_info(),
    {
        &self.word_info
    }

    /// Byte offset where the node starts in the text.
    pub fn begin_bytes(&self) -> (r: usize)
        ensures
            r == self.spec_begin_bytes(),
    {
        self.begin_bytes as usize
    }

    /// Byte offset where the node ends in the text.
    pub fn end_bytes(&self) -> (r: usize)
        ensures
            r == self.spec_end_bytes(),
    {
        self.end_bytes as usize
    }

    /// Byte range of the node in the text.
    pub fn bytes_range(&self) -> (r: std::ops::Range<usize>)
        ensures
            r.start == self.spec_begin_bytes(),
            r.end == self.spec_end_bytes(),
    {
        std::ops::Range { start: self.begin_bytes as usize, end: self.end_bytes as usize }
    }

    /// Moves the node to byte range `begin..end`.
    pub fn set_bytes_range(&mut self, begin: u16, end: u16)
        ensures
            final(self).spec_begin_bytes() == begin,
            final(self).spec_end_bytes() == end,
            final(self).spec_inner() == old(self).spec_inner(),
            final(self).spec_total_cost() == old(self).spec_total_cost(),
            final(self).spec_info() == old(self).spec_info(),
    {
        self.begin_bytes = begin;
        self.end_bytes = end;
    }

    /// Moves the node to character range `begin..end`.
    pub fn set_char_range(&mut self, begin: u16, end: u16)
        ensures
            final(self).spec_inner().spec_begin() == begin,
            final(self).spec_inner().spec_end() == end,
            final(self).spec_inner().spec_left_id() == old(self).spec_inner().spec_left_id(),
            final(self).spec_inner().spec_right_id() == old(self).spec_inner().spec_right_id(),
            final(self).spec_inner().spec_cost() == old(self).spec_inner().spec_cost(),
            final(self).spec_inner().spec_word_id() == old(self).spec_inner().spec_word_id(),
            final(self).spec_begin_bytes() == old(self).spec_begin_bytes(),
            final(self).spec_end_bytes() == old(self).spec_end_bytes(),
            final(self).spec_total_cost() == old(self).spec_total_cost(),
            final(self).spec_info() == old(self).spec_info(),
    {
        self.inner.set_range(begin, end)
    }

    /// Number of parts the node splits into in `mode`; none in mode C.
    pub fn num_splits(&self, mode: Mode) -> (r: usize)
        ensures
            r == match mode {
                Mode::A => self.spec_info().a_unit_split.len() as int,
                Mode::B => self.spec_info().b_unit_split.len() as int,
                Mode::C => 0int,
            },
    {
        match mode {
            Mode::A => self.word_info.a_unit_split().len(),
            Mode::B => self.word_info.b_unit_split().len(),
            Mode::C => 0,
        }
    }

    /// Word ids of the parts the node splits into in `mode` (A or B).
    pub open spec fn spec_splits(&self, mode: Mode) -> Seq<u32> {
        match mode {
            Mode::A => self.spec_info().a_unit_split,
            _ => self.spec_info().b_unit_split,
        }
    }

    /// Iterator over the parts the node splits into in mode A or B, each
    /// with the word information `subset` selects, located in `text`.
    pub fn split<'a>(
        &self,
        mode: Mode,
        lexicon: &'a LexiconSet,
        subset: InfoSubset,
        text: &'a InputBuffer,
    ) -> (r: NodeSplitIterator<'a>)
        requires
            mode != Mode::C,
        ensures
            spec_raw_ids(r.spec_remaining()) == self.spec_splits(mode),
            r.spec_lexicon() == lexicon,
            r.spec_text() == text,
            r.spec_subset() == subset,
            r.spec_char_offset() == self.spec_inner().spec_begin(),
            r.spec_byte_offset() == self.spec_begin_bytes(),
            r.spec_char_end() == self.spec_inner().spec_end(),
            r.spec_byte_end() == self.spec_end_bytes(),
    {
        let splits: Vec<WordId> = match mode {
            Mode::A => slice_to_vec_word_ids(self.word_info.a_unit_split()),
            _ => slice_to_vec_word_ids(self.word_info.b_unit_split()),
        };
        NodeSplitIterator {
            splits,
            index: 0,
            lexicon,
            subset,
            text,
            char_offset: self.inner.begin() as u16,
            byte_offset: self.begin_bytes,
            char_end: self.inner.end() as u16,
            byte_end: self.end_bytes,
        }
    }
}

/// A vector holding the word ids of a slice.
fn slice_to_vec_word_ids(s: &[WordId]) -> (r: Vec<WordId>)
    ensures
        r@ == s@,
{
    let mut out: Vec<WordId> = Vec::new();
    let mut i: usize = 0;
    while i < s.len()
        invariant
            i <= s@.len(),
            out@ == s@.take(i as int),
        decreases s@.len() - i,
    {
        out.push(s[i]);
        proof {
            assert(s@.take(i + 1) =~= s@.take(i as int).push(s@[i as int]));
        }
        i = i + 1;
    }
    proof {
        assert(s@.take(s@.len() as int) =~= s@);
    }
    out
}

impl RightId for ResultNode {
    fn right_id(&self) -> (r: u16)
        ensures
            r == self.spec_inner().spec_right_id(),
    {
        self.inner.right_id()
    }
}

impl PathCost for ResultNode {
    fn total_cost(&self) -> (r: i32)
        ensures
            r == self.spec_total_cost(),
    {
        self.total_cost
    }

    fn is_connected_to_bos(&self) -> (r: bool)
        ensures
            r == (self.spec_total_cost() != i32::MAX),
    {
        self.total_cost != i32::MAX
    }
}

impl LatticeNode for ResultNode {
    fn begin(&self) -> (r: usize)
        ensures
            r == self.spec_inner().spec_begin(),
    {
        self.inner.begin()
    }

    fn end(&self) -> (r: usize)
        ensures
            r == self.spec_inner().spec_end(),
    {
        self.inner.end()
    }

    fn cost(&self) -> (r: i16)
        ensures
            r == self.spec_inner().spec_cost(),
    {
        self.inner.cost()
    }

    fn word_id(&self) -> (r: WordId)
        ensures
            r == self.spec_inner().spec_word_id(),
    {
        self.inner.word_id()
    }

    fn left_id(&self) -> (r: u16)
        ensures
            r == self.spec_inner().spec_left_id(),
    {
        self.inner.left_id()
    }

    fn is_oov(&self) -> (r: bool)
        ensures
            r == (spec_dic_of(self.spec_inner().spec_word_id()@) == OOV_DIC as int),
    {
        self.inner.is_oov()
    }

    fn is_special_node(&self) -> (r: bool)
        ensures
            r == (self.spec_inner().spec_word_id()@ == u32::MAX - 1),
    {
        self.inner.is_special_node()
    }
}

/// Iterator over the parts of a split node.
pub struct NodeSplitIterator<'a> {
    splits: Vec<WordId>,
    index: usize,
    lexicon: &'a LexiconSet,
    subset: InfoSubset,
    text: &'a InputBuffer,
    char_offset: u16,
    byte_offset: u16,
    char_end: u16,
    byte_end: u16,
}

impl<'a> NodeSplitIterator<'a> {
    #[verifier::type_invariant]
    spec fn inv(&self) -> bool {
        self.index <= self.splits@.len()
    }

    /// Parts not returned yet.
    pub closed spec fn spec_remaining(&self) -> Seq<WordId> {
        self.splits@.skip(self.index as int)
    }

    /// Lexicons the parts are looked up in.
    pub closed spec fn spec_lexicon(&self) -> &'a LexiconSet {
        self.lexicon
    }

    /// Text the parts are located in.
    pub closed spec fn spec_text(&self) -> &'a InputBuffer {
        self.text
    }

    /// Fields of word information read for each part.
    pub closed spec fn spec_subset(&self) -> InfoSubset {
        self.subset
    }

    /// Character boundary where the next part starts.
    pub closed spec fn spec_char_offset(&self) -> u16 {
        self.char_offset
    }

    /// Byte offset where the next part starts.
    pub closed spec fn spec_byte_offset(&self) -> u16 {
        self.byte_offset
    }

    /// Character boundary where the last part ends.
    pub closed spec fn spec_char_end(&self) -> u16 {
        self.char_end
    }

    /// Byte offset where the last part ends.
    pub closed spec fn spec_byte_end(&self) -> u16 {
        self.byte_end
    }

    /// The next part starts no later than the last one ends, inside the
    /// text, at byte offsets that match the character boundaries.
    pub open spec fn spec_position_ok(&self) -> bool {
        let text = self.spec_text().spec_text();
        &&& self.spec_char_offset() <= self.spec_char_end() <= text.len()
        &&& self.spec_byte_offset() == spec_byte_offset(text, self.spec_char_offset() as int)
        &&& self.spec_byte_end() == spec_byte_offset(text, self.spec_char_end() as int)
    }

    /// The next part: its word information, and the range it covers, from
    /// where the previous part ended to its head word length further (the
    /// end of the node for the last part). An error when the word
    /// information cannot be read or the range does not end at a character
    /// boundary of 16-bit offsets.
    #[verifier::spinoff_prover]
    #[verifier::rlimit(40)]
    pub fn next(&mut self) -> (r: SudachiResult<Option<ResultNode>>)
        requires
            old(self).spec_lexicon().wf(),
            old(self).spec_text().wf(),
            old(self).spec_position_ok(),
        ensures
            final(self).spec_position_ok(),
            r matches Ok(Some(n)) ==> spec_node_fits(n, old(self).spec_text().spec_text()),
            final(self).spec_lexicon() == old(self).spec_lexicon(),
            final(self).spec_text() == old(self).spec_text(),
            final(self).spec_subset() == old(self).spec_subset(),
            final(self).spec_char_end() == old(self).spec_char_end(),
            final(self).spec_byte_end() == old(self).spec_byte_end(),
            old(self).spec_remaining().len() == 0 ==> r matches Ok(None),
            r matches Ok(None) ==> old(self).spec_remaining().len() == 0 && *final(self) == *old(self),
            r is Ok <==> (old(self).spec_remaining().len() == 0 || spec_split_step_ok(
                old(self).spec_lexicon(),
                old(self).spec_subset(),
                old(self).spec_text().spec_text(),
                old(self).spec_remaining()[0],
                old(self).spec_byte_offset() as int,
                old(self).spec_char_end() as int,
                old(self).spec_remaining().len() == 1,
            )),
            r matches Ok(Some(n)) ==> {
                let w = old(self).spec_remaining()[0];
                let info = old(self).spec_lexicon().spec_word_info(w, old(self).spec_subset())->0;
                &&& old(self).spec_remaining().len() > 0
                &&& old(self).spec_lexicon().spec_word_info(w, old(self).spec_subset()) is Some
                &&& n.spec_info() == info
                &&& n.spec_inner().spec_word_id() == w
                &&& n.spec_inner().spec_begin() == old(self).spec_char_offset()
                &&& n.spec_begin_bytes() == old(self).spec_byte_offset()
                &&& n.spec_total_cost() == i32::MAX
                &&& n.spec_inner().spec_left_id() == u16::MAX
                &&& n.spec_inner().spec_right_id() == u16::MAX
                &&& n.spec_inner().spec_cost() == i16::MAX
                &&& if old(self).spec_remaining().len() == 1 {
                    n.spec_inner().spec_end() == old(self).spec_char_end() && n.spec_end_bytes()
                        == old(self).spec_byte_end()
                } else {
                    n.spec_end_bytes() == old(self).spec_byte_offset() + info.head_word_length
                        && spec_byte_offset(
                        old(self).spec_text().spec_text(),
                        n.spec_inner().spec_end() as int,
                    ) == n.spec_end_bytes()
                }
                &&& final(self).spec_remaining() == old(self).spec_remaining().drop_first()
                &&& final(self).spec_char_offset() == n.spec_inner().spec_end()
                &&& final(self).spec_byte_offset() == n.spec_end_bytes()
            },
    {
        proof {
            use_type_invariant(&*self);
        }
        let idx = self.index;
        if idx >= self.splits.len() {
            return Ok(None);
        }
        let char_start = self.char_offset;
        let byte_start = self.byte_offset;
        let word_id = self.splits[idx];
        let word_info = self.lexicon.get_word_info_subset(word_id, self.subset)?;
        let (char_end, byte_end) = if idx + 1 == self.splits.len() {
            (self.char_end, self.byte_end)
        } else {
            let hwl = word_info.head_word_length();
            if hwl > 65535 - byte_start as usize {
                return Err(SudachiError::InvalidRange(byte_start as usize, hwl));
            }
            let byte_end = byte_start as usize + hwl;
            match self.text.ch_idx(byte_end) {
                Some(c) => {
                    if c > self.char_end as usize {
                        proof {
                            let text = self.text.spec_text();
                            assert forall|c2: int|
                                0 <= c2 <= self.char_end implies spec_byte_offset(text, c2) != byte_end by {
                                crate::input_text::lemma_offsets_increase(text, c2, c as int);
                            }
                        }
                        return Err(SudachiError::InvalidRange(byte_start as usize, byte_end));
                    }
                    proof {
                        let text = self.text.spec_text();
                        if c < char_start {
                            crate::input_text::lemma_offsets_increase(text, c as int, char_start as int);
                        }
                    }
                    (c as u16, byte_end as u16)
                },
                None => {
                    return Err(SudachiError::InvalidRange(byte_start as usize, byte_end));
                },
            }
        };
        self.char_offset = char_end;
        self.byte_offset = byte_end;
        let inner = Node::new(char_start, char_end, u16::MAX, u16::MAX, i16::MAX, word_id);
        let node = ResultNode::new(inner, i32::MAX, byte_start, byte_end, word_info);
        self.index = idx + 1;
        proof {
            assert(self.splits@.skip(self.index as int) =~= old(self).splits@.skip(
                idx as int,
            ).drop_first());
        }
        Ok(Some(node))
    }
}

/// A stored string field of word information.
#[derive(Clone, Copy, PartialEq, Eq, Structural, Debug)]
pub enum InfoField {
    /// The surface.
    Surface,
    /// The stored reading form.
    Reading,
    /// The stored dictionary form.
    Dictionary,
    /// The stored normalized form.
    Normalized,
}

/// The stored string of field `f` of `m`.
pub open spec fn spec_field(m: WordInfoModel, f: InfoField) -> Seq<char> {
    match f {
        InfoField::Surface => m.surface,
        InfoField::Reading => m.reading_form,
        InfoField::Dictionary => m.dictionary_form,
        InfoField::Normalized => m.normalized_form,
    }
}

/// Concatenation of field `f` of the nodes `ns`.
pub open spec fn spec_field_concat(ns: Seq<ResultNode>, f: InfoField) -> Seq<char> {
    spec_concat_parts(ns.map_values(|n: ResultNode| spec_field(n.spec_info(), f)))
}

/// Sum of the head word lengths of the nodes `ns`.
pub open spec fn spec_sum_hwl(ns: Seq<ResultNode>) -> int
    decreases ns.len(),
{
    if ns.len() == 0 {
        0
    } else {
        spec_sum_hwl(ns.drop_last()) + ns.last().spec_info().head_word_length
    }
}

/// Largest raw word id of the nodes `ns`, zero when there is none.
pub open spec fn spec_max_word_id(ns: Seq<ResultNode>) -> u32
    decreases ns.len(),
{
    if ns.len() == 0 {
        0
    } else {
        let m = spec_max_word_id(ns.drop_last());
        let w = ns.last().spec_inner().spec_word_id()@;
        if w > m {
            w
        } else {
            m
        }
    }
}

/// Field `f` of `wi`, as stored (without falling back to the surface).
fn stored_field(wi: &WordInfo, f: InfoField) -> (r: &str)
    ensures
        r@ == spec_field(wi@, f),
{
    let data = wi.borrow_data();
    match f {
        InfoField::Surface => data.surface.as_str(),
        InfoField::Reading => data.reading_form.as_str(),
        InfoField::Dictionary => data.dictionary_form.as_str(),
        InfoField::Normalized => data.normalized_form.as_str(),
    }
}

/// Concatenation of field `f` of nodes `begin..end` of `path`.
fn concat_field(path: &Vec<ResultNode>, begin: usize, end: usize, f: InfoField) -> (r: String)
    requires
        begin <= end <= path@.len(),
    ensures
        r@ == spec_field_concat(path@.subrange(begin as int, end as int), f),
{
    let mut s = String::new();
    let mut i = begin;
    proof {
        let z = path@.subrange(begin as int, begin as int).map_values(
            |n: ResultNode| spec_field(n.spec_info(), f),
        );
        assert(z =~= Seq::<Seq<char>>::empty());
    }
    while i < end
        invariant
            begin <= i <= end <= path@.len(),
            s@ == spec_field_concat(path@.subrange(begin as int, i as int), f),
        decreases end - i,
    {
        let part = stored_field(path[i].word_info(), f);
        s.append(part);
        proof {
            let prev = path@.subrange(begin as int, i as int).map_values(
                |n: ResultNode| spec_field(n.spec_info(), f),
            );
            let next = path@.subrange(begin as int, i + 1).map_values(
                |n: ResultNode| spec_field(n.spec_info(), f),
            );
            assert(next.drop_last() =~= prev);
            assert(next.last() == part@);
        }
        i = i + 1;
    }
    s
}

/// Sum of the head word lengths of nodes `begin..end` of `path`.
fn sum_hwl(path: &Vec<ResultNode>, begin: usize, end: usize) -> (r: u16)
    requires
        begin <= end <= path@.len(),
        spec_sum_hwl(path@.subrange(begin as int, end as int)) <= u16::MAX,
    ensures
        r == spec_sum_hwl(path@.subrange(begin as int, end as int)),
{
    let mut total: u16 = 0;
    let mut i = begin;
    while i < end
        invariant
            begin <= i <= end <= path@.len(),
            total == spec_sum_hwl(path@.subrange(begin as int, i as int)),
            spec_sum_hwl(path@.subrange(begin as int, end as int)) <= u16::MAX,
        decreases end - i,
    {
        proof {
            assert(path@.subrange(begin as int, i + 1).drop_last() =~= path@.subrange(
                begin as int,
                i as int,
            ));
            lemma_sum_hwl_prefix(path@.subrange(begin as int, end as int), (i + 1 - begin) as int);
            assert(path@.subrange(begin as int, end as int).take((i + 1 - begin) as int)
                =~= path@.subrange(begin as int, i + 1));
        }
        total = total + path[i].word_info().head_word_length() as u16;
        i = i + 1;
    }
    total
}

/// The head word lengths of a prefix sum to no more than those of the whole.
proof fn lemma_sum_hwl_prefix(ns: Seq<ResultNode>, k: int)
    requires
        0 <= k <= ns.len(),
    ensures
        spec_sum_hwl(ns.take(k)) <= spec_sum_hwl(ns),
    decreases ns.len() - k,
{
    if k < ns.len() {
        lemma_sum_hwl_prefix(ns, k + 1);
        assert(ns.take(k + 1).drop_last() =~= ns.take(k));
        ns[k].lemma_info_bounds();
        assert(ns.take(k + 1).last() == ns[k]);
    } else {
        assert(ns.take(k) =~= ns);
    }
}

/// The path with nodes `begin..end` replaced by `node`.
fn replace_range(path: Vec<ResultNode>, begin: usize, end: usize, node: ResultNode) -> (r: Vec<
    ResultNode,
>)
    requires
        begin < end <= path@.len(),
    ensures
        r@ == path@.take(begin as int).push(node) + path@.skip(end as int),
{
    let mut path = path;
    let ghost orig = path@;
    path.set(begin, node);
    let mut j: usize = begin + 1;
    proof {
        assert(path@ =~= orig.take(begin as int).push(node) + orig.skip(begin + 1));
    }
    while j < end
        invariant
            begin < j <= end <= orig.len(),
            path@ =~= orig.take(begin as int).push(node) + orig.skip(j as int),
        decreases end - j,
    {
        let _removed = path.remove(begin + 1);
        proof {
            assert(path@ =~= orig.take(begin as int).push(node) + orig.skip(j + 1));
        }
        j = j + 1;
    }
    path
}

/// Word information of nodes `begin..end` merged into one word: surfaces,
/// readings and dictionary forms concatenated, head word lengths summed, the
/// part of speech of the first node and the given normalized form (or the
/// normalized forms concatenated), with no dictionary form word id.
pub open spec fn spec_concat_info(
    path: Seq<ResultNode>,
    begin: int,
    end: int,
    normalized_form: Option<Seq<char>>,
) -> WordInfoModel {
    let ns = path.subrange(begin, end);
    WordInfoModel {
        surface: spec_field_concat(ns, InfoField::Surface),
        head_word_length: spec_sum_hwl(ns),
        pos_id: path[begin].spec_info().pos_id,
        normalized_form: match normalized_form {
            Some(n) => n,
            None => spec_field_concat(ns, InfoField::Normalized),
        },
        dictionary_form_word_id: -1,
        dictionary_form: spec_field_concat(ns, InfoField::Dictionary),
        reading_form: spec_field_concat(ns, InfoField::Reading),
        a_unit_split: Seq::empty(),
        b_unit_split: Seq::empty(),
        word_structure: Seq::empty(),
        synonym_group_ids: Seq::empty(),
    }
}

/// Merges nodes `begin..end` of `path` into one node covering their range,
/// with the merged word information; the normalized form is the given one
/// or the merged one. An error when the range is empty.
pub fn concat_nodes(
    path: Vec<ResultNode>,
    begin: usize,
    end: usize,
    normalized_form: Option<String>,
) -> (r: SudachiResult<Vec<ResultNode>>)
    requires
        begin < end ==> end <= path@.len(),
        begin < end ==> spec_sum_hwl(path@.subrange(begin as int, end as int)) <= u16::MAX,
    ensures
        r is Err <==> begin >= end,
        r matches Err(e) ==> e matches SudachiError::InvalidRange(b, e2) && b == begin && e2 == end,
        r matches Ok(v) ==> {
            let n = v@[begin as int];
            &&& v@ == path@.take(begin as int).push(n) + path@.skip(end as int)
            &&& n.spec_info() == spec_concat_info(
                path@,
                begin as int,
                end as int,
                match normalized_form {
                    Some(s) => Some(s@),
                    None => None,
                },
            )
            &&& n.spec_inner().spec_begin() == path@[begin as int].spec_inner().spec_begin()
            &&& n.spec_inner().spec_end() == path@[end - 1].spec_inner().spec_end()
            &&& n.spec_inner().spec_left_id() == u16::MAX
            &&& n.spec_inner().spec_right_id() == u16::MAX
            &&& n.spec_inner().spec_cost() == i16::MAX
            &&& n.spec_inner().spec_word_id()@ == u32::MAX
            &&& n.spec_total_cost() == path@[end - 1].spec_total_cost()
            &&& n.spec_begin_bytes() == path@[begin as int].spec_begin_bytes()
            &&& n.spec_end_bytes() == path@[end - 1].spec_end_bytes()
        },
{
    if begin >= end {
        return Err(SudachiError::InvalidRange(begin, end));
    }
    let surface = concat_field(&path, begin, end, InfoField::Surface);
    let reading_form = concat_field(&path, begin, end, InfoField::Reading);
    let dictionary_form = concat_field(&path, begin, end, InfoField::Dictionary);
    let head_word_length = sum_hwl(&path, begin, end);
    let normalized = match normalized_form {
        Some(n) => n,
        None => concat_field(&path, begin, end, InfoField::Normalized),
    };
    let pos_id = path[begin].word_info().pos_id();
    let mut data = WordInfoData::empty();
    data.surface = surface;
    data.head_word_length = head_word_length;
    data.pos_id = pos_id;
    data.normalized_form = normalized;
    data.reading_form = reading_form;
    data.dictionary_form = dictionary_form;
    data.dictionary_form_word_id = -1;
    let inner = Node::new(
        path[begin].begin() as u16,
        path[end - 1].end() as u16,
        u16::MAX,
        u16::MAX,
        i16::MAX,
        WordId::invalid(),
    );
    let node = ResultNode::new(
        inner,
        path[end - 1].total_cost(),
        path[begin].begin_bytes() as u16,
        path[end - 1].end_bytes() as u16,
        WordInfo::from_data(data),
    );
    let ghost n = node;
    let r = replace_range(path, begin, end, node);
    proof {
        assert(r@[begin as int] == n);
    }
    Ok(r)
}

/// Merges nodes `begin..end` of `path` into one unknown word with part of
/// speech `pos_id`: the surfaces concatenated (also as normalized and
/// dictionary form), head word lengths summed, and the largest word id of
/// the nodes, turned into the last entry of its dictionary unless it is
/// already unknown. An error when the range is empty.
pub fn concat_oov_nodes(path: Vec<ResultNode>, begin: usize, end: usize, pos_id: u16) -> (r:
    SudachiResult<Vec<ResultNode>>)
    requires
        begin < end ==> end <= path@.len(),
        begin < end ==> spec_sum_hwl(path@.subrange(begin as int, end as int)) <= u16::MAX,
    ensures
        r is Err <==> begin >= end,
        r matches Err(e) ==> e matches SudachiError::InvalidRange(b, e2) && b == begin && e2 == end,
        r matches Ok(v) ==> {
            let n = v@[begin as int];
            let ns = path@.subrange(begin as int, end as int);
            let surface = spec_field_concat(ns, InfoField::Surface);
            let wid = spec_max_word_id(ns);
            &&& v@ == path@.take(begin as int).push(n) + path@.skip(end as int)
            &&& n.spec_info() == WordInfoModel {
                surface,
                head_word_length: spec_sum_hwl(ns),
                pos_id: pos_id as int,
                normalized_form: surface,
                dictionary_form_word_id: -1,
                dictionary_form: surface,
                reading_form: Seq::empty(),
                a_unit_split: Seq::empty(),
                b_unit_split: Seq::empty(),
                word_structure: Seq::empty(),
                synonym_group_ids: Seq::empty(),
            }
            &&& n.spec_inner().spec_word_id()@ == (if spec_dic_of(wid) == OOV_DIC {
                wid as int
            } else {
                spec_raw_of(spec_dic_of(wid), MAX_WORD as int)
            })
            &&& n.spec_inner().spec_begin() == path@[begin as int].spec_inner().spec_begin()
            &&& n.spec_inner().spec_end() == path@[end - 1].spec_inner().spec_end()
            &&& n.spec_inner().spec_left_id() == u16::MAX
            &&& n.spec_inner().spec_right_id() == u16::MAX
            &&& n.spec_inner().spec_cost() == i16::MAX
            &&& n.spec_total_cost() == path@[end - 1].spec_total_cost()
            &&& n.spec_begin_bytes() == path@[begin as int].spec_begin_bytes()
            &&& n.spec_end_bytes() == path@[end - 1].spec_end_bytes()
        },
{
    if begin >= end {
        return Err(SudachiError::InvalidRange(begin, end));
    }
    let surface = concat_field(&path, begin, end, InfoField::Surface);
    let head_word_length = sum_hwl(&path, begin, end);
    let mut wid = WordId::from_raw(0);
    let mut i = begin;
    proof {
        assert(path@.subrange(begin as int, begin as int) =~= Seq::<ResultNode>::empty());
    }
    while i < end
        invariant
            begin <= i <= end <= path@.len(),
            wid@ == spec_max_word_id(path@.subrange(begin as int, i as int)),
        decreases end - i,
    {
        let w = path[i].word_id();
        proof {
            assert(path@.subrange(begin as int, i + 1).drop_last() =~= path@.subrange(
                begin as int,
                i as int,
            ));
        }
        if w.as_raw() > wid.as_raw() {
            wid = w;
        }
        i = i + 1;
    }
    if !wid.is_oov() {
        wid = WordId::new(wid.dic(), MAX_WORD);
    }
    let mut data = WordInfoData::empty();
    data.normalized_form = surface.clone();
    data.dictionary_form = surface.clone();
    data.surface = surface;
    data.head_word_length = head_word_length;
    data.pos_id = pos_id;
    data.dictionary_form_word_id = -1;
    let inner = Node::new(
        path[begin].begin() as u16,
        path[end - 1].end() as u16,
        u16::MAX,
        u16::MAX,
        i16::MAX,
        wid,
    );
    let node = ResultNode::new(
        inner,
        path[end - 1].total_cost(),
        path[begin].begin_bytes() as u16,
        path[end - 1].end_bytes() as u16,
        WordInfo::from_data(data),
    );
    let ghost n = node;
    let r = replace_range(path, begin, end, node);
    proof {
        assert(r@[begin as int] == n);
    }
    Ok(r)
}
} // verus!
