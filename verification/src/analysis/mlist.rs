//! Result of an analysis: the morphemes of a sentence.

use vstd::prelude::*;

use crate::analysis::mode::Mode;
use crate::analysis::morpheme::Morpheme;
use crate::analysis::node::{
    spec_node_fits, spec_split_ok, spec_split_step_ok, NodeSplitIterator, PathCost, ResultNode,
};
use crate::dic::lexicon_set::LexiconSet;
use crate::dic::word_id::WordId;
use crate::analysis::stateful_tokenizer::StatefulTokenizer;
use crate::dic::dictionary::JapaneseDictionary;
use crate::dic::subset::InfoSubset;
use crate::error::SudachiResult;
use crate::input_text::InputBuffer;

verus! {

/// Every node of `nodes` lies inside `text`.
pub open spec fn spec_all_fit(nodes: Seq<ResultNode>, text: Seq<char>) -> bool {
    forall|k: int| 0 <= k < nodes.len() ==> #[trigger] spec_node_fits(nodes[k], text)
}

/// The word ids of raw values `raw`.
pub open spec fn spec_word_ids(raw: Seq<u32>) -> Seq<WordId> {
    raw.map_values(|r: u32| WordId::spec_from_raw(r))
}

/// Whether `a` is a copy of `b`: the same lattice node, path cost, byte
/// range and word information.
pub open spec fn spec_same_node(a: ResultNode, b: ResultNode) -> bool {
    &&& a.spec_inner() == b.spec_inner()
    &&& a.spec_total_cost() == b.spec_total_cost()
    &&& a.spec_begin_bytes() == b.spec_begin_bytes()
    &&& a.spec_end_bytes() == b.spec_end_bytes()
    &&& a.spec_info() == b.spec_info()
}

/// Number of parts `node` splits into in `mode`; none in mode C.
pub open spec fn spec_num_splits(node: ResultNode, mode: Mode) -> int {
    if mode == Mode::C {
        0
    } else {
        node.spec_splits(mode).len() as int
    }
}

/// Whether `node` does not split in `mode`.
pub open spec fn spec_no_split(node: ResultNode, mode: Mode) -> bool {
    mode == Mode::C || node.spec_splits(mode).len() == 0
}

/// Whether the parts of `node` in `mode` can be read and located in `text`.
pub open spec fn spec_node_split_ok(
    node: ResultNode,
    mode: Mode,
    lex: &LexiconSet,
    sub: InfoSubset,
    text: Seq<char>,
) -> bool {
    spec_split_ok(
        lex,
        sub,
        text,
        spec_word_ids(node.spec_splits(mode)),
        node.spec_begin_bytes() as int,
        node.spec_inner().spec_end() as int,
    )
}

/// Whether `p` is the part of raw word id `w`: its word information as
/// `lex` gives it with the fields `sub`, and no connection or cost.
pub open spec fn spec_split_part(p: ResultNode, lex: &LexiconSet, sub: InfoSubset, w: u32) -> bool {
    &&& p.spec_inner().spec_word_id()@ == w
    &&& lex.spec_word_info(p.spec_inner().spec_word_id(), sub) == Some(p.spec_info())
    &&& p.spec_total_cost() == i32::MAX
    &&& p.spec_inner().spec_left_id() == u16::MAX
    &&& p.spec_inner().spec_right_id() == u16::MAX
    &&& p.spec_inner().spec_cost() == i16::MAX
}

/// Whether each of `parts` but the last ends where the next begins, its
/// head word length after its start.
pub open spec fn spec_parts_chained(parts: Seq<ResultNode>) -> bool {
    forall|k: int|
        0 <= k < parts.len() - 1 ==> {
            &&& (#[trigger] parts[k + 1]).spec_inner().spec_begin() == parts[k].spec_inner().spec_end()
            &&& parts[k + 1].spec_begin_bytes() == parts[k].spec_end_bytes()
            &&& parts[k].spec_end_bytes() == parts[k].spec_begin_bytes() + parts[k].spec_info().head_word_length
        }
}

/// Whether `parts` are the parts `node` splits into in `mode`: one per split
/// word id, in order, inside `text`, one after the other from the start of
/// `node` to its end.
pub open spec fn spec_split_parts(
    parts: Seq<ResultNode>,
    node: ResultNode,
    mode: Mode,
    lex: &LexiconSet,
    sub: InfoSubset,
    text: Seq<char>,
) -> bool {
    let splits = node.spec_splits(mode);
    &&& parts.len() == splits.len()
    &&& parts.len() > 0
    &&& forall|k: int|
        0 <= k < parts.len() ==> spec_split_part(#[trigger] parts[k], lex, sub, splits[k]) && spec_node_fits(
            parts[k],
            text,
        )
    &&& spec_parts_chained(parts)
    &&& parts[0].spec_inner().spec_begin() == node.spec_inner().spec_begin()
    &&& parts[0].spec_begin_bytes() == node.spec_begin_bytes()
    &&& parts.last().spec_inner().spec_end() == node.spec_inner().spec_end()
    &&& parts.last().spec_end_bytes() == node.spec_end_bytes()
}

/// Morphemes of a sentence: the dictionary they come from, the input text
/// and the nodes of the path.
pub struct MorphemeList<'a> {
    dict: &'a JapaneseDictionary,
    input: InputBuffer,
    nodes: Vec<ResultNode>,
    subset: InfoSubset,
}

impl<'a> MorphemeList<'a> {
    #[verifier::type_invariant]
    spec fn inv(&self) -> bool {
        &&& self.input.wf()
        &&& spec_all_fit(self.nodes@, self.input.spec_text())
    }

    /// The dictionary.
    pub closed spec fn spec_dict(&self) -> &'a JapaneseDictionary {
        self.dict
    }

    /// The input text.
    pub closed spec fn spec_input(&self) -> InputBuffer {
        self.input
    }

    /// The nodes of the morphemes.
    pub closed spec fn spec_nodes(&self) -> Seq<ResultNode> {
        self.nodes@
    }

    /// Fields of word information the nodes hold.
    pub closed spec fn spec_subset(&self) -> InfoSubset {
        self.subset
    }

    /// A list with no morpheme and an empty text.
    pub fn empty(dict: &'a JapaneseDictionary) -> (r: MorphemeList<'a>)
        ensures
            r.spec_dict() == dict,
            r.spec_nodes().len() == 0,
            r.spec_input().spec_text() == Seq::<char>::empty(),
            r.spec_subset() == InfoSubset(0),
    {
        MorphemeList { dict, input: InputBuffer::new(), nodes: Vec::new(), subset: InfoSubset::empty() }
    }

    /// A list made of its parts.
    pub fn from_components(
        dict: &'a JapaneseDictionary,
        input: InputBuffer,
        path: Vec<ResultNode>,
        subset: InfoSubset,
    ) -> (r: MorphemeList<'a>)
        requires
            input.wf(),
            spec_all_fit(path@, input.spec_text()),
        ensures
            r.spec_dict() == dict,
            r.spec_input() == input,
            r.spec_nodes() == path@,
            r.spec_subset() == subset,
    {
        MorphemeList { dict, input, nodes: path, subset }
    }

    /// Takes the result of the last analysis of `analyzer`, leaving it this
    /// list's previous contents.
    pub fn collect_results(&mut self, analyzer: &mut StatefulTokenizer<'a>) -> (r: SudachiResult<()>)
        requires
            old(analyzer).spec_result_ok(),
        ensures
            final(analyzer).spec_result_ok(),
            final(analyzer).spec_dict() == old(analyzer).spec_dict(),
            r is Ok,
            final(self).spec_dict() == old(self).spec_dict(),
            final(self).spec_input() == old(analyzer).spec_input(),
            final(self).spec_nodes() == match old(analyzer).spec_top_path() {
                Some(p) => p,
                None => Seq::<ResultNode>::empty(),
            },
            final(self).spec_subset() == old(analyzer).spec_subset(),
            final(analyzer).spec_input() == old(self).spec_input(),
            final(analyzer).spec_top_path() == Some(old(self).spec_nodes()),
            final(analyzer).spec_subset() == old(analyzer).spec_subset(),
            final(analyzer).spec_mode() == old(analyzer).spec_mode(),
            final(analyzer).spec_debug() == old(analyzer).spec_debug(),
            final(analyzer).spec_text() == old(analyzer).spec_text(),
    {
        proof {
            use_type_invariant(&*self);
        }
        let mut input = InputBuffer::new();
        let mut nodes: Vec<ResultNode> = Vec::new();
        let mut subset = self.subset;
        std::mem::swap(&mut nodes, &mut self.nodes);
        std::mem::swap(&mut input, &mut self.input);
        analyzer.swap_result(&mut input, &mut nodes, &mut subset);
        self.input = input;
        self.nodes = nodes;
        self.subset = subset;
        Ok(())
    }

    /// Appends to `out` the parts the morpheme at `index` splits into in
    /// `mode`, without clearing it; returns whether there were more than two
    /// parts. `out` takes this list's text when it holds no morpheme. An
    /// error when a part cannot be read or located.
    #[verifier::spinoff_prover]
    #[verifier::rlimit(60)]
    pub fn split_into(&self, mode: Mode, index: usize, out: &mut MorphemeList<'a>) -> (r:
        SudachiResult<bool>)
        requires
            index < self.spec_nodes().len(),
            old(out).spec_nodes().len() == 0 || old(out).spec_input().spec_text()
                == self.spec_input().spec_text(),
        ensures
            spec_no_split(self.spec_nodes()[index as int], mode) ==> (r matches Ok(false) && *final(out) == *old(out)),
            r matches Ok(b) ==> b == (spec_num_splits(self.spec_nodes()[index as int], mode) > 2),
            r is Ok && !spec_no_split(self.spec_nodes()[index as int], mode) ==> final(out).spec_input().spec_text() == self.spec_input().spec_text(),
            final(out).spec_dict() == old(out).spec_dict(),
            final(out).spec_subset() == old(out).spec_subset(),
            final(out).spec_nodes().len() >= old(out).spec_nodes().len(),
            final(out).spec_nodes().take(old(out).spec_nodes().len() as int) == old(out).spec_nodes(),
            r is Ok <==> (spec_no_split(self.spec_nodes()[index as int], mode) || spec_node_split_ok(
                self.spec_nodes()[index as int],
                mode,
                &self.spec_dict().spec_lexicon(),
                self.spec_subset(),
                self.spec_input().spec_text(),
            )),
            r is Ok && !spec_no_split(self.spec_nodes()[index as int], mode) ==> spec_split_parts(
                final(out).spec_nodes().skip(old(out).spec_nodes().len() as int),
                self.spec_nodes()[index as int],
                mode,
                &self.spec_dict().spec_lexicon(),
                self.spec_subset(),
                self.spec_input().spec_text(),
            ),
    {
        proof {
            use_type_invariant(&*self);
            use_type_invariant(self.dict);
        }
        let node = &self.nodes[index];
        let num_splits = node.num_splits(mode);
        if num_splits == 0 {
            return Ok(false);
        }
        out.assign_input(self);
        let lexicon = self.dict.lexicon();
        let mut it = node.split(mode, lexicon, self.subset, &self.input);
        let ghost start = old(out).spec_nodes();
        let ghost nd = self.nodes@[index as int];
        let ghost text = self.input.spec_text();
        let ghost sub = self.subset;
        proof {
            assert(spec_node_fits(self.nodes@[index as int], self.input.spec_text()));
            let ids = spec_word_ids(nd.spec_splits(mode));
            assert forall|k: int| 0 <= k < ids.len() implies #[trigger] it.spec_remaining()[k] == ids[k] by {
                assert(it.spec_remaining()[k]@ == nd.spec_splits(mode)[k]);
                WordId::lemma_from_raw(nd.spec_splits(mode)[k]);
            }
            assert(it.spec_remaining() =~= ids);
            assert(out.spec_nodes().skip(start.len() as int) =~= Seq::<ResultNode>::empty());
            assert(ids.skip(0) =~= ids);
            reveal(spec_split_progress);
        }
        loop
            invariant
                start == old(out).spec_nodes(),
                nd == self.nodes@[index as int],
                mode != Mode::C,
                nd.spec_splits(mode).len() > 0,
                text == self.input.spec_text(),
                sub == self.subset,
                *lexicon == self.dict.spec_lexicon(),
                it.spec_lexicon() == lexicon,
                it.spec_text() == &self.input,
                it.spec_subset() == sub,
                lexicon.wf(),
                self.input.wf(),
                it.spec_position_ok(),
                it.spec_char_end() == nd.spec_inner().spec_end(),
                it.spec_byte_end() == nd.spec_end_bytes(),
                out.spec_input().spec_text() == self.input.spec_text(),
                out.spec_dict() == old(out).spec_dict(),
                out.spec_subset() == old(out).spec_subset(),
                out.spec_nodes().len() >= start.len(),
                out.spec_nodes().take(start.len() as int) == start,
                spec_split_progress(out.spec_nodes().skip(start.len() as int), it, nd, mode, lexicon, sub, text),
            ensures
                it.spec_remaining().len() == 0,
            decreases it.spec_remaining().len(),
        {
            let more = split_step(&mut it, out, Ghost(start), Ghost(nd), Ghost(mode));
            match more {
                Ok(true) => {},
                Ok(false) => {
                    break;
                },
                Err(e) => {
                    return Err(e);
                },
            }
        }
        proof {
            lemma_split_done(out.spec_nodes().skip(start.len() as int), it, nd, mode, lexicon, sub, text);
        }
        Ok(num_splits > 2)
    }

    /// Gives this list the text of `other` when it holds no morpheme.
    fn assign_input(&mut self, other: &MorphemeList<'a>)
        requires
            old(self).spec_nodes().len() == 0 || old(self).spec_input().spec_text()
                == other.spec_input().spec_text(),
        ensures
            final(self).spec_input().spec_text() == other.spec_input().spec_text(),
            final(self).spec_nodes() == old(self).spec_nodes(),
            final(self).spec_dict() == old(self).spec_dict(),
            final(self).spec_subset() == old(self).spec_subset(),
    {
        proof {
            use_type_invariant(other);
        }
        if self.nodes.len() == 0 {
            self.input = other.input.duplicate();
        }
    }

    /// Appends a node that lies inside the text.
    fn push_node(&mut self, node: ResultNode)
        requires
            spec_node_fits(node, old(self).spec_input().spec_text()),
        ensures
            final(self).spec_nodes() == old(self).spec_nodes().push(node),
            final(self).spec_input() == old(self).spec_input(),
            final(self).spec_dict() == old(self).spec_dict(),
            final(self).spec_subset() == old(self).spec_subset(),
    {
        proof {
            use_type_invariant(&*self);
        }
        let mut nodes: Vec<ResultNode> = Vec::new();
        std::mem::swap(&mut nodes, &mut self.nodes);
        nodes.push(node);
        self.nodes = nodes;
    }

    /// Removes every morpheme.
    pub fn clear(&mut self)
        ensures
            final(self).spec_nodes().len() == 0,
            final(self).spec_input() == old(self).spec_input(),
            final(self).spec_dict() == old(self).spec_dict(),
            final(self).spec_subset() == old(self).spec_subset(),
    {
        proof {
            use_type_invariant(&*self);
        }
        self.nodes = Vec::new();
    }

    /// Number of morphemes.
    pub fn len(&self) -> (r: usize)
        ensures
            r == self.spec_nodes().len(),
    {
        self.nodes.len()
    }

    /// Whether there is no morpheme.
    pub fn is_empty(&self) -> (r: bool)
        ensures
            r == (self.spec_nodes().len() == 0),
    {
        self.nodes.len() == 0
    }

    /// The morpheme at `idx`.
    pub fn get<'l>(&'l self, idx: usize) -> (r: Morpheme<'l, 'a>)
        requires
            idx < self.spec_nodes().len(),
        ensures
            r.spec_list() == self,
            r.spec_index() == idx,
    {
        Morpheme::for_list(self, idx)
    }

    /// The text.
    pub fn surface(&self) -> (r: &str)
        ensures
            r@ == self.spec_input().spec_text(),
    {
        self.input.original()
    }

    /// Iterator over the morphemes.
    pub fn iter<'l>(&'l self) -> (r: MorphemeIter<'l, 'a>)
        ensures
            r.spec_list() == self,
            r.spec_index() == 0,
    {
        MorphemeIter { list: self, index: 0 }
    }

    /// Cost of the path between the first and the last morpheme: the
    /// difference of their path costs (wrapping), zero when empty.
    pub fn get_internal_cost(&self) -> (r: i32)
        ensures
            self.spec_nodes().len() == 0 ==> r == 0,
            self.spec_nodes().len() > 0 ==> r == vstd::wrapping::i32_specs::wrapping_sub(
                self.spec_nodes().last().spec_total_cost(),
                self.spec_nodes()[0].spec_total_cost(),
            ),
    {
        let len = self.nodes.len();
        if len == 0 {
            return 0;
        }
        let first = self.nodes[0].total_cost();
        let last = self.nodes[len - 1].total_cost();
        last.wrapping_sub(first)
    }

    /// The node of the morpheme at `idx`.
    pub(crate) fn node(&self, idx: usize) -> (r: &ResultNode)
        requires
            idx < self.spec_nodes().len(),
        ensures
            *r == self.spec_nodes()[idx as int],
    {
        &self.nodes[idx]
    }

    /// The dictionary.
    pub fn dict(&self) -> (r: &'a JapaneseDictionary)
        ensures
            r == self.spec_dict(),
    {
        self.dict
    }

    /// The input text.
    pub(crate) fn input(&self) -> (r: &InputBuffer)
        ensures
            *r == self.spec_input(),
            r.wf(),
            spec_all_fit(self.spec_nodes(), r.spec_text()),
    {
        proof {
            use_type_invariant(self);
        }
        &self.input
    }

    /// Fields of word information the nodes hold.
    pub fn subset(&self) -> (r: InfoSubset)
        ensures
            r == self.spec_subset(),
    {
        self.subset
    }

    /// Appends copies of the morphemes `start..end` to `out`, which must hold
    /// the same text.
    pub fn copy_slice(&self, start: usize, end: usize, out: &mut MorphemeList<'a>)
        requires
            start <= end <= self.spec_nodes().len(),
            old(out).spec_input().spec_text() == self.spec_input().spec_text(),
        ensures
            final(out).spec_nodes().len() == old(out).spec_nodes().len() + (end - start),
            final(out).spec_nodes().take(old(out).spec_nodes().len() as int) == old(out).spec_nodes(),
            forall|k: int|
                0 <= k < end - start ==> spec_same_node(
                    #[trigger] final(out).spec_nodes()[old(out).spec_nodes().len() + k],
                    self.spec_nodes()[start + k],
                ),
            final(out).spec_input() == old(out).spec_input(),
            final(out).spec_dict() == old(out).spec_dict(),
    {
        proof {
            use_type_invariant(&*self);
        }
        let ghost base = old(out).spec_nodes();
        let mut i = start;
        while i < end
            invariant
                start <= i <= end <= self.nodes@.len(),
                self.input.wf(),
                spec_all_fit(self.nodes@, self.input.spec_text()),
                out.spec_input().spec_text() == self.input.spec_text(),
                out.spec_input() == old(out).spec_input(),
                out.spec_dict() == old(out).spec_dict(),
                out.spec_nodes().len() == base.len() + (i - start),
                out.spec_nodes().take(base.len() as int) == base,
                forall|k: int|
                    0 <= k < i - start ==> spec_same_node(
                        #[trigger] out.spec_nodes()[base.len() + k],
                        self.nodes@[start + k],
                    ),
            decreases end - i,
        {
            let copy = self.nodes[i].duplicate();
            proof {
                assert(spec_node_fits(self.nodes@[i as int], self.input.spec_text()));
            }
            let ghost before = out.spec_nodes();
            out.push_node(copy);
            proof {
                assert(out.spec_nodes().take(base.len() as int) =~= before.take(base.len() as int));
            }
            i = i + 1;
        }
    }

    /// A list with the same dictionary, text and fields, and no morpheme.
    pub fn empty_clone(&self) -> (r: MorphemeList<'a>)
        ensures
            r.spec_dict() == self.spec_dict(),
            r.spec_input().spec_text() == self.spec_input().spec_text(),
            r.spec_subset() == self.spec_subset(),
            r.spec_nodes().len() == 0,
    {
        proof {
            use_type_invariant(self);
        }
        MorphemeList {
            dict: self.dict,
            input: self.input.duplicate(),
            nodes: Vec::new(),
            subset: self.subset,
        }
    }

    /// A new list holding the parts the morpheme at `index` splits into in
    /// `mode`; an empty list when it does not split.
    #[verifier::spinoff_prover]
    #[verifier::rlimit(60)]
    pub fn split(&self, mode: Mode, index: usize) -> (r: SudachiResult<MorphemeList<'a>>)
        requires
            index < self.spec_nodes().len(),
        ensures
            r matches Ok(l) ==> l.spec_dict() == self.spec_dict() && l.spec_input().spec_text()
                == self.spec_input().spec_text(),
            r matches Ok(l) ==> l.spec_subset() == self.spec_subset(),
            r is Ok <==> (spec_no_split(self.spec_nodes()[index as int], mode) || spec_node_split_ok(
                self.spec_nodes()[index as int],
                mode,
                &self.spec_dict().spec_lexicon(),
                self.spec_subset(),
                self.spec_input().spec_text(),
            )),
            r matches Ok(l) ==> if spec_no_split(self.spec_nodes()[index as int], mode) {
                l.spec_nodes().len() == 0
            } else {
                spec_split_parts(
                    l.spec_nodes(),
                    self.spec_nodes()[index as int],
                    mode,
                    &self.spec_dict().spec_lexicon(),
                    self.spec_subset(),
                    self.spec_input().spec_text(),
                )
            },
    {
        proof {
            use_type_invariant(self);
        }
        let mut list = self.empty_clone();
        match self.split_into(mode, index, &mut list) {
            Ok(_) => {},
            Err(e) => {
                return Err(e);
            },
        }
        proof {
            assert(list.spec_nodes().skip(0) =~= list.spec_nodes());
        }
        Ok(list)
    }
}

/// Progress of splitting `nd` in `mode`: `parts` are the parts produced so
/// far, `it` yields the others, and the parts can all be read and located
/// exactly when the remaining ones can from where `it` stands.
#[verifier::opaque]
spec fn spec_split_progress(
    parts: Seq<ResultNode>,
    it: NodeSplitIterator,
    nd: ResultNode,
    mode: Mode,
    lex: &LexiconSet,
    sub: InfoSubset,
    text: Seq<char>,
) -> bool {
    let splits = nd.spec_splits(mode);
    let ids = spec_word_ids(splits);
    &&& parts.len() <= ids.len()
    &&& it.spec_remaining() == ids.skip(parts.len() as int)
    &&& forall|k: int|
        0 <= k < parts.len() ==> spec_split_part(#[trigger] parts[k], lex, sub, splits[k]) && spec_node_fits(
            parts[k],
            text,
        )
    &&& spec_parts_chained(parts)
    &&& parts.len() > 0 ==> parts[0].spec_inner().spec_begin() == nd.spec_inner().spec_begin()
        && parts[0].spec_begin_bytes() == nd.spec_begin_bytes()
    &&& parts.len() == 0 ==> it.spec_char_offset() == nd.spec_inner().spec_begin() && it.spec_byte_offset()
        == nd.spec_begin_bytes()
    &&& parts.len() > 0 ==> it.spec_char_offset() == parts.last().spec_inner().spec_end()
        && it.spec_byte_offset() == parts.last().spec_end_bytes()
    &&& 0 < parts.len() < ids.len() ==> parts.last().spec_end_bytes() == parts.last().spec_begin_bytes()
        + parts.last().spec_info().head_word_length
    &&& 0 < parts.len() == ids.len() ==> parts.last().spec_inner().spec_end() == nd.spec_inner().spec_end()
        && parts.last().spec_end_bytes() == nd.spec_end_bytes()
    &&& (spec_node_split_ok(nd, mode, lex, sub, text) <==> spec_split_ok(
        lex,
        sub,
        text,
        it.spec_remaining(),
        it.spec_byte_offset() as int,
        nd.spec_inner().spec_end() as int,
    ))
}

/// Once the iterator is exhausted, the parts are all the parts of `nd`,
/// and they could all be read and located.
proof fn lemma_split_done(
    parts: Seq<ResultNode>,
    it: NodeSplitIterator,
    nd: ResultNode,
    mode: Mode,
    lex: &LexiconSet,
    sub: InfoSubset,
    text: Seq<char>,
)
    requires
        spec_split_progress(parts, it, nd, mode, lex, sub, text),
        it.spec_remaining().len() == 0,
        nd.spec_splits(mode).len() > 0,
    ensures
        spec_split_parts(parts, nd, mode, lex, sub, text),
        spec_node_split_ok(nd, mode, lex, sub, text),
{
    reveal(spec_split_progress);
    assert(parts.len() == nd.spec_splits(mode).len());
}

/// Takes the next part of `nd` from `it` into `out`: `Ok(true)` when there
/// was one, `Ok(false)` when none is left, an error when it cannot be read
/// or located (and then not all parts of `nd` can).
#[verifier::spinoff_prover]
#[verifier::rlimit(60)]
fn split_step<'a, 'l>(
    it: &mut NodeSplitIterator<'l>,
    out: &mut MorphemeList<'a>,
    Ghost(start): Ghost<Seq<ResultNode>>,
    Ghost(nd): Ghost<ResultNode>,
    Ghost(mode): Ghost<Mode>,
) -> (r: SudachiResult<bool>)
    requires
        old(it).spec_lexicon().wf(),
        old(it).spec_text().wf(),
        old(it).spec_position_ok(),
        old(out).spec_input().spec_text() == old(it).spec_text().spec_text(),
        old(out).spec_nodes().len() >= start.len(),
        old(out).spec_nodes().take(start.len() as int) == start,
        nd.spec_splits(mode).len() > 0,
        old(it).spec_char_end() == nd.spec_inner().spec_end(),
        old(it).spec_byte_end() == nd.spec_end_bytes(),
        spec_split_progress(
            old(out).spec_nodes().skip(start.len() as int),
            *old(it),
            nd,
            mode,
            old(it).spec_lexicon(),
            old(it).spec_subset(),
            old(it).spec_text().spec_text(),
        ),
    ensures
        final(it).spec_lexicon() == old(it).spec_lexicon(),
        final(it).spec_text() == old(it).spec_text(),
        final(it).spec_subset() == old(it).spec_subset(),
        final(it).spec_char_end() == old(it).spec_char_end(),
        final(it).spec_byte_end() == old(it).spec_byte_end(),
        final(it).spec_position_ok(),
        final(out).spec_input() == old(out).spec_input(),
        final(out).spec_dict() == old(out).spec_dict(),
        final(out).spec_subset() == old(out).spec_subset(),
        final(out).spec_nodes().len() >= start.len(),
        final(out).spec_nodes().take(start.len() as int) == start,
        r matches Ok(true) ==> final(it).spec_remaining().len() < old(it).spec_remaining().len(),
        r matches Ok(false) ==> final(it).spec_remaining().len() == 0,
        r is Ok ==> spec_split_progress(
            final(out).spec_nodes().skip(start.len() as int),
            *final(it),
            nd,
            mode,
            old(it).spec_lexicon(),
            old(it).spec_subset(),
            old(it).spec_text().spec_text(),
        ),
        r is Err ==> !spec_node_split_ok(
            nd,
            mode,
            old(it).spec_lexicon(),
            old(it).spec_subset(),
            old(it).spec_text().spec_text(),
        ),
{
    let ghost lexicon = it.spec_lexicon();
    let ghost sub = it.spec_subset();
    let ghost text = it.spec_text().spec_text();
    let ghost it0 = *it;
    let ghost parts0 = out.spec_nodes().skip(start.len() as int);
    match it.next() {
        Ok(Some(part)) => {
            out.push_node(part);
            proof {
                assert(out.spec_nodes().skip(start.len() as int) =~= parts0.push(part));
                assert(out.spec_nodes().take(start.len() as int) =~= start);
                lemma_split_progress_step(parts0, it0, part, *it, nd, mode, lexicon, sub, text);
            }
            Ok(true)
        },
        Ok(None) => Ok(false),
        Err(e) => {
            proof {
                lemma_split_progress_fail(parts0, it0, nd, mode, lexicon, sub, text);
            }
            Err(e)
        },
    }
}

/// A part that could not be read or located stops the whole split.
proof fn lemma_split_progress_fail(
    parts: Seq<ResultNode>,
    it: NodeSplitIterator,
    nd: ResultNode,
    mode: Mode,
    lex: &LexiconSet,
    sub: InfoSubset,
    text: Seq<char>,
)
    requires
        spec_split_progress(parts, it, nd, mode, lex, sub, text),
        !(it.spec_remaining().len() == 0 || spec_split_step_ok(
            lex,
            sub,
            text,
            it.spec_remaining()[0],
            it.spec_byte_offset() as int,
            it.spec_char_end() as int,
            it.spec_remaining().len() == 1,
        )),
        it.spec_char_end() == nd.spec_inner().spec_end(),
    ensures
        !spec_node_split_ok(nd, mode, lex, sub, text),
{
    reveal(spec_split_progress);
}

/// Taking the next part keeps the progress of a split.
#[verifier::spinoff_prover]
#[verifier::rlimit(60)]
proof fn lemma_split_progress_step(
    parts: Seq<ResultNode>,
    it0: NodeSplitIterator,
    part: ResultNode,
    it1: NodeSplitIterator,
    nd: ResultNode,
    mode: Mode,
    lex: &LexiconSet,
    sub: InfoSubset,
    text: Seq<char>,
)
    requires
        spec_split_progress(parts, it0, nd, mode, lex, sub, text),
        it0.spec_char_end() == nd.spec_inner().spec_end(),
        it0.spec_byte_end() == nd.spec_end_bytes(),
        it0.spec_remaining().len() > 0,
        spec_split_step_ok(
            lex,
            sub,
            text,
            it0.spec_remaining()[0],
            it0.spec_byte_offset() as int,
            it0.spec_char_end() as int,
            it0.spec_remaining().len() == 1,
        ),
        spec_node_fits(part, text),
        lex.spec_word_info(it0.spec_remaining()[0], sub) == Some(part.spec_info()),
        part.spec_inner().spec_word_id() == it0.spec_remaining()[0],
        part.spec_inner().spec_begin() == it0.spec_char_offset(),
        part.spec_begin_bytes() == it0.spec_byte_offset(),
        part.spec_total_cost() == i32::MAX,
        part.spec_inner().spec_left_id() == u16::MAX,
        part.spec_inner().spec_right_id() == u16::MAX,
        part.spec_inner().spec_cost() == i16::MAX,
        if it0.spec_remaining().len() == 1 {
            part.spec_inner().spec_end() == it0.spec_char_end() && part.spec_end_bytes() == it0.spec_byte_end()
        } else {
            part.spec_end_bytes() == it0.spec_byte_offset() + part.spec_info().head_word_length
        },
        it1.spec_remaining() == it0.spec_remaining().drop_first(),
        it1.spec_char_offset() == part.spec_inner().spec_end(),
        it1.spec_byte_offset() == part.spec_end_bytes(),
        it1.spec_char_end() == it0.spec_char_end(),
    ensures
        spec_split_progress(parts.push(part), it1, nd, mode, lex, sub, text),
{
    reveal(spec_split_progress);
    let splits = nd.spec_splits(mode);
    let ids = spec_word_ids(splits);
    let p2 = parts.push(part);
    assert(it0.spec_remaining()[0] == ids[parts.len() as int]);
    assert(ids[parts.len() as int]@ == splits[parts.len() as int]) by {
        WordId::lemma_from_raw(splits[parts.len() as int]);
    }
    assert(it1.spec_remaining() =~= ids.skip(p2.len() as int));
    assert forall|k: int|
        0 <= k < p2.len() implies spec_split_part(#[trigger] p2[k], lex, sub, splits[k]) && spec_node_fits(
        p2[k],
        text,
    ) by {
        if k < parts.len() {
            assert(p2[k] == parts[k]);
        }
    }
    assert forall|k: int| 0 <= k < p2.len() - 1 implies {
        &&& (#[trigger] p2[k + 1]).spec_inner().spec_begin() == p2[k].spec_inner().spec_end()
        &&& p2[k + 1].spec_begin_bytes() == p2[k].spec_end_bytes()
        &&& p2[k].spec_end_bytes() == p2[k].spec_begin_bytes() + p2[k].spec_info().head_word_length
    } by {
        assert(p2[k] == parts[k]);
        if k + 1 < parts.len() {
            assert(p2[k + 1] == parts[k + 1]);
        }
    }
}

/// Iterator over the morphemes of a list.
pub struct MorphemeIter<'l, 'a> {
    list: &'l MorphemeList<'a>,
    index: usize,
}

impl<'l, 'a> MorphemeIter<'l, 'a> {
    /// The list iterated over.
    pub closed spec fn spec_list(&self) -> &'l MorphemeList<'a> {
        self.list
    }

    /// Index of the next morpheme.
    pub closed spec fn spec_index(&self) -> usize {
        self.index
    }

    /// The next morpheme, or `None` after the last one.
    pub fn next(&mut self) -> (r: Option<Morpheme<'l, 'a>>)
        ensures
            final(self).spec_list() == old(self).spec_list(),
            old(self).spec_index() >= old(self).spec_list().spec_nodes().len() ==> r is None
                && final(self).spec_index() == old(self).spec_index(),
            old(self).spec_index() < old(self).spec_list().spec_nodes().len() ==> (r matches Some(
                m,
            ) && m.spec_index() == old(self).spec_index() && m.spec_list() == old(self).spec_list())
                && final(self).spec_index() == old(self).spec_index() + 1,
    {
        if self.index >= self.list.len() {
            return None;
        }
        let m = Morpheme::for_list(self.list, self.index);
        self.index = self.index + 1;
        Some(m)
    }

    /// Number of morphemes not returned yet.
    pub fn len(&self) -> (r: usize)
        ensures
            r == if self.spec_index() < self.spec_list().spec_nodes().len() {
                self.spec_list().spec_nodes().len() - self.spec_index()
            } else {
                0
            },
    {
        let n = self.list.len();
        if self.index < n {
            n - self.index
        } else {
            0
        }
    }
}

} // verus!
