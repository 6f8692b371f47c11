//! Tokenizer that keeps its buffers between analyses.

use vstd::prelude::*;
use vstd::utf8::encode_utf8;

use crate::analysis::created::{spec_shift, spec_single, CreatedWords};
use crate::dic::lexicon::word_infos::{spec_empty_model, WordInfoModel};
use crate::dic::lexicon::spec_lexicon_entries;
use crate::dic::lexicon::word_params::{spec_cost_of, spec_left_id, spec_right_id};
use crate::dic::lexicon::LexiconEntry;
use crate::dic::lexicon_set::{spec_set_lookup, LexiconSet};
use crate::analysis::lattice::spec_best;
use crate::dic::word_id::{spec_dic_of, spec_raw_of, spec_word_of, OOV_DIC};
use crate::input_text::spec_byte_offset;
use crate::plugin::oov::SimpleOovPlugin;
use crate::analysis::inner::{Node, NodeIdx};
use crate::analysis::lattice::{Lattice, MAX_LATTICE_LENGTH, MAX_NODES_PER_BOUNDARY};
use crate::analysis::mlist::{spec_all_fit, spec_node_split_ok, spec_word_ids, MorphemeList};
use crate::analysis::node::spec_split_ok;
use crate::dic::word_id::WordId;
use crate::analysis::mode::Mode;
use crate::analysis::node::{spec_node_fits, spec_tiles, LatticeNode, ResultNode};
use crate::analysis::stateless_tokenizer::split_path;
use crate::dic::connect::ConnectionMatrix;
use crate::dic::dictionary::JapaneseDictionary;
use crate::dic::lexicon::word_infos::{WordInfo, WordInfoData};
use crate::dic::subset::{InfoSubset, SPLIT_A, SPLIT_B};
use crate::error::{SudachiError, SudachiResult};
use crate::input_text::{str_sizes, InputBuffer};

verus! {

/// Tokenizer holding a dictionary, the input being analyzed, the lattice
/// and the best path found.
pub struct StatefulTokenizer<'a> {
    dictionary: &'a JapaneseDictionary,
    text: String,
    input: InputBuffer,
    debug: bool,
    mode: Mode,
    oov: Vec<Node>,
    lattice: Lattice,
    top_path_ids: Vec<NodeIdx>,
    top_path: Option<Vec<ResultNode>>,
    subset: InfoSubset,
}

/// Fields needed for splitting in `mode`.
pub open spec fn spec_mode_subset(mode: Mode) -> u32 {
    match mode {
        Mode::A => SPLIT_A,
        Mode::B => SPLIT_B,
        Mode::C => 0,
    }
}

/// Splitting in mode A reads the A-unit split and splitting in mode B the
/// B-unit split: any set of fields joined with what a mode needs holds the
/// split list of that mode.
pub proof fn lemma_mode_subset_reads_its_split(mode: Mode, fields: u32)
    ensures
        mode == Mode::A ==> InfoSubset(fields | spec_mode_subset(mode)).has(SPLIT_A),
        mode == Mode::B ==> InfoSubset(fields | spec_mode_subset(mode)).has(SPLIT_B),
        mode == Mode::C ==> fields | spec_mode_subset(mode) == fields,
{
    assert((fields | 64u32) & 64u32 == 64u32) by (bit_vector);
    assert((fields | 128u32) & 128u32 == 128u32) by (bit_vector);
    assert(fields | 0u32 == fields) by (bit_vector);
}

/// Fields needed for splitting in `mode`.
fn mode_subset(mode: Mode) -> (r: InfoSubset)
    ensures
        r.0 == spec_mode_subset(mode),
{
    match mode {
        Mode::A => InfoSubset(SPLIT_A),
        Mode::B => InfoSubset(SPLIT_B),
        Mode::C => InfoSubset::empty(),
    }
}

/// Word information of the unknown word `n` of `text`: the part of speech
/// its word id names, its surface from the text, every other field empty.
pub open spec fn spec_oov_info(n: Node, text: Seq<char>) -> WordInfoModel {
    WordInfoModel {
        pos_id: (spec_word_of(n.spec_word_id()@) as u16) as int,
        surface: text.subrange(n.spec_begin() as int, n.spec_end() as int),
        ..spec_empty_model()
    }
}

/// Whether the node at `id` of `lat` can be given as a result: it is a node
/// of the lattice that lies inside it, the word information of a known word
/// can be read, and its byte offsets in `text` fit 16 bits.
pub open spec fn spec_result_ok_at(
    lat: Lattice,
    text: Seq<char>,
    lex: &LexiconSet,
    sub: InfoSubset,
    id: NodeIdx,
) -> bool {
    let e = id.spec_end() as int;
    let k = id.spec_index() as int;
    let n = lat.spec_node(e, k);
    &&& 1 <= e < lat.spec_size()
    &&& k < lat.spec_count(e)
    &&& n.spec_begin() <= n.spec_end() < lat.spec_size()
    &&& (spec_dic_of(n.spec_word_id()@) == OOV_DIC as int || lex.spec_word_info(n.spec_word_id(), sub) is Some)
    &&& spec_byte_offset(text, n.spec_begin() as int) <= 65535
    &&& spec_byte_offset(text, n.spec_end() as int) <= 65535
}

/// Whether `r` is the result for the node at `id` of `lat`: that node, the
/// cost of the cheapest path to it, its byte range in `text` and its word
/// information.
pub open spec fn spec_result_at(
    r: ResultNode,
    lat: Lattice,
    text: Seq<char>,
    lex: &LexiconSet,
    sub: InfoSubset,
    id: NodeIdx,
) -> bool {
    let e = id.spec_end() as int;
    let k = id.spec_index() as int;
    let n = lat.spec_node(e, k);
    &&& r.spec_inner() == n
    &&& r.spec_total_cost() == lat.spec_totals(e)[k]
    &&& r.spec_begin_bytes() == spec_byte_offset(text, n.spec_begin() as int)
    &&& r.spec_end_bytes() == spec_byte_offset(text, n.spec_end() as int)
    &&& r.spec_info() == if spec_dic_of(n.spec_word_id()@) == OOV_DIC as int {
        spec_oov_info(n, text)
    } else {
        lex.spec_word_info(n.spec_word_id(), sub)->0
    }
}

/// The words of the lexicons of `dict` that start at character boundary `c`
/// of `text`: their raw word ids and the byte offsets where they end;
/// `None` when the lexicons cannot be read there.
pub open spec fn spec_lookup_at(dict: &JapaneseDictionary, text: Seq<char>, c: int) -> Option<Seq<(u32, int)>> {
    let lexs = dict.spec_lexicon().spec_lexicons();
    spec_set_lookup(lexs, encode_utf8(text), spec_byte_offset(text, c), lexs.len() as int)
}

/// Whether the word of raw id `w` names an entry of `dict` whose
/// connection ids are inside the connection matrix.
pub open spec fn spec_entry_ok(dict: &JapaneseDictionary, w: u32) -> bool {
    let lexs = dict.spec_lexicon().spec_lexicons();
    let conn = dict.spec_grammar().spec_connection();
    &&& spec_dic_of(w) < lexs.len()
    &&& spec_word_of(w) < lexs[spec_dic_of(w)].spec_params().len()
    &&& {
        let x = lexs[spec_dic_of(w)].spec_params()[spec_word_of(w)];
        &&& 0 <= spec_left_id(x) < conn.spec_num_right()
        &&& 0 <= spec_right_id(x) < conn.spec_num_left()
    }
}

/// Whether word `j` of those starting at character boundary `c` of `text`
/// names no entry of `dict` or has connection ids outside the matrix.
pub open spec fn spec_bad_entry_at(dict: &JapaneseDictionary, text: Seq<char>, c: int, j: int) -> bool {
    match spec_lookup_at(dict, text, c) {
        Some(es) => 0 <= j < es.len() && !spec_entry_ok(dict, es[j].0),
        None => false,
    }
}

/// Number of words of the lexicons of `dict` that start at character
/// boundary `c` of `text`; none when they cannot be read.
pub open spec fn spec_lookup_len(dict: &JapaneseDictionary, text: Seq<char>, c: int) -> int {
    match spec_lookup_at(dict, text, c) {
        Some(es) => es.len() as int,
        None => 0,
    }
}

/// Most nodes that building inserts for the boundaries before `m`: the
/// words starting at each, and one unknown word.
pub open spec fn spec_lookup_total(dict: &JapaneseDictionary, text: Seq<char>, m: int) -> int
    decreases m,
{
    if m <= 0 {
        0
    } else {
        spec_lookup_total(dict, text, m - 1) + spec_lookup_len(dict, text, m - 1) + 1
    }
}

/// The most nodes building inserts grows with the boundaries counted.
proof fn lemma_lookup_total_grows(dict: &JapaneseDictionary, text: Seq<char>, a: int, b: int)
    requires
        0 <= a <= b,
    ensures
        spec_lookup_total(dict, text, a) <= spec_lookup_total(dict, text, b),
    decreases b - a,
{
    if a < b {
        lemma_lookup_total_grows(dict, text, a, b - 1);
    }
}

/// Whether the words of `text` in `dict` could fill a boundary of the
/// lattice: the start marker and the most nodes building inserts reach
/// the limit of nodes per boundary.
pub open spec fn spec_crowded(dict: &JapaneseDictionary, text: Seq<char>) -> bool {
    1 + spec_lookup_total(dict, text, text.len() as int) >= MAX_NODES_PER_BOUNDARY
}

/// Why building the lattice of `text` over `dict` can stop: the lexicons
/// cannot be read at some boundary, a word found names no entry or has
/// connection ids outside the matrix, or so many words are found that a
/// boundary could fill up. Once every dictionary and unknown word node is
/// inserted, a path always reaches the end of the text.
pub open spec fn spec_build_failed(dict: &JapaneseDictionary, text: Seq<char>) -> bool {
    ||| exists|c: int| 0 <= c < text.len() && #[trigger] spec_lookup_at(dict, text, c) is None
    ||| exists|c: int, j: int| 0 <= c < text.len() && #[trigger] spec_bad_entry_at(dict, text, c, j)
    ||| spec_crowded(dict, text)
}

/// Whether word `j` of those starting at character boundary `c` of `text`
/// ends at character boundary `e`.
pub open spec fn spec_valid_word(dict: &JapaneseDictionary, text: Seq<char>, c: int, j: int, e: int) -> bool {
    match spec_lookup_at(dict, text, c) {
        Some(es) => 0 <= j < es.len() && spec_valid_end(text, c, e, es[j].1),
        None => false,
    }
}

/// Raw word id of word `j` of those starting at character boundary `c`.
pub open spec fn spec_word_at(dict: &JapaneseDictionary, text: Seq<char>, c: int, j: int) -> u32 {
    spec_lookup_at(dict, text, c)->0[j].0
}

/// Whether `node`, ending at boundary `b`, is one that building inserts:
/// the node of a word of `dict` that starts earlier and ends at `b`, or
/// the unknown word of the character before `b`.
pub open spec fn spec_known_node(dict: &JapaneseDictionary, text: Seq<char>, node: Node, b: int) -> bool {
    ||| exists|c: int, j: int|
        0 <= c < b && #[trigger] spec_valid_word(dict, text, c, j, b) && spec_word_node(
            node,
            dict,
            c,
            b,
            spec_word_at(dict, text, c, j),
        )
    ||| spec_is_oov_node(node, dict.spec_oov(), b - 1)
}

/// Whether every node of `lat` is one that building inserts.
pub open spec fn spec_lattice_sound(dict: &JapaneseDictionary, text: Seq<char>, lat: Lattice) -> bool {
    forall|b: int, k: int|
        1 <= b < lat.spec_size() && 0 <= k < lat.spec_count(b) ==> spec_known_node(
            dict,
            text,
            #[trigger] lat.spec_node(b, k),
            b,
        )
}

/// Whether some word of `dict` found in `text` has word information that
/// cannot be read with the fields `sub`.
pub open spec fn spec_unreadable_word(dict: &JapaneseDictionary, text: Seq<char>, sub: InfoSubset) -> bool {
    exists|c: int, j: int, e: int|
        0 <= c < text.len() && #[trigger] spec_valid_word(dict, text, c, j, e) && dict.spec_lexicon().spec_word_info(
            WordId::spec_from_raw(spec_word_at(dict, text, c, j)),
            sub,
        ) is None
}

/// Split word ids of word information `info` in `mode`.
pub open spec fn spec_info_splits(info: WordInfoModel, mode: Mode) -> Seq<u32> {
    match mode {
        Mode::A => info.a_unit_split,
        _ => info.b_unit_split,
    }
}

/// Whether some word of `dict` found in `text` has a part in `mode` that
/// cannot be read or placed.
pub open spec fn spec_word_split_fails(
    dict: &JapaneseDictionary,
    text: Seq<char>,
    sub: InfoSubset,
    mode: Mode,
) -> bool {
    exists|c: int, j: int, e: int|
        0 <= c < text.len() && #[trigger] spec_valid_word(dict, text, c, j, e) && !spec_split_ok(
            &dict.spec_lexicon(),
            sub,
            text,
            spec_word_ids(
                spec_info_splits(
                    dict.spec_lexicon().spec_word_info(WordId::spec_from_raw(spec_word_at(dict, text, c, j)), sub)->0,
                    mode,
                ),
            ),
            spec_byte_offset(text, c),
            e,
        )
}

/// Why analyzing `text` over `dict` in `mode`, reading the fields `sub`,
/// can fail once the text is short enough: the lattice cannot be built,
/// the text takes more bytes than 16-bit offsets hold, a word found cannot
/// be read, or, outside mode C, one of its parts cannot be read or placed.
pub open spec fn spec_analysis_failed(dict: &JapaneseDictionary, text: Seq<char>, sub: InfoSubset, mode: Mode) -> bool {
    ||| spec_build_failed(dict, text)
    ||| encode_utf8(text).len() > 65535
    ||| spec_unreadable_word(dict, text, sub)
    ||| (mode != Mode::C && spec_word_split_fails(dict, text, sub, mode))
}

/// Whether every node of the cheapest path of `lat` can be given as a
/// result.
pub open spec fn spec_resolve_ok(lat: Lattice, text: Seq<char>, lex: &LexiconSet, sub: InfoSubset) -> bool {
    forall|j: int| 0 <= j < lat.spec_top_path().len() ==> spec_result_ok_at(lat, text, lex, sub, #[trigger] lat.spec_top_path()[j])
}

/// Whether the result for some node of the cheapest path of `lat` has a
/// part in `mode` that cannot be read or placed.
pub open spec fn spec_split_fails(lat: Lattice, text: Seq<char>, lex: &LexiconSet, sub: InfoSubset, mode: Mode) -> bool {
    exists|j: int, rn: ResultNode|
        0 <= j < lat.spec_top_path().len() && #[trigger] spec_result_at(rn, lat, text, lex, sub, lat.spec_top_path()[j])
            && !spec_node_split_ok(rn, mode, lex, sub, text)
}

/// Once the lattice is built, the nodes of its cheapest path fail to give
/// results only when the text takes more bytes than 16-bit offsets hold or
/// a word found cannot be read.
proof fn lemma_resolve_fail_cause(dict: &JapaneseDictionary, text: Seq<char>, lat: Lattice, sub: InfoSubset)
    requires
        lat.wf(),
        lat.spec_size() == text.len() + 1,
        lat.consistent(dict.spec_grammar().spec_connection()),
        lat.spec_connected_end(),
        spec_lattice_sound(dict, text, lat),
        !spec_resolve_ok(lat, text, &dict.spec_lexicon(), sub),
    ensures
        encode_utf8(text).len() > 65535 || spec_unreadable_word(dict, text, sub),
{
    lat.lemma_top_path_tiles(dict.spec_grammar().spec_connection());
    let ids = lat.spec_top_path();
    let j = choose|j: int| 0 <= j < ids.len() && !spec_result_ok_at(lat, text, &dict.spec_lexicon(), sub, #[trigger] ids[j]);
    let id = ids[j];
    assert(lat.spec_reached_at(id));
    let b = id.spec_end() as int;
    let k = id.spec_index() as int;
    lat.lemma_node_span(b, k);
    let node = lat.spec_node(b, k);
    let n = text.len() as int;
    assert(text.take(n) =~= text);
    crate::input_text::lemma_offsets_monotone(text, node.spec_begin() as int, n);
    crate::input_text::lemma_offsets_monotone(text, node.spec_end() as int, n);
    if encode_utf8(text).len() <= 65535 {
        assert(spec_known_node(dict, text, node, b));
        if spec_is_oov_node(node, dict.spec_oov(), b - 1) {
            assert(spec_dic_of(node.spec_word_id()@) == OOV_DIC as int);
        } else {
            let (c, jj) = choose|c: int, jj: int|
                0 <= c < b && #[trigger] spec_valid_word(dict, text, c, jj, b) && spec_word_node(
                    node,
                    dict,
                    c,
                    b,
                    spec_word_at(dict, text, c, jj),
                );
            WordId::lemma_from_raw(spec_word_at(dict, text, c, jj));
            assert(node.spec_word_id() == WordId::spec_from_raw(spec_word_at(dict, text, c, jj)));
            assert(spec_valid_word(dict, text, c, jj, b));
        }
    }
}

/// Once the lattice is built, a node of its cheapest path fails to split
/// only when a word found has a part that cannot be read or placed.
proof fn lemma_split_fail_cause(
    dict: &JapaneseDictionary,
    text: Seq<char>,
    lat: Lattice,
    sub: InfoSubset,
    mode: Mode,
)
    requires
        lat.wf(),
        lat.spec_size() == text.len() + 1,
        lat.consistent(dict.spec_grammar().spec_connection()),
        lat.spec_connected_end(),
        spec_lattice_sound(dict, text, lat),
        spec_split_fails(lat, text, &dict.spec_lexicon(), sub, mode),
    ensures
        spec_word_split_fails(dict, text, sub, mode),
{
    lat.lemma_top_path_tiles(dict.spec_grammar().spec_connection());
    let ids = lat.spec_top_path();
    let lex = &dict.spec_lexicon();
    let (j, rn) = choose|j: int, rn: ResultNode|
        0 <= j < ids.len() && #[trigger] spec_result_at(rn, lat, text, lex, sub, ids[j]) && !spec_node_split_ok(
            rn,
            mode,
            lex,
            sub,
            text,
        );
    let id = ids[j];
    assert(lat.spec_reached_at(id));
    let b = id.spec_end() as int;
    let k = id.spec_index() as int;
    lat.lemma_node_span(b, k);
    let node = lat.spec_node(b, k);
    assert(rn.spec_inner() == node);
    assert(spec_known_node(dict, text, node, b));
    if spec_dic_of(node.spec_word_id()@) == OOV_DIC as int {
        assert(rn.spec_info() == spec_oov_info(node, text));
        assert(rn.spec_splits(mode).len() == 0);
        assert(spec_word_ids(rn.spec_splits(mode)).len() == 0);
    } else {
        if spec_is_oov_node(node, dict.spec_oov(), b - 1) {
            assert(spec_dic_of(node.spec_word_id()@) == OOV_DIC as int);
        }
        let (c, jj) = choose|c: int, jj: int|
            0 <= c < b && #[trigger] spec_valid_word(dict, text, c, jj, b) && spec_word_node(
                node,
                dict,
                c,
                b,
                spec_word_at(dict, text, c, jj),
            );
        WordId::lemma_from_raw(spec_word_at(dict, text, c, jj));
        assert(node.spec_word_id() == WordId::spec_from_raw(spec_word_at(dict, text, c, jj)));
        assert(rn.spec_splits(mode) == spec_info_splits(
            dict.spec_lexicon().spec_word_info(WordId::spec_from_raw(spec_word_at(dict, text, c, jj)), sub)->0,
            mode,
        ));
        assert(spec_valid_word(dict, text, c, jj, b));
    }
}

/// Result nodes for a path of `lat` that covers the sentence, taken from the
/// first node to the last, cover it too.
proof fn lemma_result_tiles(
    p: Seq<ResultNode>,
    lat: Lattice,
    text: Seq<char>,
    lex: &LexiconSet,
    sub: InfoSubset,
    ids: Seq<NodeIdx>,
)
    requires
        lat.spec_path_tiles(ids),
        p.len() == ids.len(),
        forall|j: int| 0 <= j < ids.len() ==> spec_result_at(#[trigger] p[j], lat, text, lex, sub, ids[ids.len() - 1 - j]),
    ensures
        spec_tiles(p, lat.spec_size() - 1),
{
    let m = ids.len() as int;
    assert(spec_result_at(p[0], lat, text, lex, sub, ids[m - 1]));
    assert(spec_result_at(p[m - 1], lat, text, lex, sub, ids[m - 1 - (m - 1)]));
    assert forall|j: int| 0 <= j < p.len() - 1 implies #[trigger] p[j + 1].spec_inner().spec_begin()
        == p[j].spec_inner().spec_end() by {
        assert(spec_result_at(p[j], lat, text, lex, sub, ids[m - 1 - j]));
        assert(spec_result_at(p[j + 1], lat, text, lex, sub, ids[m - 1 - (j + 1)]));
        let t = m - 2 - j;
        assert(lat.spec_node_at(ids[t + 1]).spec_end() == lat.spec_node_at(ids[t]).spec_begin());
        assert(t + 1 == m - 1 - j);
    }
}

/// Whether `e` is a character boundary of `text` after `c` whose byte
/// offset is `b`: where a word starting at `c` and ending at byte `b` ends.
pub open spec fn spec_valid_end(text: Seq<char>, c: int, e: int, b: int) -> bool {
    c < e <= text.len() && spec_byte_offset(text, e) == b
}

/// Whether `node` is the lattice node of the word of raw id `w` of `dict`
/// from character boundary `c` to `e`: its connection ids and cost are the
/// word's.
pub open spec fn spec_word_node(node: Node, dict: &JapaneseDictionary, c: int, e: int, w: u32) -> bool {
    let x = dict.spec_lexicon().spec_lexicons()[spec_dic_of(w)].spec_params()[spec_word_of(w)];
    &&& node.spec_begin() == c
    &&& node.spec_end() == e
    &&& node.spec_word_id()@ == w
    &&& node.spec_left_id() == spec_left_id(x) as u16
    &&& node.spec_right_id() == spec_right_id(x) as u16
    &&& node.spec_cost() == spec_cost_of(x)
}

/// Whether `lat` holds, among the nodes ending at `e`, the node of the
/// word of raw id `w` from `c` to `e`.
pub open spec fn spec_word_in(lat: Lattice, dict: &JapaneseDictionary, c: int, e: int, w: u32) -> bool {
    exists|kk: int| 0 <= kk < lat.spec_count(e) && spec_word_node(#[trigger] lat.spec_node(e, kk), dict, c, e, w)
}

/// Whether `lat` holds, among the nodes ending at `c + 1`, the unknown word
/// `dict` gives for the character at `c`.
pub open spec fn spec_oov_in(lat: Lattice, dict: &JapaneseDictionary, c: int) -> bool {
    exists|kk: int|
        0 <= kk < lat.spec_count(c + 1) && spec_is_oov_node(#[trigger] lat.spec_node(c + 1, kk), dict.spec_oov(), c)
}

/// Whether no word of `es` starting at `c` ends at a later character
/// boundary of `text`.
pub open spec fn spec_no_word(text: Seq<char>, c: int, es: Seq<(u32, int)>) -> bool {
    forall|j: int, e: int| 0 <= j < es.len() ==> !#[trigger] spec_valid_end(text, c, e, es[j].1)
}

/// Whether boundary `c` of `lat` is complete: when a path reaches it, the
/// lattice holds every word of `dict` that starts there and ends at a later
/// character boundary, and the unknown word of the character there when no
/// such word exists.
pub open spec fn spec_complete_at(dict: &JapaneseDictionary, text: Seq<char>, lat: Lattice, c: int) -> bool {
    lat.spec_count(c) > 0 ==> match spec_lookup_at(dict, text, c) {
        None => true,
        Some(es) => {
            &&& forall|j: int, e: int|
                0 <= j < es.len() && #[trigger] spec_valid_end(text, c, e, es[j].1) ==> spec_word_in(
                    lat,
                    dict,
                    c,
                    e,
                    es[j].0,
                )
            &&& spec_no_word(text, c, es) ==> spec_oov_in(lat, dict, c)
        },
    }
}

/// Whether the lattice `lat` of `text` holds every dictionary and unknown
/// word node that building it over `dict` inserts.
pub open spec fn spec_lattice_complete(dict: &JapaneseDictionary, text: Seq<char>, lat: Lattice) -> bool {
    forall|c: int| 0 <= c < text.len() ==> #[trigger] spec_complete_at(dict, text, lat, c)
}

/// Whether `lat2` holds every node of `lat1`, at the same places.
pub open spec fn spec_grows(lat1: Lattice, lat2: Lattice) -> bool {
    &&& lat2.spec_size() == lat1.spec_size()
    &&& forall|b: int| 0 <= b < lat1.spec_size() ==> #[trigger] lat2.spec_count(b) >= lat1.spec_count(b)
    &&& forall|b: int, k: int|
        0 <= b < lat1.spec_size() && 0 <= k < lat1.spec_count(b) ==> #[trigger] lat2.spec_node(b, k)
            == lat1.spec_node(b, k)
}

/// A complete boundary stays complete as the lattice grows, as long as the
/// nodes ending there stay as they are.
proof fn lemma_complete_grows(dict: &JapaneseDictionary, text: Seq<char>, lat1: Lattice, lat2: Lattice, c: int)
    requires
        spec_complete_at(dict, text, lat1, c),
        spec_grows(lat1, lat2),
        0 <= c < text.len(),
        lat1.spec_size() == text.len() + 1,
        lat2.spec_count(c) == lat1.spec_count(c),
    ensures
        spec_complete_at(dict, text, lat2, c),
{
    if lat2.spec_count(c) > 0 {
        match spec_lookup_at(dict, text, c) {
            None => {},
            Some(es) => {
                assert forall|j: int, e: int|
                    0 <= j < es.len() && #[trigger] spec_valid_end(text, c, e, es[j].1) implies spec_word_in(
                    lat2,
                    dict,
                    c,
                    e,
                    es[j].0,
                ) by {
                    assert(spec_word_in(lat1, dict, c, e, es[j].0));
                    let kk = choose|kk: int|
                        0 <= kk < lat1.spec_count(e) && spec_word_node(#[trigger] lat1.spec_node(e, kk), dict, c, e, es[j].0);
                    assert(lat2.spec_node(e, kk) == lat1.spec_node(e, kk));
                    assert(lat2.spec_count(e) >= lat1.spec_count(e));
                }
                if spec_no_word(text, c, es) {
                    assert(spec_oov_in(lat1, dict, c));
                    let kk = choose|kk: int|
                        0 <= kk < lat1.spec_count(c + 1) && spec_is_oov_node(
                            #[trigger] lat1.spec_node(c + 1, kk),
                            dict.spec_oov(),
                            c,
                        );
                    assert(lat2.spec_node(c + 1, kk) == lat1.spec_node(c + 1, kk));
                    assert(lat2.spec_count(c + 1) >= lat1.spec_count(c + 1));
                }
            },
        }
    }
}

/// In a lattice that holds every node building inserts, a path leads from
/// any boundary holding a node to the end of the text, as long as the
/// lexicons can be read at every boundary holding a node.
proof fn lemma_reach_end(dict: &JapaneseDictionary, text: Seq<char>, lat: Lattice, c: int)
    requires
        lat.spec_size() == text.len() + 1,
        0 <= c <= text.len(),
        lat.spec_count(c) > 0,
        spec_lattice_complete(dict, text, lat),
        forall|c2: int|
            0 <= c2 < text.len() && #[trigger] lat.spec_count(c2) > 0 ==> spec_lookup_at(dict, text, c2) is Some,
    ensures
        lat.spec_count(text.len() as int) > 0,
    decreases text.len() - c,
{
    if c < text.len() {
        assert(spec_complete_at(dict, text, lat, c));
        let es = spec_lookup_at(dict, text, c)->0;
        if spec_no_word(text, c, es) {
            assert(spec_oov_in(lat, dict, c));
            lemma_reach_end(dict, text, lat, c + 1);
        } else {
            let (j, e) = choose|j: int, e: int| 0 <= j < es.len() && #[trigger] spec_valid_end(text, c, e, es[j].1);
            assert(spec_word_in(lat, dict, c, e, es[j].0));
            lemma_reach_end(dict, text, lat, e);
        }
    }
}

/// Inserts into `lattice` the node of each word of `entries` (the words of
/// the lexicons of `dict` that start at `ch_off`) that ends at a later
/// character boundary; returns the lengths of the words inserted. An error
/// when such a word names no entry or has connection ids outside the
/// matrix, or a boundary is full.
fn insert_words(
    dict: &JapaneseDictionary,
    lattice: &mut Lattice,
    oov: &mut Vec<Node>,
    input: &InputBuffer,
    entries: &Vec<LexiconEntry>,
    ch_off: usize,
    n: usize,
) -> (r: SudachiResult<CreatedWords>)
    requires
        dict.wf(),
        input.wf(),
        n == input.spec_text().len(),
        1 <= n <= MAX_LATTICE_LENGTH,
        ch_off < n,
        old(lattice).wf(),
        old(lattice).consistent(dict.spec_grammar().spec_connection()),
        old(lattice).spec_size() == n + 1,
        old(lattice).spec_frontier() <= ch_off,
        Some(spec_lexicon_entries(entries@)) == spec_lookup_at(dict, input.spec_text(), ch_off as int),
        old(lattice).spec_reach_finite(),
        old(lattice).spec_count(ch_off as int) > 0,
        spec_lattice_sound(dict, input.spec_text(), *old(lattice)),
        forall|b: int|
            0 <= b < n + 1 ==> #[trigger] old(lattice).spec_count(b) <= 1 + spec_lookup_total(
                dict,
                input.spec_text(),
                ch_off as int,
            ),
    ensures
        final(lattice).spec_reach_finite(),
        spec_lattice_sound(dict, input.spec_text(), *final(lattice)),
        forall|b: int|
            0 <= b < n + 1 ==> #[trigger] final(lattice).spec_count(b) <= 1 + spec_lookup_total(
                dict,
                input.spec_text(),
                ch_off as int,
            ) + entries@.len(),
        final(lattice).wf(),
        final(lattice).consistent(dict.spec_grammar().spec_connection()),
        final(lattice).spec_size() == n + 1,
        final(lattice).spec_frontier() <= ch_off,
        final(lattice).spec_eos() == old(lattice).spec_eos(),
        spec_grows(*old(lattice), *final(lattice)),
        forall|b: int| 0 <= b <= ch_off ==> #[trigger] final(lattice).spec_count(b) == old(lattice).spec_count(b),
        r matches Ok(c) ==> {
            let es = spec_lexicon_entries(entries@);
            &&& (c@ == 0 <==> spec_no_word(input.spec_text(), ch_off as int, es))
            &&& forall|j: int, e: int|
                0 <= j < es.len() && #[trigger] spec_valid_end(input.spec_text(), ch_off as int, e, es[j].1)
                    ==> spec_word_in(*final(lattice), dict, ch_off as int, e, es[j].0)
        },
        r is Err ==> (exists|j: int| #[trigger] spec_bad_entry_at(dict, input.spec_text(), ch_off as int, j))
            || spec_crowded(dict, input.spec_text()),
{
    proof {
        use_type_invariant(dict);
    }
    let conn = dict.grammar().conn_matrix();
    let lexicon = dict.lexicon();
    let ghost text = input.spec_text();
    let ghost es = spec_lexicon_entries(entries@);
    let ghost lat0 = *lattice;
    let mut created = CreatedWords::empty();
    let m = entries.len();
    let mut k: usize = 0;
    while k < m
        invariant
            dict.wf(),
            *conn == dict.spec_grammar().spec_connection(),
            *lexicon == dict.spec_lexicon(),
            input.wf(),
            text == input.spec_text(),
            n == text.len(),
            1 <= n <= MAX_LATTICE_LENGTH,
            ch_off < n,
            lat0 == *old(lattice),
            lattice.wf(),
            lattice.consistent(*conn),
            lattice.spec_size() == n + 1,
            lattice.spec_frontier() <= ch_off,
            lattice.spec_eos() == lat0.spec_eos(),
            spec_grows(lat0, *lattice),
            lattice.spec_reach_finite(),
            lat0.spec_count(ch_off as int) > 0,
            spec_lattice_sound(dict, text, *lattice),
            forall|b: int|
                0 <= b < n + 1 ==> #[trigger] lattice.spec_count(b) <= 1 + spec_lookup_total(
                    dict,
                    text,
                    ch_off as int,
                ) + k,
            forall|b: int| 0 <= b <= ch_off ==> #[trigger] lattice.spec_count(b) == lat0.spec_count(b),
            k <= m,
            m == entries@.len(),
            es == spec_lexicon_entries(entries@),
            Some(es) == spec_lookup_at(dict, text, ch_off as int),
            created@ == 0 <==> forall|j: int, e: int| 0 <= j < k ==> !#[trigger] spec_valid_end(text, ch_off as int, e, es[j].1),
            forall|j: int, e: int|
                0 <= j < k && #[trigger] spec_valid_end(text, ch_off as int, e, es[j].1) ==> spec_word_in(
                    *lattice,
                    dict,
                    ch_off as int,
                    e,
                    es[j].0,
                ),
        decreases m - k,
    {
        let e = entries[k];
        k = k + 1;
        proof {
            assert(es[k - 1] == (e.word_id@, e.end as int));
        }
        let end_c = match input.ch_idx(e.end) {
            Some(c) => c,
            None => {
                proof {
                    assert forall|e2: int| !#[trigger] spec_valid_end(text, ch_off as int, e2, es[k - 1].1) by {
                        if 0 <= e2 <= text.len() {
                            assert(spec_byte_offset(text, e2) != e.end);
                        }
                    }
                }
                continue;
            },
        };
        if end_c <= ch_off {
            proof {
                assert forall|e2: int| !#[trigger] spec_valid_end(text, ch_off as int, e2, es[k - 1].1) by {
                    if spec_valid_end(text, ch_off as int, e2, es[k - 1].1) {
                        crate::input_text::lemma_offsets_increase(text, end_c as int, e2);
                    }
                }
            }
            continue;
        }
        let (left_id, right_id, cost) = match lexicon.get_word_param_checked(e.word_id) {
            Ok(t) => t,
            Err(err) => {
                proof {
                    assert(spec_bad_entry_at(dict, text, ch_off as int, k - 1));
                }
                return Err(err);
            },
        };
        if left_id < 0 || right_id < 0 || left_id as usize >= conn.num_right() || right_id as usize
            >= conn.num_left() {
            proof {
                assert(spec_bad_entry_at(dict, text, ch_off as int, k - 1));
            }
            return Err(SudachiError::InvalidDictionaryGrammar);
        }
        if lattice.count_at(end_c) >= MAX_NODES_PER_BOUNDARY {
            proof {
                assert(lattice.spec_count(end_c as int) <= 1 + spec_lookup_total(dict, text, ch_off as int) + k);
                assert(spec_lookup_len(dict, text, ch_off as int) == m);
                assert(spec_lookup_total(dict, text, ch_off + 1) == spec_lookup_total(dict, text, ch_off as int) + m + 1);
                lemma_lookup_total_grows(dict, text, ch_off + 1, n as int);
            }
            return Err(SudachiError::InvalidRange(ch_off, end_c));
        }
        let node = Node::new(ch_off as u16, end_c as u16, left_id as u16, right_id as u16, cost, e.word_id);
        let ghost created0 = created@;
        created = created.add_word((end_c - ch_off) as i64);
        proof {
            let sh = spec_shift((end_c - ch_off) as i64);
            assert(created0 | (1u64 << sh) != 0) by (bit_vector)
                requires
                    sh < 64,
            ;
        }
        oov.push(node);
        let ghost before = *lattice;
        let ghost kk = lattice.spec_count(end_c as int);
        lattice.insert(node, conn);
        proof {
            assert(spec_word_node(lattice.spec_node(end_c as int, kk), dict, ch_off as int, end_c as int, es[k - 1].0));
            assert(spec_word_in(*lattice, dict, ch_off as int, end_c as int, es[k - 1].0));
            assert forall|b: int| 0 <= b < lat0.spec_size() implies #[trigger] lattice.spec_count(b) >= lat0.spec_count(b) by {
                assert(before.spec_count(b) >= lat0.spec_count(b));
            }
            assert forall|b: int, kb: int|
                0 <= b < lat0.spec_size() && 0 <= kb < lat0.spec_count(b) implies #[trigger] lattice.spec_node(b, kb)
                    == lat0.spec_node(b, kb) by {
                assert(before.spec_node(b, kb) == lat0.spec_node(b, kb));
            }
            assert forall|j: int, e2: int|
                0 <= j < k && #[trigger] spec_valid_end(text, ch_off as int, e2, es[j].1) implies spec_word_in(
                *lattice,
                dict,
                ch_off as int,
                e2,
                es[j].0,
            ) by {
                if j == k - 1 {
                    if e2 != end_c {
                        if e2 < end_c {
                            crate::input_text::lemma_offsets_increase(text, e2, end_c as int);
                        } else {
                            crate::input_text::lemma_offsets_increase(text, end_c as int, e2);
                        }
                    }
                } else {
                    assert(spec_word_in(before, dict, ch_off as int, e2, es[j].0));
                    let w = choose|w: int|
                        0 <= w < before.spec_count(e2) && spec_word_node(#[trigger] before.spec_node(e2, w), dict, ch_off as int, e2, es[j].0);
                    assert(lattice.spec_node(e2, w) == before.spec_node(e2, w));
                }
            }
            assert(spec_valid_end(text, ch_off as int, end_c as int, es[k - 1].1));
            assert(spec_valid_word(dict, text, ch_off as int, k - 1, end_c as int));
            assert(spec_word_at(dict, text, ch_off as int, k - 1) == es[k - 1].0);
            assert forall|b: int, kb: int|
                1 <= b < lattice.spec_size() && 0 <= kb < lattice.spec_count(b) implies spec_known_node(
                dict,
                text,
                #[trigger] lattice.spec_node(b, kb),
                b,
            ) by {
                if b == end_c && kb == kk {
                    assert(spec_valid_word(dict, text, ch_off as int, k - 1, b));
                } else {
                    before.lemma_count_nonneg(b);
                    assert(lattice.spec_node(b, kb) == before.spec_node(b, kb));
                    assert(spec_known_node(dict, text, before.spec_node(b, kb), b));
                }
            }
        }
    }
    Ok(created)
}

/// Whether `node` is the unknown word that `oov` gives for the character
/// at `ch_off`.
pub open spec fn spec_is_oov_node(node: Node, oov: SimpleOovPlugin, ch_off: int) -> bool {
    &&& node.spec_begin() == ch_off
    &&& node.spec_end() == ch_off + 1
    &&& node.spec_left_id() == oov.left_id
    &&& node.spec_right_id() == oov.right_id
    &&& node.spec_cost() == oov.cost
    &&& node.spec_word_id()@ == spec_raw_of(OOV_DIC as int, oov.pos_id as int)
}

/// Inserts into `lattice` the unknown words the provider of `dict` gives at
/// `ch_off`, keeping them in `oov` too.
fn provide_oovs(
    dict: &JapaneseDictionary,
    lattice: &mut Lattice,
    oov: &mut Vec<Node>,
    ch_off: usize,
    n: usize,
    other: CreatedWords,
) -> (r: SudachiResult<CreatedWords>)
    requires
        ch_off < n <= MAX_LATTICE_LENGTH,
        old(lattice).wf(),
        old(lattice).consistent(dict.spec_grammar().spec_connection()),
        old(lattice).spec_size() == n + 1,
        old(lattice).spec_frontier() <= ch_off,
    ensures
        final(lattice).wf(),
        final(lattice).consistent(dict.spec_grammar().spec_connection()),
        final(lattice).spec_size() == old(lattice).spec_size(),
        final(lattice).spec_frontier() <= ch_off,
        r is Ok <==> (other@ != 0 || old(lattice).spec_count(ch_off + 1) < MAX_NODES_PER_BOUNDARY),
        old(lattice).spec_reach_finite() && old(lattice).spec_count(ch_off as int) > 0
            ==> final(lattice).spec_reach_finite(),
        r is Err ==> *final(lattice) == *old(lattice),
        r matches Ok(c) ==> final(lattice).spec_eos() == old(lattice).spec_eos(),
        r matches Ok(c) ==> other@ != 0 ==> c == other && *final(lattice) == *old(lattice) && final(oov)@
            == old(oov)@,
        r matches Ok(c) ==> other@ == 0 ==> {
            let e = ch_off + 1;
            let k = old(lattice).spec_count(e);
            let node = final(lattice).spec_node(e, k);
            &&& c@ == other@ | spec_single(1)
            &&& spec_is_oov_node(node, dict.spec_oov(), ch_off as int)
            &&& final(lattice).spec_count(e) == k + 1
            &&& final(oov)@ == old(oov)@.push(node)
            &&& forall|b: int|
                0 <= b < old(lattice).spec_size() && b != e ==> #[trigger] final(lattice).spec_count(b)
                    == old(lattice).spec_count(b)
            &&& forall|b: int, j: int|
                0 <= b < old(lattice).spec_size() && 0 <= j < old(lattice).spec_count(b)
                    ==> #[trigger] final(lattice).spec_node(b, j) == old(lattice).spec_node(b, j)
        },
{
    proof {
        use_type_invariant(dict);
    }
    let conn = dict.grammar().conn_matrix();
    let provider = dict.oov_provider();
    let start = oov.len();
    let provided = provider.provide_oov(ch_off, other, oov)?;
    let mut created = other;
    if provided == 1 {
        let node = oov[start];
        proof {
            assert(node == oov@.last());
        }
        if lattice.count_at(ch_off + 1) >= MAX_NODES_PER_BOUNDARY {
            return Err(SudachiError::InvalidRange(ch_off, ch_off + 1));
        }
        created = created.add_word(1);
        lattice.insert(node, conn);
    }
    Ok(created)
}

impl<'a> StatefulTokenizer<'a> {
    /// The input is well formed and the nodes of the result lie inside it.
    pub closed spec fn spec_result_ok(&self) -> bool {
        &&& self.input.wf()
        &&& (self.top_path matches Some(p) ==> spec_all_fit(p@, self.input.spec_text()))
    }

    /// The dictionary.
    pub closed spec fn spec_dict(&self) -> &'a JapaneseDictionary {
        self.dictionary
    }

    /// Text written for the next analysis.
    pub closed spec fn spec_text(&self) -> Seq<char> {
        self.text@
    }

    /// The splitting mode.
    pub closed spec fn spec_mode(&self) -> Mode {
        self.mode
    }

    /// Fields of word information read for the result.
    pub closed spec fn spec_subset(&self) -> InfoSubset {
        self.subset
    }

    /// Whether lattices and paths are to be dumped.
    pub closed spec fn spec_debug(&self) -> bool {
        self.debug
    }

    /// The result of the last analysis, if any.
    pub closed spec fn spec_top_path(&self) -> Option<Seq<ResultNode>> {
        match self.top_path {
            Some(p) => Some(p@),
            None => None,
        }
    }

    /// The lattice of the last analysis.
    pub closed spec fn spec_lattice(&self) -> Lattice {
        self.lattice
    }

    /// The input of the last analysis.
    pub closed spec fn spec_input(&self) -> InputBuffer {
        self.input
    }

    /// A tokenizer over `dic` splitting in `mode`.
    pub fn new(dic: &'a JapaneseDictionary, mode: Mode) -> (r: StatefulTokenizer<'a>)
        ensures
            r.spec_dict() == dic,
            r.spec_mode() == mode,
            !r.spec_debug(),
            r.spec_subset() == InfoSubset::spec_all(),
            r.spec_text() == Seq::<char>::empty(),
            r.spec_result_ok(),
    {
        Self::create(dic, false, mode)
    }

    /// A tokenizer over `dic` splitting in `mode`, dumping its work when
    /// `debug` is set.
    pub fn create(dic: &'a JapaneseDictionary, debug: bool, mode: Mode) -> (r: StatefulTokenizer<
        'a,
    >)
        ensures
            r.spec_dict() == dic,
            r.spec_mode() == mode,
            r.spec_debug() == debug,
            r.spec_subset() == InfoSubset::spec_all(),
            r.spec_text() == Seq::<char>::empty(),
            r.spec_top_path() == Some(Seq::<ResultNode>::empty()),
            r.spec_result_ok(),
    {
        let r = StatefulTokenizer {
            dictionary: dic,
            text: String::new(),
            input: InputBuffer::new(),
            debug,
            mode,
            oov: Vec::new(),
            lattice: Lattice::default(),
            top_path_ids: Vec::new(),
            top_path: Some(Vec::new()),
            subset: InfoSubset::all(),
        };
        proof {
            assert(r.spec_top_path()->0 =~= Seq::<ResultNode>::empty());
        }
        r
    }

    /// The dictionary.
    pub fn dict_clone(&self) -> (r: &'a JapaneseDictionary)
        ensures
            r == self.spec_dict(),
    {
        self.dictionary
    }

    /// The dictionary.
    pub fn dict(&self) -> (r: &'a JapaneseDictionary)
        ensures
            r == self.spec_dict(),
    {
        self.dictionary
    }

    /// Sets the debug flag; returns the previous one.
    pub fn set_debug(&mut self, debug: bool) -> (r: bool)
        ensures
            r == old(self).spec_debug(),
            final(self).spec_debug() == debug,
            final(self).spec_dict() == old(self).spec_dict(),
            final(self).spec_mode() == old(self).spec_mode(),
            final(self).spec_subset() == old(self).spec_subset(),
            final(self).spec_text() == old(self).spec_text(),
            final(self).spec_result_ok() == old(self).spec_result_ok(),
    {
        let prev = self.debug;
        self.debug = debug;
        prev
    }

    /// Sets the splitting mode, adding the split it needs to the fields
    /// read; returns the previous mode.
    pub fn set_mode(&mut self, mode: Mode) -> (r: Mode)
        ensures
            r == old(self).spec_mode(),
            final(self).spec_mode() == mode,
            final(self).spec_subset().0 == old(self).spec_subset().0 | spec_mode_subset(mode),
            mode == Mode::A ==> final(self).spec_subset().has(SPLIT_A),
            mode == Mode::B ==> final(self).spec_subset().has(SPLIT_B),
            final(self).spec_dict() == old(self).spec_dict(),
            final(self).spec_debug() == old(self).spec_debug(),
            final(self).spec_text() == old(self).spec_text(),
            final(self).spec_result_ok() == old(self).spec_result_ok(),
    {
        self.subset = self.subset.union(mode_subset(mode));
        proof {
            lemma_mode_subset_reads_its_split(mode, old(self).spec_subset().0);
        }
        let prev = self.mode;
        self.mode = mode;
        prev
    }

    /// Sets the fields of word information to read, always with those the
    /// mode needs; returns the previous set.
    pub fn set_subset(&mut self, subset: InfoSubset) -> (r: InfoSubset)
        ensures
            r == old(self).spec_subset(),
            final(self).spec_subset().0 == InfoSubset(
                subset.0 | spec_mode_subset(old(self).spec_mode()),
            ).spec_normalized().0 | spec_mode_subset(old(self).spec_mode()),
            old(self).spec_mode() == Mode::A ==> final(self).spec_subset().has(SPLIT_A),
            old(self).spec_mode() == Mode::B ==> final(self).spec_subset().has(SPLIT_B),
            final(self).spec_mode() == old(self).spec_mode(),
            final(self).spec_dict() == old(self).spec_dict(),
            final(self).spec_debug() == old(self).spec_debug(),
            final(self).spec_text() == old(self).spec_text(),
            final(self).spec_result_ok() == old(self).spec_result_ok(),
    {
        let ms = mode_subset(self.mode);
        let new_subset = subset.union(ms).normalize();
        let prev = self.subset;
        self.subset = new_subset.union(ms);
        proof {
            lemma_mode_subset_reads_its_split(self.mode, new_subset.0);
        }
        prev
    }

    /// Clears the previous result and the text; returns the text to write
    /// the next input into.
    pub fn reset(&mut self) -> (r: &mut String)
        ensures
            (*r)@ == Seq::<char>::empty(),
            final(self).spec_text() == (*final(r))@,
            final(self).spec_dict() == old(self).spec_dict(),
            final(self).spec_mode() == old(self).spec_mode(),
            final(self).spec_subset() == old(self).spec_subset(),
            final(self).spec_debug() == old(self).spec_debug(),
            old(self).spec_result_ok() ==> final(self).spec_result_ok(),
    {
        self.top_path = Some(Vec::new());
        self.oov = Vec::new();
        self.text = String::new();
        &mut self.text
    }

    /// Writes the text of the next input.
    pub fn set_text(&mut self, text: &str)
        ensures
            final(self).spec_text() == text@,
            final(self).spec_dict() == old(self).spec_dict(),
            final(self).spec_mode() == old(self).spec_mode(),
            final(self).spec_subset() == old(self).spec_subset(),
            final(self).spec_debug() == old(self).spec_debug(),
            final(self).spec_result_ok() == old(self).spec_result_ok(),
    {
        self.text = text.to_owned();
    }

    /// Analyzes the text: builds the lattice of dictionary and unknown
    /// words, finds the cheapest path and splits it in the current mode. An
    /// error when the text is too long, the dictionary data is malformed or
    /// no path crosses the text.
    pub fn do_tokenize(&mut self) -> (r: SudachiResult<()>)
        ensures
            final(self).spec_dict() == old(self).spec_dict(),
            final(self).spec_mode() == old(self).spec_mode(),
            final(self).spec_subset() == old(self).spec_subset(),
            final(self).spec_debug() == old(self).spec_debug(),
            final(self).spec_text() == old(self).spec_text(),
            r is Ok ==> final(self).spec_input().spec_text() == old(self).spec_text(),
            r is Ok ==> final(self).spec_top_path() is Some,
            r matches Err(e) ==> final(self).spec_top_path() is None,
            final(self).spec_result_ok(),
            old(self).spec_text().len() > MAX_LATTICE_LENGTH ==> r is Err,
            old(self).spec_text().len() == 0 ==> r is Ok && final(self).spec_top_path() == Some(
                Seq::<ResultNode>::empty(),
            ),
            r is Ok ==> spec_tiles(final(self).spec_top_path()->0, old(self).spec_text().len() as int),
            r is Err ==> old(self).spec_text().len() > MAX_LATTICE_LENGTH || spec_analysis_failed(
                old(self).spec_dict(),
                old(self).spec_text(),
                old(self).spec_subset(),
                old(self).spec_mode(),
            ),
            r is Ok && old(self).spec_text().len() > 0 ==> {
                let lat = final(self).spec_lattice();
                let ids = lat.spec_top_path();
                let p = final(self).spec_top_path()->0;
                &&& lat.wf()
                &&& lat.consistent(old(self).spec_dict().spec_grammar().spec_connection())
                &&& lat.spec_connected_end()
                &&& lat.spec_eos_best(old(self).spec_dict().spec_grammar().spec_connection())
                &&& lat.spec_size() == old(self).spec_text().len() + 1
                &&& spec_lattice_complete(old(self).spec_dict(), old(self).spec_text(), lat)
                &&& old(self).spec_mode() == Mode::C ==> p.len() == ids.len() && forall|j: int|
                    0 <= j < ids.len() ==> spec_result_at(
                        #[trigger] p[j],
                        lat,
                        old(self).spec_text(),
                        &old(self).spec_dict().spec_lexicon(),
                        old(self).spec_subset(),
                        ids[ids.len() - 1 - j],
                    )
            },
    {
        proof {
            use_type_invariant(self.dictionary);
        }
        self.top_path = None;
        let (bytes, chars) = str_sizes(self.text.as_str());
        if chars > MAX_LATTICE_LENGTH {
            self.input = InputBuffer::new();
            return Err(SudachiError::InvalidRange(0, bytes));
        }
        self.input = InputBuffer::from_text(self.text.as_str());
        if self.input.current_chars().len() == 0 {
            self.top_path = Some(Vec::new());
            return Ok(());
        }
        self.build_lattice()?;
        proof {
            self.lattice.lemma_top_path_tiles(self.dictionary.spec_grammar().spec_connection());
        }
        let path = match self.resolve_best_path() {
            Ok(p) => p,
            Err(e) => {
                proof {
                    lemma_resolve_fail_cause(self.dictionary, self.input.spec_text(), self.lattice, self.subset);
                }
                return Err(e);
            },
        };
        let ghost resolved = path@;
        let path = match split_path(self.dictionary, path, self.mode, self.subset, &self.input) {
            Ok(p) => p,
            Err(e) => {
                proof {
                    let lex = &self.dictionary.spec_lexicon();
                    let text = self.input.spec_text();
                    let ids = self.lattice.spec_top_path();
                    let i = choose|i: int|
                        0 <= i < resolved.len() && !spec_node_split_ok(
                            #[trigger] resolved[i],
                            self.mode,
                            lex,
                            self.subset,
                            text,
                        );
                    let j = ids.len() - 1 - i;
                    assert(spec_result_at(resolved[i], self.lattice, text, lex, self.subset, ids[ids.len() - 1 - i]));
                    assert(spec_result_at(resolved[i], self.lattice, text, lex, self.subset, ids[j]));
                    assert(spec_split_fails(self.lattice, text, lex, self.subset, self.mode));
                    lemma_split_fail_cause(self.dictionary, text, self.lattice, self.subset, self.mode);
                }
                return Err(e);
            },
        };
        self.top_path = Some(path);
        Ok(())
    }

    /// Builds the lattice of the input: at every boundary reached from the
    /// start, the dictionary words starting there, then an unknown word when
    /// none did; finally the end of the sentence.
    fn build_lattice(&mut self) -> (r: SudachiResult<()>)
        requires
            old(self).dictionary.wf(),
            old(self).input.wf(),
            1 <= old(self).input.spec_text().len() <= MAX_LATTICE_LENGTH,
        ensures
            final(self).dictionary == old(self).dictionary,
            final(self).input == old(self).input,
            final(self).mode == old(self).mode,
            final(self).subset == old(self).subset,
            final(self).debug == old(self).debug,
            final(self).text == old(self).text,
            final(self).top_path == old(self).top_path,
            r is Ok ==> final(self).lattice.wf() && final(self).lattice.spec_size()
                == old(self).input.spec_text().len() + 1 && final(self).lattice.spec_eos() is Some,
            r is Ok ==> final(self).lattice.consistent(old(self).dictionary.spec_grammar().spec_connection())
                && final(self).lattice.spec_connected_end(),
            r is Ok ==> final(self).lattice.spec_eos_best(old(self).dictionary.spec_grammar().spec_connection()),
            r is Ok ==> spec_lattice_complete(old(self).dictionary, old(self).input.spec_text(), final(self).lattice),
            r is Ok ==> spec_lattice_sound(old(self).dictionary, old(self).input.spec_text(), final(self).lattice),
            r is Err ==> final(self).lattice.spec_size() == old(self).input.spec_text().len() + 1
                && spec_build_failed(old(self).dictionary, old(self).input.spec_text()),
    {
        let dict = self.dictionary;
        let conn = dict.grammar().conn_matrix();
        let lexicon = dict.lexicon();
        let oov = dict.oov_provider();
        let n = self.input.current_chars().len();
        self.lattice.reset(n);
        proof {
            assert(self.lattice.spec_totals(0)[0] != i32::MAX);
            assert forall|b: int|
                0 <= b < self.lattice.spec_size() && self.lattice.spec_count(b) > 0 implies exists|k: int|
                    0 <= k < self.lattice.spec_count(b) && #[trigger] self.lattice.spec_totals(b)[k] != i32::MAX by {
                if b > 0 {
                    assert(self.lattice.spec_count(b) == 0);
                }
            }
        }
        proof {
            assert forall|b: int, kb: int|
                1 <= b < self.lattice.spec_size() && 0 <= kb < self.lattice.spec_count(b) implies spec_known_node(
                dict,
                self.input.spec_text(),
                #[trigger] self.lattice.spec_node(b, kb),
                b,
            ) by {
                assert(self.lattice.spec_count(b) == 0);
            }
        }
        let input_bytes = self.input.current().as_bytes();
        let mut ch_off: usize = 0;
        while ch_off < n
            invariant
                dict == self.dictionary,
                dict.wf(),
                *conn == dict.spec_grammar().spec_connection(),
                *lexicon == dict.spec_lexicon(),
                *oov == dict.spec_oov(),
                self.input.wf(),
                n == self.input.spec_text().len(),
                1 <= n <= MAX_LATTICE_LENGTH,
                input_bytes@ == encode_utf8(self.input.spec_text()),
                self.lattice.wf(),
                self.lattice.consistent(*conn),
                self.lattice.spec_size() == n + 1,
                self.lattice.spec_frontier() <= ch_off,
                ch_off <= n,
                self.input == old(self).input,
                self.mode == old(self).mode,
                self.subset == old(self).subset,
                self.debug == old(self).debug,
                self.text == old(self).text,
                self.top_path == old(self).top_path,
                self.dictionary == old(self).dictionary,
                forall|c: int|
                    0 <= c < ch_off ==> #[trigger] spec_complete_at(dict, self.input.spec_text(), self.lattice, c),
                self.lattice.spec_reach_finite(),
                self.lattice.spec_count(0) == 1,
                spec_lattice_sound(dict, self.input.spec_text(), self.lattice),
                forall|b: int|
                    0 <= b < n + 1 ==> #[trigger] self.lattice.spec_count(b) <= 1 + spec_lookup_total(
                        dict,
                        self.input.spec_text(),
                        ch_off as int,
                    ),
                forall|c: int|
                    0 <= c < ch_off && #[trigger] self.lattice.spec_count(c) > 0 ==> spec_lookup_at(
                        dict,
                        self.input.spec_text(),
                        c,
                    ) is Some,
            decreases n - ch_off,
        {
            if !self.lattice.has_previous_node(ch_off) {
                proof {
                    lemma_lookup_total_grows(dict, self.input.spec_text(), ch_off as int, ch_off + 1);
                }
                ch_off = ch_off + 1;
                continue;
            }
            let byte_off = self.input.to_curr_byte_idx(ch_off);
            self.oov.clear();
            let mut created = CreatedWords::empty();
            let entries = match lexicon.lookup(input_bytes, byte_off) {
                Ok(v) => v,
                Err(err) => {
                    proof {
                        assert(spec_lookup_at(dict, self.input.spec_text(), ch_off as int) is None);
                    }
                    return Err(err);
                },
            };
            let ghost lat_before = self.lattice;
            let created = match insert_words(
                dict,
                &mut self.lattice,
                &mut self.oov,
                &self.input,
                &entries,
                ch_off,
                n,
            ) {
                Ok(c) => c,
                Err(err) => {
                    return Err(err);
                },
            };
            let ghost lat_words = self.lattice;
            let ghost created_in = created;
            let mut created = match provide_oovs(dict, &mut self.lattice, &mut self.oov, ch_off, n, created) {
                Ok(c) => c,
                Err(err) => {
                    proof {
                        let text = self.input.spec_text();
                        assert(self.lattice.spec_count(ch_off + 1) >= MAX_NODES_PER_BOUNDARY);
                        assert(spec_lookup_len(dict, text, ch_off as int) == entries@.len());
                        assert(spec_lookup_total(dict, text, ch_off + 1) == spec_lookup_total(dict, text, ch_off as int)
                            + entries@.len() + 1);
                        lemma_lookup_total_grows(dict, text, ch_off + 1, n as int);
                    }
                    return Err(err);
                },
            };
            proof {
                let text = self.input.spec_text();
                assert(spec_lookup_len(dict, text, ch_off as int) == entries@.len());
                assert(spec_lookup_total(dict, text, ch_off + 1) == spec_lookup_total(dict, text, ch_off as int)
                    + entries@.len() + 1);
                let es = spec_lexicon_entries(entries@);
                let lat = self.lattice;
                assert(spec_grows(lat_words, lat)) by {
                    assert forall|b: int| 0 <= b < lat_words.spec_size() implies #[trigger] lat.spec_count(b)
                        >= lat_words.spec_count(b) by {}
                }
                assert(spec_grows(lat_before, lat)) by {
                    assert forall|b: int| 0 <= b < lat_before.spec_size() implies #[trigger] lat.spec_count(b)
                        >= lat_before.spec_count(b) by {
                        assert(lat_words.spec_count(b) >= lat_before.spec_count(b));
                    }
                    assert forall|b: int, kb: int|
                        0 <= b < lat_before.spec_size() && 0 <= kb < lat_before.spec_count(b) implies #[trigger] lat.spec_node(
                        b,
                        kb,
                    ) == lat_before.spec_node(b, kb) by {
                        assert(lat_words.spec_node(b, kb) == lat_before.spec_node(b, kb));
                        assert(lat_words.spec_count(b) >= lat_before.spec_count(b));
                    }
                }
                assert(spec_complete_at(dict, text, lat, ch_off as int)) by {
                    assert(lat.spec_count(ch_off as int) == lat_before.spec_count(ch_off as int));
                    assert forall|j: int, e: int|
                        0 <= j < es.len() && #[trigger] spec_valid_end(text, ch_off as int, e, es[j].1) implies spec_word_in(
                        lat,
                        dict,
                        ch_off as int,
                        e,
                        es[j].0,
                    ) by {
                        assert(spec_word_in(lat_words, dict, ch_off as int, e, es[j].0));
                        let w = choose|w: int|
                            0 <= w < lat_words.spec_count(e) && spec_word_node(
                                #[trigger] lat_words.spec_node(e, w),
                                dict,
                                ch_off as int,
                                e,
                                es[j].0,
                            );
                        assert(lat.spec_node(e, w) == lat_words.spec_node(e, w));
                        assert(lat.spec_count(e) >= lat_words.spec_count(e));
                    }
                    assert(spec_lookup_at(dict, text, ch_off as int) == Some(es));
                    assert(lat.spec_count(ch_off as int) > 0);
                    if spec_no_word(text, ch_off as int, es) {
                        assert(created_in@ == 0);
                        let c1 = (ch_off as int) + 1;
                        let kk = lat_words.spec_count(c1);
                        lat_words.lemma_count_nonneg(c1);
                        assert(lat.spec_count(c1) == kk + 1);
                        assert(spec_is_oov_node(lat.spec_node(c1, kk), dict.spec_oov(), ch_off as int));
                        assert(0 <= kk < lat.spec_count((ch_off as int) + 1));
                        assert(lat.spec_node((ch_off as int) + 1, kk) == lat.spec_node(c1, kk));
                        assert(spec_is_oov_node(lat.spec_node((ch_off as int) + 1, kk), dict.spec_oov(), ch_off as int));
                        assert(spec_oov_in(lat, dict, ch_off as int));
                    }
                }
                assert forall|c: int| 0 <= c < ch_off implies #[trigger] spec_complete_at(dict, text, lat, c) by {
                    lemma_complete_grows(dict, text, lat_before, lat, c);
                }
                assert forall|b: int, kb: int|
                    1 <= b < lat.spec_size() && 0 <= kb < lat.spec_count(b) implies spec_known_node(
                    dict,
                    text,
                    #[trigger] lat.spec_node(b, kb),
                    b,
                ) by {
                    lat_words.lemma_count_nonneg(b);
                    if kb < lat_words.spec_count(b) {
                        assert(lat.spec_node(b, kb) == lat_words.spec_node(b, kb));
                        assert(spec_known_node(dict, text, lat_words.spec_node(b, kb), b));
                    } else {
                        assert(b == ch_off + 1);
                        assert(spec_is_oov_node(lat.spec_node(b, kb), dict.spec_oov(), b - 1));
                    }
                }
            }
            proof {
                assert(0u64 | spec_single(1) != 0) by {
                    assert(spec_single(1) == 1u64 << 0u64);
                    assert(0u64 | (1u64 << 0u64) != 0) by (bit_vector);
                }
            }
            if created.is_empty() {
                created = match provide_oovs(dict, &mut self.lattice, &mut self.oov, ch_off, n, created) {
                    Ok(c) => c,
                    Err(err) => {
                        proof {
                            assert(self.lattice.spec_count(ch_off + 1) >= MAX_NODES_PER_BOUNDARY);
                        }
                        return Err(err);
                    },
                };
            }
            if created.is_empty() {
                return Err(SudachiError::EosBosDisconnect);
            }
            ch_off = ch_off + 1;
        }
        let ghost lat_full = self.lattice;
        let connected = self.lattice.connect_eos(conn);
        proof {
            let text = self.input.spec_text();
            assert(spec_grows(lat_full, self.lattice));
            assert forall|c: int| 0 <= c < n implies #[trigger] spec_complete_at(dict, text, self.lattice, c) by {
                lemma_complete_grows(dict, text, lat_full, self.lattice, c);
            }
            lemma_reach_end(dict, text, lat_full, 0);
            assert forall|b: int, kb: int|
                1 <= b < self.lattice.spec_size() && 0 <= kb < self.lattice.spec_count(b) implies spec_known_node(
                dict,
                text,
                #[trigger] self.lattice.spec_node(b, kb),
                b,
            ) by {
                assert(self.lattice.spec_node(b, kb) == lat_full.spec_node(b, kb));
                assert(spec_known_node(dict, text, lat_full.spec_node(b, kb), b));
            }
        }
        match connected {
            Ok(()) => Ok(()),
            Err(err) => Err(err),
        }
    }

    /// The nodes of the cheapest path, from the start of the sentence to
    /// its end, with their word information and byte ranges.
    fn resolve_best_path(&mut self) -> (r: SudachiResult<Vec<ResultNode>>)
        requires
            old(self).dictionary.wf(),
            old(self).input.wf(),
            old(self).lattice.wf(),
            old(self).lattice.spec_size() == old(self).input.spec_text().len() + 1,
        ensures
            final(self).dictionary == old(self).dictionary,
            final(self).input == old(self).input,
            final(self).lattice == old(self).lattice,
            final(self).mode == old(self).mode,
            final(self).subset == old(self).subset,
            final(self).debug == old(self).debug,
            final(self).text == old(self).text,
            final(self).top_path == old(self).top_path,
            r matches Ok(p) ==> spec_all_fit(p@, old(self).input.spec_text()),
            r is Ok <==> forall|j: int|
                0 <= j < old(self).lattice.spec_top_path().len() ==> spec_result_ok_at(
                    old(self).lattice,
                    old(self).input.spec_text(),
                    &old(self).dictionary.spec_lexicon(),
                    old(self).subset,
                    #[trigger] old(self).lattice.spec_top_path()[j],
                ),
            r matches Ok(p) ==> {
                let ids = old(self).lattice.spec_top_path();
                &&& p@.len() == ids.len()
                &&& forall|j: int|
                    0 <= j < ids.len() ==> spec_result_at(
                        #[trigger] p@[j],
                        old(self).lattice,
                        old(self).input.spec_text(),
                        &old(self).dictionary.spec_lexicon(),
                        old(self).subset,
                        ids[ids.len() - 1 - j],
                    )
            },
            r matches Ok(p) ==> (old(self).lattice.spec_path_tiles(old(self).lattice.spec_top_path()) ==> spec_tiles(
                p@,
                old(self).lattice.spec_size() - 1,
            )),
    {
        let lex = self.dictionary.lexicon();
        let mut ids: Vec<NodeIdx> = Vec::new();
        self.lattice.fill_top_path(&mut ids);
        proof {
            assert(ids@ =~= self.lattice.spec_top_path());
        }
        let mut path: Vec<ResultNode> = Vec::new();
        let mut k = ids.len();
        let size = self.lattice.size();
        while k > 0
            invariant
                k <= ids@.len(),
                self.dictionary == old(self).dictionary,
                self.dictionary.wf(),
                *lex == self.dictionary.spec_lexicon(),
                self.input.wf(),
                self.lattice.wf(),
                size == self.lattice.spec_size(),
                self.lattice.spec_size() == self.input.spec_text().len() + 1,
                self.input == old(self).input,
                self.lattice == old(self).lattice,
                self.mode == old(self).mode,
                self.subset == old(self).subset,
                self.debug == old(self).debug,
                self.text == old(self).text,
                self.top_path == old(self).top_path,
                spec_all_fit(path@, self.input.spec_text()),
                ids@ == self.lattice.spec_top_path(),
                path@.len() == ids@.len() - k,
                forall|j: int|
                    0 <= j < path@.len() ==> spec_result_at(
                        #[trigger] path@[j],
                        self.lattice,
                        self.input.spec_text(),
                        lex,
                        self.subset,
                        ids@[ids@.len() - 1 - j],
                    ),
                forall|t: int|
                    k <= t < ids@.len() ==> spec_result_ok_at(
                        self.lattice,
                        self.input.spec_text(),
                        lex,
                        self.subset,
                        #[trigger] ids@[t],
                    ),
            decreases k,
        {
            k = k - 1;
            let pid = ids[k];
            let e = pid.end() as usize;
            if e == 0 || e >= size || pid.index() as usize >= self.lattice.count_at(e) {
                proof {
                    assert(!spec_result_ok_at(self.lattice, self.input.spec_text(), lex, self.subset, ids@[k as int]));
                }
                return Err(SudachiError::EosBosDisconnect);
            }
            let (inner, cost) = self.lattice.node(pid);
            let begin = inner.begin();
            let end = inner.end();
            if begin > end || end >= size {
                proof {
                    assert(!spec_result_ok_at(self.lattice, self.input.spec_text(), lex, self.subset, ids@[k as int]));
                }
                return Err(SudachiError::EosBosDisconnect);
            }
            let wid = inner.word_id();
            let wi = if wid.is_oov() {
                let mut data = WordInfoData::empty();
                data.pos_id = wid.word() as u16;
                data.surface = self.input.curr_slice_c(begin, end);
                WordInfo::from_data(data)
            } else {
                match lex.get_word_info_subset(wid, self.subset) {
                    Ok(w) => w,
                    Err(err) => {
                        proof {
                            assert(!spec_result_ok_at(
                                self.lattice,
                                self.input.spec_text(),
                                lex,
                                self.subset,
                                ids@[k as int],
                            ));
                        }
                        return Err(err);
                    },
                }
            };
            let byte_begin = self.input.to_curr_byte_idx(begin);
            let byte_end = self.input.to_curr_byte_idx(end);
            if byte_end > 65535 || byte_begin > 65535 {
                proof {
                    assert(!spec_result_ok_at(self.lattice, self.input.spec_text(), lex, self.subset, ids@[k as int]));
                }
                return Err(SudachiError::InvalidRange(byte_begin, byte_end));
            }
            let rn = ResultNode::new(*inner, cost, byte_begin as u16, byte_end as u16, wi);
            let ghost before = path@;
            proof {
                assert(spec_node_fits(rn, self.input.spec_text()));
                assert(spec_result_at(rn, self.lattice, self.input.spec_text(), lex, self.subset, ids@[k as int]));
            }
            path.push(rn);
            proof {
                assert forall|j: int|
                    0 <= j < path@.len() implies spec_result_at(
                        #[trigger] path@[j],
                        self.lattice,
                        self.input.spec_text(),
                        lex,
                        self.subset,
                        ids@[ids@.len() - 1 - j],
                    ) by {
                    if j < before.len() {
                        assert(path@[j] == before[j]);
                    }
                }
            }
        }
        proof {
            if self.lattice.spec_path_tiles(self.lattice.spec_top_path()) {
                lemma_result_tiles(path@, self.lattice, self.input.spec_text(), lex, self.subset, ids@);
            }
        }
        Ok(path)
    }

    /// Exchanges the result of the last analysis with `input`, `result`
    /// and `subset`; the nodes given lie inside the text given.
    pub fn swap_result(
        &mut self,
        input: &mut InputBuffer,
        result: &mut Vec<ResultNode>,
        subset: &mut InfoSubset,
    )
        requires
            old(self).spec_result_ok(),
            old(input).wf(),
            spec_all_fit(old(result)@, old(input).spec_text()),
        ensures
            final(self).spec_result_ok(),
            *final(input) == old(self).spec_input(),
            final(input).wf(),
            spec_all_fit(final(result)@, final(input).spec_text()),
            final(self).spec_input() == *old(input),
            final(result)@ == match old(self).spec_top_path() {
                Some(p) => p,
                None => Seq::<ResultNode>::empty(),
            },
            final(self).spec_top_path() == Some(old(result)@),
            *final(subset) == old(self).spec_subset(),
            final(self).spec_dict() == old(self).spec_dict(),
            final(self).spec_mode() == old(self).spec_mode(),
            final(self).spec_subset() == old(self).spec_subset(),
            final(self).spec_debug() == old(self).spec_debug(),
            final(self).spec_text() == old(self).spec_text(),
    {
        let mut mine = match self.top_path.take() {
            Some(p) => p,
            None => Vec::new(),
        };
        std::mem::swap(&mut self.input, input);
        std::mem::swap(&mut mine, result);
        self.top_path = Some(mine);
        *subset = self.subset;
    }

    /// The result of the last analysis as a morpheme list; an error when
    /// there is none.
    pub fn into_morpheme_list(self) -> (r: SudachiResult<MorphemeList<'a>>)
        requires
            self.spec_result_ok(),
        ensures
            r is Ok <==> self.spec_top_path() is Some,
            r matches Ok(l) ==> l.spec_dict() == self.spec_dict() && l.spec_nodes()
                == self.spec_top_path()->0 && l.spec_input() == self.spec_input() && l.spec_subset()
                == self.spec_subset(),
    {
        match self.top_path {
            None => Err(SudachiError::EosBosDisconnect),
            Some(path) => Ok(MorphemeList::from_components(self.dictionary, self.input, path, self.subset)),
        }
    }
}

} // verus!
