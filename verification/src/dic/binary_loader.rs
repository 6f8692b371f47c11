//! Loading of binary dictionaries: the description block, then the grammar
//! and lexicon blocks it locates.

use std::collections::HashMap;
use vstd::prelude::*;
use vstd::slice::slice_subrange;

use crate::dic::connect::{spec_i16s_at, ConnectionMatrix};
use crate::dic::description::{spec_block_name, spec_find_block, spec_load, Block, Description, DescriptionModel};
use crate::dic::grammar::{Grammar, POS_DEPTH};
use crate::dic::header::HeaderError;
use crate::dic::lexicon::strings::CompactedStrings;
use crate::dic::lexicon::trie::{spec_units, Trie};
use crate::dic::lexicon::word_id_table::WordIdTable;
use crate::dic::lexicon::word_infos::WordInfos;
use crate::dic::lexicon::word_params::{spec_u64s, WordParams};
use crate::dic::lexicon::Lexicon;
use crate::dic::lexicon_set::LexiconSet;
use crate::dic::read::{spec_i16_of, spec_leb_len, spec_leb_value, spec_u16_le, spec_utf8_string_at};
use crate::dic::read::{read_i16_le, read_u16_le, spec_utf16_string_at, utf16_string_at, utf8_string_at, varint32_at};
use crate::dic::word_id::MAX_WORD;
use crate::error::{SudachiError, SudachiResult};

verus! {

/// `n` length-prefixed UTF-16 strings in a row from `p`, with the position
/// after them.
pub open spec fn spec_utf16_strings(b: Seq<u8>, p: int, n: nat) -> Option<(Seq<Seq<char>>, int)>
    decreases n,
{
    if n == 0 {
        Some((Seq::empty(), p))
    } else {
        match spec_utf16_strings(b, p, (n - 1) as nat) {
            None => None,
            Some((ss, q)) => match spec_utf16_string_at(b, q) {
                None => None,
                Some((s, q1)) => Some((ss.push(s), q1)),
            },
        }
    }
}

/// Once a string cannot be read, no longer run of strings can.
proof fn lemma_strings_fail_onward(b: Seq<u8>, p: int, i: nat, j: nat)
    requires
        i <= j,
        spec_utf16_strings(b, p, i) is None,
    ensures
        spec_utf16_strings(b, p, j) is None,
    decreases j - i,
{
    if i < j {
        lemma_strings_fail_onward(b, p, i, (j - 1) as nat);
    }
}

/// `n` parts of speech in a row from `p`, each `POS_DEPTH` strings, with the
/// position after them.
pub open spec fn spec_pos_rows(b: Seq<u8>, p: int, n: nat) -> Option<(Seq<Seq<Seq<char>>>, int)>
    decreases n,
{
    if n == 0 {
        Some((Seq::empty(), p))
    } else {
        match spec_pos_rows(b, p, (n - 1) as nat) {
            None => None,
            Some((rows, q)) => match spec_utf16_strings(b, q, POS_DEPTH as nat) {
                None => None,
                Some((row, q1)) => Some((rows.push(row), q1)),
            },
        }
    }
}

/// Once a part of speech cannot be read, no longer run of them can.
proof fn lemma_pos_rows_fail_onward(b: Seq<u8>, p: int, i: nat, j: nat)
    requires
        i <= j,
        spec_pos_rows(b, p, i) is None,
    ensures
        spec_pos_rows(b, p, j) is None,
    decreases j - i,
{
    if i < j {
        lemma_pos_rows_fail_onward(b, p, i, (j - 1) as nat);
    }
}

/// The part-of-speech table in `b`: a 16-bit count, then that many parts
/// of speech.
pub open spec fn spec_pos_table(b: Seq<u8>) -> Option<Seq<Seq<Seq<char>>>> {
    if b.len() < 2 {
        None
    } else {
        match spec_pos_rows(b, 2, spec_u16_le(b, 0) as nat) {
            None => None,
            Some((rows, _)) => Some(rows),
        }
    }
}

/// The texts of a list of parts of speech.
pub open spec fn spec_pos_texts(v: Seq<Vec<String>>) -> Seq<Seq<Seq<char>>> {
    v.map_values(|row: Vec<String>| row@.map_values(|s: String| s@))
}

/// Reads a part-of-speech table: a 16-bit count, then for each part of
/// speech its components as length-prefixed UTF-16 strings.
pub fn read_pos_list(buf: &[u8]) -> (r: SudachiResult<Vec<Vec<String>>>)
    ensures
        match spec_pos_table(buf@) {
            None => r is Err,
            Some(t) => r matches Ok(v) && spec_pos_texts(v@) == t,
        },
        r matches Ok(v) ==> (forall|i: int| 0 <= i < v@.len() ==> (#[trigger] v@[i])@.len() == POS_DEPTH),
{
    let (count, p0) = read_u16_le(buf, 0)?;
    let mut out: Vec<Vec<String>> = Vec::new();
    let mut p = p0;
    let mut i: u16 = 0;
    proof {
        assert(spec_pos_texts(out@) =~= Seq::<Seq<Seq<char>>>::empty());
    }
    while i < count
        invariant
            i <= count,
            buf@.len() >= 2,
            count == spec_u16_le(buf@, 0),
            spec_pos_rows(buf@, 2, i as nat) == Some((spec_pos_texts(out@), p as int)),
            forall|k: int| 0 <= k < out@.len() ==> (#[trigger] out@[k])@.len() == POS_DEPTH,
        decreases count - i,
    {
        let ghost q = p as int;
        let ghost rows = spec_pos_texts(out@);
        let mut pos: Vec<String> = Vec::new();
        let mut j: usize = 0;
        proof {
            assert(pos@.map_values(|s: String| s@) =~= Seq::<Seq<char>>::empty());
        }
        while j < POS_DEPTH
            invariant
                j <= POS_DEPTH,
                pos@.len() == j,
                spec_utf16_strings(buf@, q, j as nat) == Some((pos@.map_values(|s: String| s@), p as int)),
                i < count,
                count == spec_u16_le(buf@, 0),
                spec_pos_rows(buf@, 2, i as nat) == Some((rows, q)),
            decreases POS_DEPTH - j,
        {
            let (s, np) = match utf16_string_at(buf, p) {
                Ok(x) => x,
                Err(e) => {
                    proof {
                        lemma_strings_fail_onward(buf@, q, (j + 1) as nat, POS_DEPTH as nat);
                        assert(spec_pos_rows(buf@, 2, (i + 1) as nat) is None);
                        lemma_pos_rows_fail_onward(buf@, 2, (i + 1) as nat, count as nat);
                    }
                    return Err(e);
                },
            };
            let ghost before = pos@;
            pos.push(s);
            proof {
                assert(pos@.map_values(|s: String| s@) =~= before.map_values(|s: String| s@).push(s@));
            }
            p = np;
            j = j + 1;
        }
        let ghost before = out@;
        out.push(pos);
        proof {
            assert(spec_pos_texts(out@) =~= spec_pos_texts(before).push(pos@.map_values(|s: String| s@)));
        }
        i = i + 1;
    }
    Ok(out)
}

/// Number of rows of the connection matrix in `b`.
pub open spec fn spec_conn_left(b: Seq<u8>) -> int {
    spec_i16_of(spec_u16_le(b, 0))
}

/// Number of columns of the connection matrix in `b`.
pub open spec fn spec_conn_right(b: Seq<u8>) -> int {
    spec_i16_of(spec_u16_le(b, 2))
}

/// Whether `b` holds a connection matrix: two non-negative dimensions and
/// all their cells.
pub open spec fn spec_connection_ok(b: Seq<u8>) -> bool {
    &&& b.len() >= 4
    &&& 0 <= spec_conn_left(b)
    &&& 0 <= spec_conn_right(b)
    &&& 4 + 2 * spec_conn_left(b) * spec_conn_right(b) <= b.len()
}

/// Whether `m` is the connection matrix that `b` holds.
pub open spec fn spec_matrix_of(m: ConnectionMatrix, b: Seq<u8>) -> bool {
    &&& m.wf()
    &&& m.spec_num_left() == spec_conn_left(b)
    &&& m.spec_num_right() == spec_conn_right(b)
    &&& m.spec_data() == spec_i16s_at(b, 4, spec_conn_left(b) * spec_conn_right(b))
}

/// Reads a connection matrix; an error when its dimensions are negative or
/// its cells do not fit the bytes.
fn read_connection(bytes: &[u8]) -> (r: SudachiResult<ConnectionMatrix>)
    ensures
        r is Ok <==> spec_connection_ok(bytes@),
        r matches Ok(m) ==> spec_matrix_of(m, bytes@),
{
    let (l, _) = read_i16_le(bytes, 0)?;
    let (rr, _) = read_i16_le(bytes, 2)?;
    if l < 0 || rr < 0 {
        return Err(SudachiError::InvalidDictionaryGrammar);
    }
    proof {
        assert((l as u64) * (rr as u64) <= 32767 * 32767) by (nonlinear_arith)
            requires
                0 <= l <= 32767,
                0 <= rr <= 32767,
        ;
    }
    let cells = (l as u64) * (rr as u64);
    if cells > ((usize::MAX - 4) / 2) as u64 {
        return Err(SudachiError::InvalidDictionaryGrammar);
    }
    ConnectionMatrix::from_bytes(bytes)
}

/// The bytes of `block` in `buf` by the description `d`: `None` when the
/// block is missing or extends beyond `buf`.
pub open spec fn spec_block_bytes(d: DescriptionModel, buf: Seq<u8>, block: Block) -> Option<Seq<u8>> {
    match spec_find_block(d.blocks, spec_block_name(block)) {
        None => None,
        Some(i) => {
            let (_, start, size) = d.blocks[i];
            if start + size <= buf.len() {
                Some(buf.subrange(start, start + size))
            } else {
                None
            }
        },
    }
}

/// Whether the description `d` lists no `block`.
pub open spec fn spec_block_missing(d: DescriptionModel, block: Block) -> bool {
    spec_find_block(d.blocks, spec_block_name(block)) is None
}

/// Whether the grammar blocks of `buf` can be read: the connection matrix,
/// when listed, lies in `buf` and holds a matrix, and the part-of-speech
/// table lies in `buf` and holds a table.
pub open spec fn spec_grammar_readable(d: DescriptionModel, buf: Seq<u8>) -> bool {
    &&& (spec_block_missing(d, Block::ConnectionMatrix) || (spec_block_bytes(
        d,
        buf,
        Block::ConnectionMatrix,
    ) matches Some(c) && spec_connection_ok(c)))
    &&& spec_block_bytes(d, buf, Block::POSTable) matches Some(t) && spec_pos_table(t) is Some
}

/// Grammar part of one binary dictionary.
pub struct BinaryGrammar {
    /// The parts of speech.
    pub pos_list: Vec<Vec<String>>,
    /// The connection matrix; only system dictionaries have one.
    pub connection: Option<ConnectionMatrix>,
}

impl BinaryGrammar {
    /// Whether this is the grammar that the blocks of `buf` hold.
    pub open spec fn spec_read_from(&self, d: DescriptionModel, buf: Seq<u8>) -> bool {
        &&& spec_pos_texts(self.pos_list@) == spec_pos_table(spec_block_bytes(d, buf, Block::POSTable)->0)->0
        &&& (self.connection is Some <==> !spec_block_missing(d, Block::ConnectionMatrix))
        &&& (self.connection matches Some(m) ==> spec_matrix_of(
            m,
            spec_block_bytes(d, buf, Block::ConnectionMatrix)->0,
        ))
        &&& forall|i: int| 0 <= i < self.pos_list@.len() ==> (#[trigger] self.pos_list@[i])@.len() == POS_DEPTH
    }

    /// Reads the grammar blocks of a dictionary: the connection matrix, when
    /// there is one, and the part-of-speech table.
    pub fn load(buf: &[u8], description: &Description) -> (r: SudachiResult<BinaryGrammar>)
        ensures
            r is Ok <==> spec_grammar_readable(description@, buf@),
            r matches Ok(g) ==> g.spec_read_from(description@, buf@),
            r matches Ok(g) ==> g.connection matches Some(m) ==> m.wf(),
    {
        let connection = match description.slice_or_none(buf, Block::ConnectionMatrix)? {
            Some(bytes) => Some(read_connection(bytes)?),
            None => None,
        };
        let pos_list = read_pos_list(description.slice(buf, Block::POSTable)?)?;
        Ok(BinaryGrammar { pos_list, connection })
    }
}

/// Lexicon part of one binary dictionary.
pub struct BinaryLexicon {
    /// The trie of index forms.
    pub trie: Trie,
    /// Lists of entries by index form.
    pub word_id_table: WordIdTable,
    /// Connection ids and costs of the entries.
    pub word_params: WordParams,
    /// Word information of the entries.
    pub word_infos: WordInfos,
    /// Strings of the lexicon.
    pub strings: CompactedStrings,
    /// Number of entries.
    pub num_total_entries: u32,
}

/// The bytes of `block` in `buf`; an error when the description lists no
/// such block or it extends beyond `buf`.
fn block_bytes<'a>(description: &Description, buf: &'a [u8], block: Block) -> (r: SudachiResult<&'a [u8]>)
    ensures
        r is Ok <==> spec_block_bytes(description@, buf@, block) is Some,
        r matches Ok(b) ==> b@ == spec_block_bytes(description@, buf@, block)->0,
{
    description.slice(buf, block)
}

/// Whether the lexicon blocks of `buf` can be read: the trie, word id,
/// entry and string blocks lie in `buf`, and the entry block has a
/// parameter for each of the entries, of which there are at most
/// `MAX_WORD + 1`.
pub open spec fn spec_lexicon_readable(d: DescriptionModel, buf: Seq<u8>) -> bool {
    &&& spec_block_bytes(d, buf, Block::TRIEIndex) is Some
    &&& spec_block_bytes(d, buf, Block::WordPointers) is Some
    &&& spec_block_bytes(d, buf, Block::Entries) matches Some(e) && d.num_total_entries <= MAX_WORD + 1
        && e.len() / 8 >= d.num_total_entries
    &&& spec_block_bytes(d, buf, Block::Strings) is Some
}

impl BinaryLexicon {
    /// Whether this is the lexicon that the blocks of `buf` hold.
    pub open spec fn spec_read_from(&self, d: DescriptionModel, buf: Seq<u8>) -> bool {
        let t = spec_block_bytes(d, buf, Block::TRIEIndex)->0;
        let w = spec_block_bytes(d, buf, Block::WordPointers)->0;
        let e = spec_block_bytes(d, buf, Block::Entries)->0;
        let n = d.num_total_entries;
        &&& self.trie.spec_array() == spec_units(t, t.len() as int / 4)
        &&& self.word_id_table.spec_bytes() == w
        &&& self.word_id_table.spec_offset() == 0
        &&& self.word_params.spec_data() == spec_u64s(e.subrange(0, 8 * n), n)
        &&& self.word_infos.spec_bytes() == e
        &&& self.word_infos.spec_offset() == 8 * n
        &&& self.word_infos.spec_word_size() == n
        &&& self.word_infos.spec_has_synonym_group_ids()
        &&& self.strings.spec_bytes() == spec_block_bytes(d, buf, Block::Strings)->0
        &&& self.num_total_entries == n
    }

    /// Reads the lexicon blocks of a dictionary: the trie, the word id lists,
    /// the entries (one 8-byte parameter per entry, one 4-byte record offset
    /// per entry, then the records) and the strings.
    pub fn load(buf: &[u8], description: &Description) -> (r: SudachiResult<BinaryLexicon>)
        ensures
            r is Ok <==> spec_lexicon_readable(description@, buf@),
            r matches Ok(l) ==> l.spec_read_from(description@, buf@),
            r matches Ok(l) ==> {
                &&& l.word_id_table.spec_offset() == 0
                &&& l.word_params.spec_data().len() == l.num_total_entries
                &&& l.num_total_entries <= MAX_WORD + 1
                &&& l.word_infos.spec_word_size() == l.num_total_entries
                &&& l.word_infos.spec_offset() == 8 * l.num_total_entries
                &&& l.word_infos.spec_has_synonym_group_ids()
            },
    {
        let trie = Trie::from_bytes(block_bytes(description, buf, Block::TRIEIndex)?);
        let table_bytes = block_bytes(description, buf, Block::WordPointers)?;
        let word_id_table = WordIdTable::new(table_bytes, table_bytes.len() as u32, 0);
        let entries = block_bytes(description, buf, Block::Entries)?;
        let n = description.num_total_entries();
        if n > MAX_WORD + 1 || entries.len() / 8 < n as usize {
            return Err(SudachiError::InvalidDataFormat(entries.len()));
        }
        let params_end = 8 * n as usize;
        let params_bytes = slice_subrange(entries, 0, params_end);
        let word_params = WordParams::from_bytes(params_bytes);
        proof {
            assert(params_bytes@.len() / 8 == n);
        }
        let word_infos = WordInfos::new(entries, params_end, n, true);
        let strings = CompactedStrings::from_bytes(block_bytes(description, buf, Block::Strings)?);
        Ok(
            BinaryLexicon {
                trie,
                word_id_table,
                word_params,
                word_infos,
                strings,
                num_total_entries: n,
            },
        )
    }
}

impl Lexicon {
    /// The lexicon of a binary dictionary, with no id yet.
    pub fn from_binary(binary: BinaryLexicon) -> (r: Lexicon)
        requires
            binary.word_id_table.spec_offset() == 0,
            binary.word_params.spec_data().len() <= MAX_WORD + 1,
            binary.word_infos.spec_word_size() == binary.word_params.spec_data().len(),
        ensures
            r.wf(),
            r.spec_trie() == binary.trie.spec_array(),
            r.spec_table() == binary.word_id_table.spec_bytes(),
            r.spec_params() == binary.word_params.spec_data(),
            r.spec_info_bytes() == binary.word_infos.spec_bytes(),
            r.spec_info_offset() == binary.word_infos.spec_offset(),
            r.spec_has_syn() == binary.word_infos.spec_has_synonym_group_ids(),
            r.spec_lex_id() == 255,
    {
        Lexicon::from_parts(binary.trie, binary.word_id_table, binary.word_params, binary.word_infos)
    }
}

impl LexiconSet {
    /// A set holding the lexicon of a system dictionary.
    pub fn from_system_binary(system_lexicon: BinaryLexicon, num_system_pos: usize) -> (r: LexiconSet)
        requires
            system_lexicon.word_id_table.spec_offset() == 0,
            system_lexicon.word_params.spec_data().len() <= MAX_WORD + 1,
            system_lexicon.word_infos.spec_word_size() == system_lexicon.word_params.spec_data().len(),
        ensures
            r.wf(),
            r.spec_lexicons().len() == 1,
            r.spec_num_system_pos() == num_system_pos,
    {
        LexiconSet::new(Lexicon::from_binary(system_lexicon), num_system_pos)
    }
}

/// A LEB128 value of at most 32 bits at `p`, and the position after it.
pub open spec fn spec_varint32(b: Seq<u8>, p: int) -> Option<(u32, int)> {
    match spec_leb_len(b, p, 5) {
        Some(n) => if spec_leb_value(b, p, n) <= u32::MAX {
            Some((spec_leb_value(b, p, n) as u32, p + n))
        } else {
            None
        },
        None => None,
    }
}

/// The first `i` rows of a reference id table starting at `p0`: each an
/// entry id and a reference id, later rows replacing earlier ones with the
/// same entry id; with the position after them.
pub open spec fn spec_ref_rows(b: Seq<u8>, p0: int, i: nat) -> Option<(Map<u32, Seq<char>>, int)>
    decreases i,
{
    if i == 0 {
        Some((Map::empty(), p0))
    } else {
        match spec_ref_rows(b, p0, (i - 1) as nat) {
            None => None,
            Some((m, p)) => match spec_varint32(b, p) {
                None => None,
                Some((e, p1)) => match spec_utf8_string_at(b, p1) {
                    None => None,
                    Some((s, p2)) => Some((m.insert(e, s), p2)),
                },
            },
        }
    }
}

/// Once a row cannot be read, no longer run of rows can.
proof fn lemma_rows_fail_onward(b: Seq<u8>, p0: int, i: nat, j: nat)
    requires
        i <= j,
        spec_ref_rows(b, p0, i) is None,
    ensures
        spec_ref_rows(b, p0, j) is None,
    decreases j - i,
{
    if i < j {
        lemma_rows_fail_onward(b, p0, i, (j - 1) as nat);
    }
}

/// The reference id table in `b`: a count, then that many rows.
pub open spec fn spec_ref_table(b: Seq<u8>) -> Option<Map<u32, Seq<char>>> {
    match spec_varint32(b, 0) {
        None => None,
        Some((count, p0)) => match spec_ref_rows(b, p0, count as nat) {
            None => None,
            Some((m, _)) => Some(m),
        },
    }
}

/// The texts of a map of strings.
pub open spec fn spec_string_map(m: Map<u32, String>) -> Map<u32, Seq<char>> {
    m.map_values(|s: String| s@)
}

/// Reads the reference id table: a count, then for each row an entry id
/// (LEB128) and a reference id (UTF-8 with a LEB128 length). Later rows win
/// over earlier ones with the same entry id.
fn parse_reference_id_table(bytes: &[u8]) -> (r: SudachiResult<HashMap<u32, String>>)
    ensures
        match spec_ref_table(bytes@) {
            None => r is Err,
            Some(m) => r matches Ok(h) && spec_string_map(h@) == m,
        },
{
    broadcast use vstd::std_specs::hash::group_hash_axioms;
    let (count, p0) = varint32_at(bytes, 0)?;
    let mut result: HashMap<u32, String> = HashMap::new();
    let mut p = p0;
    let mut i: u32 = 0;
    proof {
        assert(spec_string_map(result@) =~= Map::<u32, Seq<char>>::empty());
    }
    while i < count
        invariant
            i <= count,
            p <= bytes@.len(),
            spec_varint32(bytes@, 0) == Some((count, p0 as int)),
            spec_ref_rows(bytes@, p0 as int, i as nat) == Some((spec_string_map(result@), p as int)),
        decreases count - i,
    {
        let (entry_id, p1) = match varint32_at(bytes, p) {
            Ok(x) => x,
            Err(e) => {
                proof {
                    lemma_rows_fail_onward(bytes@, p0 as int, (i + 1) as nat, count as nat);
                }
                return Err(e);
            },
        };
        let (reference_id, p2) = match utf8_string_at(bytes, p1) {
            Ok(x) => x,
            Err(e) => {
                proof {
                    lemma_rows_fail_onward(bytes@, p0 as int, (i + 1) as nat, count as nat);
                }
                return Err(e);
            },
        };
        let ghost before = result@;
        result.insert(entry_id, reference_id);
        proof {
            assert(spec_string_map(result@) =~= spec_string_map(before).insert(entry_id, reference_id@));
        }
        p = p2;
        i = i + 1;
    }
    Ok(result)
}

/// Whether `buf` holds a dictionary: a description, and grammar and
/// lexicon blocks that can be read.
pub open spec fn spec_dictionary_readable(buf: Seq<u8>) -> bool {
    spec_load(buf) matches Some(d) && spec_grammar_readable(d, buf) && spec_lexicon_readable(d, buf)
}

/// The reference id table of a dictionary: empty when the description
/// lists none, `None` when it cannot be read.
pub open spec fn spec_reference_ids(d: DescriptionModel, buf: Seq<u8>) -> Option<Map<u32, Seq<char>>> {
    if spec_block_missing(d, Block::ReferenceIdTable) {
        Some(Map::empty())
    } else {
        match spec_block_bytes(d, buf, Block::ReferenceIdTable) {
            None => None,
            Some(b) => spec_ref_table(b),
        }
    }
}

/// One system or user dictionary read from bytes.
pub struct BinaryDictionary<'a> {
    /// The bytes the dictionary was read from.
    pub raw_bytes: &'a [u8],
    /// The description block.
    pub description: Description,
    /// The grammar blocks.
    pub grammar: BinaryGrammar,
    /// The lexicon blocks.
    pub lexicon: BinaryLexicon,
}

impl<'a> BinaryDictionary<'a> {
    /// The bytes the dictionary was read from.
    pub open spec fn spec_raw_bytes(&self) -> Seq<u8> {
        self.raw_bytes@
    }

    /// The description block.
    pub open spec fn spec_description(&self) -> Description {
        self.description
    }

    /// Parts of speech of the grammar.
    pub open spec fn spec_pos_list(&self) -> Seq<Vec<String>> {
        self.grammar.pos_list@
    }

    /// Reads the description, grammar and lexicon of a dictionary.
    fn load(buf: &'a [u8]) -> (r: SudachiResult<BinaryDictionary<'a>>)
        ensures
            r is Ok <==> spec_dictionary_readable(buf@),
            r matches Ok(d) ==> d.spec_raw_bytes() == buf@ && d.grammar_ok() && d.lexicon_ok(),
            r matches Ok(d) ==> d.spec_read_from(buf@),
    {
        let description = Description::load(buf)?;
        let grammar = BinaryGrammar::load(buf, &description)?;
        let lexicon = BinaryLexicon::load(buf, &description)?;
        Ok(BinaryDictionary { raw_bytes: buf, description, grammar, lexicon })
    }

    /// Whether this is the dictionary that `buf` holds.
    pub open spec fn spec_read_from(&self, buf: Seq<u8>) -> bool {
        &&& self.spec_raw_bytes() == buf
        &&& Some(self.description@) == spec_load(buf)
        &&& self.grammar.spec_read_from(self.description@, buf)
        &&& self.lexicon.spec_read_from(self.description@, buf)
    }

    /// The connection matrix, when there is one, is well formed.
    pub open spec fn grammar_ok(&self) -> bool {
        self.grammar.connection matches Some(m) ==> m.wf()
    }

    /// The lexicon parts agree with each other.
    pub open spec fn lexicon_ok(&self) -> bool {
        &&& self.lexicon.word_id_table.spec_offset() == 0
        &&& self.lexicon.word_params.spec_data().len() <= MAX_WORD + 1
        &&& self.lexicon.word_infos.spec_word_size() == self.lexicon.word_params.spec_data().len()
    }

    /// Reads a system dictionary; an error when the bytes hold a user dictionary.
    pub fn load_system(buf: &'a [u8]) -> (r: SudachiResult<BinaryDictionary<'a>>)
        ensures
            r is Ok <==> spec_dictionary_readable(buf@) && spec_load(buf@)->0.reference.len() == 0,
            r matches Ok(d) ==> d.spec_read_from(buf@),
            r matches Ok(d) ==> d.spec_raw_bytes() == buf@ && d.grammar_ok() && d.lexicon_ok()
                && d.spec_description()@.reference.len() == 0,
    {
        let dict = Self::load(buf)?;
        if dict.description.is_system_dictionary() {
            Ok(dict)
        } else {
            Err(SudachiError::InvalidHeader(HeaderError::InvalidSystemDictVersion))
        }
    }

    /// Reads a user dictionary; an error when the bytes hold a system dictionary.
    pub fn load_user(buf: &'a [u8]) -> (r: SudachiResult<BinaryDictionary<'a>>)
        ensures
            r is Ok <==> spec_dictionary_readable(buf@) && spec_load(buf@)->0.reference.len() != 0,
            r matches Ok(d) ==> d.spec_read_from(buf@),
            r matches Ok(d) ==> d.spec_raw_bytes() == buf@ && d.grammar_ok() && d.lexicon_ok()
                && d.spec_description()@.reference.len() != 0,
    {
        let dict = Self::load(buf)?;
        if dict.description.is_user_dictionary() {
            Ok(dict)
        } else {
            Err(SudachiError::InvalidHeader(HeaderError::InvalidUserDictVersion))
        }
    }

    /// The reference id table kept for dictionary building, by entry id;
    /// empty when the dictionary has none.
    pub fn reference_id_table(&self) -> (r: SudachiResult<HashMap<u32, String>>)
        ensures
            match spec_find_block(
                self.spec_description()@.blocks,
                spec_block_name(Block::ReferenceIdTable),
            ) {
                None => r matches Ok(h) && h@.len() == 0,
                Some(i) => {
                    let (_, start, size) = self.spec_description()@.blocks[i];
                    let raw = self.spec_raw_bytes();
                    if start + size <= raw.len() {
                        match spec_ref_table(raw.subrange(start, start + size)) {
                            None => r is Err,
                            Some(m) => r matches Ok(h) && spec_string_map(h@) == m,
                        }
                    } else {
                        r is Err
                    }
                },
            },
            match spec_reference_ids(self.spec_description()@, self.spec_raw_bytes()) {
                None => r is Err,
                Some(m) => r matches Ok(h) && spec_string_map(h@) == m,
            },
    {
        broadcast use vstd::std_specs::hash::group_hash_axioms;

        match self.description.slice_or_none(self.raw_bytes, Block::ReferenceIdTable)? {
            None => {
                let h = HashMap::new();
                proof {
                    assert(spec_string_map(h@) =~= Map::<u32, Seq<char>>::empty());
                }
                Ok(h)
            },
            Some(bytes) => parse_reference_id_table(bytes),
        }
    }
}

/// Whether `buf` holds a system dictionary that can be loaded: one that can
/// be read, references no other, has a connection matrix and a reference
/// id table that can be read when it lists one.
pub open spec fn spec_system_loadable(buf: Seq<u8>) -> bool {
    &&& spec_dictionary_readable(buf)
    &&& spec_load(buf)->0.reference.len() == 0
    &&& !spec_block_missing(spec_load(buf)->0, Block::ConnectionMatrix)
    &&& spec_reference_ids(spec_load(buf)->0, buf) is Some
}

/// A system dictionary with any number of user dictionaries merged in.
pub struct LoadedDictionary {
    /// Description of the system dictionary.
    pub description: Description,
    /// Grammar, with the parts of speech of the user dictionaries appended.
    pub grammar: Grammar,
    /// Lexicons: the system one first.
    pub lexicon_set: LexiconSet,
    /// Reference ids of the system dictionary, by entry id.
    pub system_reference_ids: HashMap<u32, String>,
}

impl LoadedDictionary {
    /// The lexicons.
    pub open spec fn spec_lexicon_set(&self) -> LexiconSet {
        self.lexicon_set
    }

    /// The grammar.
    pub open spec fn spec_grammar(&self) -> Grammar {
        self.grammar
    }

    /// The dictionary made of a system dictionary read from bytes.
    pub fn from_system_binary(binary: BinaryDictionary) -> (r: SudachiResult<LoadedDictionary>)
        requires
            binary.lexicon_ok(),
        ensures
            r is Ok <==> spec_reference_ids(binary.spec_description()@, binary.spec_raw_bytes()) is Some
                && binary.grammar.connection is Some,
            r matches Ok(d) ==> {
                &&& d.description == binary.description
                &&& d.spec_grammar().spec_pos_vec() == binary.grammar.pos_list@
                &&& Some(d.spec_grammar().spec_connection()) == binary.grammar.connection
                &&& Some(spec_string_map(d.system_reference_ids@)) == spec_reference_ids(
                    binary.spec_description()@,
                    binary.spec_raw_bytes(),
                )
            },
            r matches Ok(d) ==> d.spec_lexicon_set().wf() && d.spec_lexicon_set().spec_lexicons().len()
                == 1 && d.spec_lexicon_set().spec_num_system_pos()
                == d.spec_grammar().spec_pos_vec().len(),
    {
        let system_reference_ids = binary.reference_id_table()?;
        let description = binary.description;
        let grammar = Grammar::from_system_binary(binary.grammar)?;
        proof {
            grammar.lemma_pos_vec();
        }
        let lexicon_set = LexiconSet::from_system_binary(binary.lexicon, grammar.pos_list.len());
        Ok(LoadedDictionary { description, grammar, lexicon_set, system_reference_ids })
    }

    /// Reads a system dictionary from bytes.
    pub fn load_system(bytes: &[u8]) -> (r: SudachiResult<LoadedDictionary>)
        ensures
            r is Ok <==> spec_system_loadable(bytes@),
            r matches Ok(d) ==> {
                let desc = spec_load(bytes@)->0;
                &&& Some(d.description@) == spec_load(bytes@)
                &&& spec_pos_texts(d.spec_grammar().spec_pos_vec()) == spec_pos_table(
                    spec_block_bytes(desc, bytes@, Block::POSTable)->0,
                )->0
                &&& spec_matrix_of(
                    d.spec_grammar().spec_connection(),
                    spec_block_bytes(desc, bytes@, Block::ConnectionMatrix)->0,
                )
                &&& Some(spec_string_map(d.system_reference_ids@)) == spec_reference_ids(desc, bytes@)
            },
            r matches Ok(d) ==> d.spec_lexicon_set().wf() && d.spec_lexicon_set().spec_lexicons().len()
                == 1,
    {
        Self::from_system_binary(BinaryDictionary::load_system(bytes)?)
    }

    /// The description of the system dictionary.
    pub fn description(&self) -> (r: &Description)
        ensures
            *r == self.description,
    {
        &self.description
    }

    /// Adds a user dictionary: its lexicon after the others, its parts of
    /// speech after those of the grammar. An error when the set is full.
    pub fn merge_dictionary(self, other: BinaryDictionary) -> (r: SudachiResult<LoadedDictionary>)
        requires
            self.spec_lexicon_set().wf(),
            other.lexicon_ok(),
        ensures
            r matches Ok(d) ==> d.spec_lexicon_set().wf() && d.spec_lexicon_set().spec_lexicons().len()
                == self.spec_lexicon_set().spec_lexicons().len() + 1
                && d.spec_grammar().spec_pos_vec() == self.spec_grammar().spec_pos_vec()
                + other.spec_pos_list(),
            r is Err <==> self.spec_lexicon_set().spec_lexicons().len()
                >= crate::dic::lexicon::MAX_DICTIONARIES,
    {
        let mut this = self;
        let pos_len = this.grammar.pos_list.len();
        match this.lexicon_set.append(Lexicon::from_binary(other.lexicon), pos_len) {
            Ok(()) => {},
            Err(e) => {
                return Err(SudachiError::LexiconSetError(e));
            },
        }
        this.grammar.merge_binary(other.grammar);
        Ok(this)
    }

    /// The reference ids of the system dictionary, by entry id.
    pub fn reference_ids(&self) -> (r: &HashMap<u32, String>)
        ensures
            *r == self.system_reference_ids,
    {
        &self.system_reference_ids
    }
}

} // verus!
