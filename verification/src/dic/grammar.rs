use vstd::prelude::*;
use vstd::string::StringExecFns;

use crate::dic::binary_loader::BinaryGrammar;
use crate::dic::build::primitives::str_eq;
use crate::dic::connect::ConnectionMatrix;
use crate::error::{SudachiError, SudachiResult};

verus! {

/// Number of components of a part of speech.
pub const POS_DEPTH: usize = 6;

/// Largest number of parts of speech a grammar holds.
pub const MAX_POS_COUNT: usize = 65536;

/// Part-of-speech list and connection costs of a dictionary.
pub struct Grammar {
    /// The parts of speech, each a list of components.
    pub pos_list: Vec<Vec<String>>,
    pub(crate) connection: ConnectionMatrix,
}

/// Texts of a list of strings.
pub open spec fn spec_strings(v: Seq<String>) -> Seq<Seq<char>> {
    v.map_values(|s: String| s@)
}

/// Texts of a list of string slices.
pub open spec fn spec_strs(v: Seq<&str>) -> Seq<Seq<char>> {
    v.map_values(|s: &str| s@)
}

/// Whether part of speech `entry` agrees with `query` on every component both have.
pub open spec fn spec_pos_matches(entry: Seq<Seq<char>>, query: Seq<Seq<char>>) -> bool {
    forall|j: int| 0 <= j < entry.len() && 0 <= j < query.len() ==> entry[j] == query[j]
}

/// Texts of a list of parts of speech.
pub open spec fn spec_pos_texts(v: Seq<Vec<String>>) -> Seq<Seq<Seq<char>>> {
    v.map_values(|p: Vec<String>| spec_strings(p@))
}

/// Components joined by `sep`.
pub open spec fn spec_join(parts: Seq<Seq<char>>, sep: Seq<char>) -> Seq<char>
    decreases parts.len(),
{
    if parts.len() == 0 {
        seq![]
    } else if parts.len() == 1 {
        parts[0]
    } else {
        spec_join(parts.drop_last(), sep) + sep + parts.last()
    }
}

/// Joins string slices with a separator.
pub fn join_strs(parts: &[&str], sep: &str) -> (r: String)
    ensures
        r@ == spec_join(spec_strs(parts@), sep@),
{
    let mut out = String::new();
    let n = parts.len();
    let mut i: usize = 0;
    while i < n
        invariant
            i <= n,
            n == parts@.len(),
            out@ == spec_join(spec_strs(parts@).take(i as int), sep@),
        decreases n - i,
    {
        let ghost all = spec_strs(parts@);
        proof {
            assert(all.take(i + 1).drop_last() =~= all.take(i as int));
        }
        if i != 0 {
            out.append(sep);
        }
        out.append(parts[i]);
        proof {
            if i == 0 {
                assert(all.take(1) =~= seq![parts@[0]@]);
            }
        }
        i = i + 1;
    }
    proof {
        assert(spec_strs(parts@).take(n as int) =~= spec_strs(parts@));
    }
    out
}

impl Grammar {
    /// Cost stored for connections that are not allowed.
    pub const INHIBITED_CONNECTION: i16 = i16::MAX;

    /// Parameters `(left_id, right_id, cost)` of the sentence-begin marker.
    pub const BOS_PARAMETER: (i16, i16, i16) = (0, 0, 0);

    /// Parameters `(left_id, right_id, cost)` of the sentence-end marker.
    pub const EOS_PARAMETER: (i16, i16, i16) = (0, 0, 0);

    /// The parts of speech.
    pub closed spec fn spec_pos_vec(&self) -> Seq<Vec<String>> {
        self.pos_list@
    }

    /// The connection matrix as the grammar sees it.
    pub closed spec fn spec_connection(&self) -> ConnectionMatrix {
        self.connection
    }

    /// A grammar made of a part-of-speech list and a connection matrix.
    pub fn from_parts(pos_list: Vec<Vec<String>>, connection: ConnectionMatrix) -> (r: Grammar)
        ensures
            r.spec_pos_vec() == pos_list@,
            r.spec_connection() == connection,
    {
        Grammar { pos_list, connection }
    }

    /// A grammar with no part of speech and an empty matrix.
    pub fn empty() -> (r: Grammar)
        ensures
            r.spec_pos_vec().len() == 0,
            r.spec_connection().wf(),
            r.spec_connection().spec_num_left() == 0,
            r.spec_connection().spec_num_right() == 0,
    {
        Grammar { pos_list: Vec::new(), connection: ConnectionMatrix::empty() }
    }

    /// Appends the parts of speech of `other` (a user grammar); only the
    /// part-of-speech list is merged.
    pub fn merge(&mut self, other: Grammar)
        ensures
            final(self).spec_pos_vec() == old(self).spec_pos_vec() + other.spec_pos_vec(),
            final(self).spec_connection() == old(self).spec_connection(),
    {
        let mut other = other;
        self.pos_list.append(&mut other.pos_list);
    }

    /// Cost of connecting a word with right id `left_id` to a word with left id `right_id`.
    pub fn connect_cost(&self, left_id: i16, right_id: i16) -> (r: i16)
        requires
            self.spec_connection().wf(),
            0 <= left_id < self.spec_connection().spec_num_left(),
            0 <= right_id < self.spec_connection().spec_num_right(),
        ensures
            r == self.spec_connection().spec_cost(left_id as int, right_id as int),
    {
        self.connection.cost(left_id as u16, right_id as u16)
    }

    /// The connection matrix.
    pub fn conn_matrix(&self) -> (r: &ConnectionMatrix)
        ensures
            *r == self.spec_connection(),
    {
        &self.connection
    }

    /// Sets the cost of connecting right id `left_id` to left id `right_id`.
    pub fn set_connect_cost(&mut self, left_id: i16, right_id: i16, cost: i16)
        requires
            old(self).spec_connection().wf(),
            0 <= left_id < old(self).spec_connection().spec_num_left(),
            0 <= right_id < old(self).spec_connection().spec_num_right(),
        ensures
            final(self).spec_pos_vec() == old(self).spec_pos_vec(),
            final(self).spec_connection().wf(),
            final(self).spec_connection().spec_num_left() == old(self).spec_connection().spec_num_left(),
            final(self).spec_connection().spec_num_right() == old(self).spec_connection().spec_num_right(),
            final(self).spec_connection().spec_data() == old(self).spec_connection().spec_data().update(
                crate::dic::connect::spec_cell(
                    old(self).spec_connection().spec_num_left() as int,
                    left_id as int,
                    right_id as int,
                ),
                cost,
            ),
    {
        self.connection.update(left_id as u16, right_id as u16, cost);
    }

    /// Id of the first part of speech that agrees with `pos1`, which must
    /// have six components.
    pub fn get_part_of_speech_id(&self, pos1: &[&str]) -> (r: Option<u16>)
        ensures
            pos1@.len() != POS_DEPTH ==> r is None,
            pos1@.len() == POS_DEPTH ==> match r {
                Some(id) => exists|i: int|
                    0 <= i < self.spec_pos_vec().len() && id == i as u16 && spec_pos_matches(
                        spec_pos_texts(self.spec_pos_vec())[i],
                        spec_strs(pos1@),
                    ) && forall|k: int|
                        0 <= k < i ==> !spec_pos_matches(
                            #[trigger] spec_pos_texts(self.spec_pos_vec())[k],
                            spec_strs(pos1@),
                        ),
                None => forall|k: int|
                    0 <= k < self.spec_pos_vec().len() ==> !spec_pos_matches(
                        #[trigger] spec_pos_texts(self.spec_pos_vec())[k],
                        spec_strs(pos1@),
                    ),
            },
    {
        if pos1.len() != POS_DEPTH {
            return None;
        }
        let n = self.pos_list.len();
        let mut i: usize = 0;
        while i < n
            invariant
                i <= n,
                n == self.spec_pos_vec().len(),
                pos1@.len() == POS_DEPTH,
                forall|k: int|
                    0 <= k < i ==> !spec_pos_matches(
                        #[trigger] spec_pos_texts(self.spec_pos_vec())[k],
                        spec_strs(pos1@),
                    ),
            decreases n - i,
        {
            let pos2 = &self.pos_list[i];
            let m = if pos2.len() < POS_DEPTH {
                pos2.len()
            } else {
                POS_DEPTH
            };
            let mut j: usize = 0;
            let mut all = true;
            while j < m
                invariant
                    j <= m,
                    m <= pos2@.len(),
                    m <= pos1@.len(),
                    m == if pos2@.len() < POS_DEPTH { pos2@.len() } else { POS_DEPTH as nat },
                    pos1@.len() == POS_DEPTH,
                    all ==> forall|t: int| 0 <= t < j ==> pos2@[t]@ == pos1@[t]@,
                    !all ==> exists|t: int| 0 <= t < m && pos2@[t]@ != pos1@[t]@,
                decreases m - j,
            {
                if !str_eq(pos2[j].as_str(), pos1[j]) {
                    all = false;
                }
                j = j + 1;
            }
            proof {
                let e = spec_pos_texts(self.spec_pos_vec())[i as int];
                let q = spec_strs(pos1@);
                assert(e == spec_strings(pos2@));
                if all {
                    assert forall|t: int| 0 <= t < e.len() && 0 <= t < q.len() implies e[t]
                        == q[t] by {
                        assert(pos2@[t]@ == pos1@[t]@);
                    }
                } else {
                    let t = choose|t: int| 0 <= t < m && pos2@[t]@ != pos1@[t]@;
                    assert(e[t] != q[t]);
                }
            }
            if all {
                return Some(i as u16);
            }
            i = i + 1;
        }
        None
    }

    /// Registers a part of speech of six components and returns its id; an
    /// already registered one keeps its id.
    pub fn register_pos(&mut self, pos: &[&str]) -> (r: SudachiResult<u16>)
        ensures
            final(self).spec_connection() == old(self).spec_connection(),
            pos@.len() != POS_DEPTH ==> r is Err && final(self).spec_pos_vec() == old(self).spec_pos_vec(),
            r matches Ok(id) ==> exists|i: int|
                0 <= i < final(self).spec_pos_vec().len() && id == i as u16 && spec_pos_matches(
                    spec_pos_texts(final(self).spec_pos_vec())[i],
                    spec_strs(pos@),
                ) && forall|k: int|
                    0 <= k < i ==> !spec_pos_matches(
                        #[trigger] spec_pos_texts(final(self).spec_pos_vec())[k],
                        spec_strs(pos@),
                    ),
            r is Ok ==> (final(self).spec_pos_vec() == old(self).spec_pos_vec() || spec_pos_texts(
                final(self).spec_pos_vec(),
            ) == spec_pos_texts(old(self).spec_pos_vec()).push(spec_strs(pos@))),
            pos@.len() == POS_DEPTH && old(self).spec_pos_vec().len() < MAX_POS_COUNT ==> r is Ok,
    {
        if pos.len() != POS_DEPTH {
            let joined = join_strs(pos, ",");
            return Err(SudachiError::InvalidPartOfSpeech(joined));
        }
        match self.get_part_of_speech_id(pos) {
            Some(id) => Ok(id),
            None => {
                let new_id = self.pos_list.len();
                if new_id >= MAX_POS_COUNT {
                    return Err(
                        SudachiError::InvalidPartOfSpeech(
                            String::from_str("Too much POS tags registered"),
                        ),
                    );
                }
                let mut components: Vec<String> = Vec::new();
                let mut j: usize = 0;
                while j < POS_DEPTH
                    invariant
                        j <= POS_DEPTH,
                        pos@.len() == POS_DEPTH,
                        spec_strings(components@) =~= spec_strs(pos@).take(j as int),
                    decreases POS_DEPTH - j,
                {
                    let c: String = pos[j].to_owned();
                    assert(c@ == pos@[j as int]@);
                    let ghost before = components@;
                    components.push(c);
                    assert(components@ == before.push(c));
                    assert(spec_strs(pos@).take(j + 1) =~= spec_strs(pos@).take(j as int).push(c@));
                    assert(spec_strings(components@) =~= spec_strings(before).push(c@));
                    j = j + 1;
                }
                proof {
                    assert(spec_strs(pos@).take(POS_DEPTH as int) =~= spec_strs(pos@));
                }
                let ghost before = spec_pos_texts(self.spec_pos_vec());
                self.pos_list.push(components);
                proof {
                    assert(spec_pos_texts(self.spec_pos_vec()) =~= before.push(spec_strs(pos@)));
                    let e = spec_pos_texts(self.spec_pos_vec())[new_id as int];
                    assert forall|k: int| 0 <= k < new_id implies !spec_pos_matches(
                        #[trigger] spec_pos_texts(self.spec_pos_vec())[k],
                        spec_strs(pos@),
                    ) by {
                        assert(spec_pos_texts(self.spec_pos_vec())[k] == before[k]);
                    }
                }
                Ok(new_id as u16)
            },
        }
    }

    /// Components of part of speech `pos_id`.
    pub fn pos_components(&self, pos_id: u16) -> (r: &[String])
        requires
            pos_id < self.spec_pos_vec().len(),
        ensures
            r@ == self.spec_pos_vec()[pos_id as int]@,
    {
        self.pos_list[pos_id as usize].as_slice()
    }
}

impl Grammar {
    /// The parts of speech are those of the public list.
    pub(crate) proof fn lemma_pos_vec(&self)
        ensures
            self.spec_pos_vec() == self.pos_list@,
    {
    }

    /// The grammar of a system dictionary; an error when it has no
    /// connection matrix.
    pub fn from_system_binary(binary_grammar: BinaryGrammar) -> (r: SudachiResult<Grammar>)
        ensures
            r is Ok <==> binary_grammar.connection is Some,
            r matches Ok(g) ==> g.spec_pos_vec() == binary_grammar.pos_list@ && Some(
                g.spec_connection(),
            ) == binary_grammar.connection,
            r matches Err(e) ==> e matches SudachiError::ConnectionMatrixMissing,
    {
        match binary_grammar.connection {
            Some(connection) => Ok(Grammar::from_parts(binary_grammar.pos_list, connection)),
            None => Err(SudachiError::ConnectionMatrixMissing),
        }
    }

    /// Appends the parts of speech of a user dictionary's grammar.
    pub fn merge_binary(&mut self, other: BinaryGrammar)
        ensures
            final(self).spec_pos_vec() == old(self).spec_pos_vec() + other.pos_list@,
            final(self).spec_connection() == old(self).spec_connection(),
    {
        let mut other = other;
        self.pos_list.append(&mut other.pos_list);
    }
}

} // verus!
