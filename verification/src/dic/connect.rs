use vstd::prelude::*;

use crate::dic::read::{read_i16_le, spec_i16_of, spec_u16_le};
use crate::error::{SudachiError, SudachiResult};

verus! {

/// Matrix of connection costs between the right id of a left word and the left
/// id of the right word. Cell `(left, right)` is stored at `right * num_left + left`.
pub struct ConnectionMatrix {
    data: Vec<i16>,
    num_left: usize,
    num_right: usize,
}

/// Costs stored as `n` little-endian `i16` values starting at byte `offset`.
pub open spec fn spec_i16s_at(s: Seq<u8>, offset: int, n: int) -> Seq<i16> {
    Seq::new(n as nat, |k: int| spec_i16_of(spec_u16_le(s, offset + 2 * k)) as i16)
}

/// Position of cell `(left, right)` in a matrix with `num_left` rows.
pub open spec fn spec_cell(num_left: int, left: int, right: int) -> int {
    right * num_left + left
}

proof fn lemma_cell_in_range(num_left: int, num_right: int, left: int, right: int)
    requires
        0 <= left < num_left,
        0 <= right < num_right,
    ensures
        0 <= spec_cell(num_left, left, right) < num_left * num_right,
{
    assert(right * num_left + left < num_left * num_right) by (nonlinear_arith)
        requires
            0 <= left < num_left,
            0 <= right < num_right,
    ;
    assert(0 <= right * num_left) by (nonlinear_arith)
        requires
            0 <= right,
            0 <= num_left,
    ;
}

impl ConnectionMatrix {
    /// The cells, in storage order.
    pub closed spec fn spec_data(&self) -> Seq<i16> {
        self.data@
    }

    /// Number of left ids.
    pub closed spec fn spec_num_left(&self) -> usize {
        self.num_left
    }

    /// Number of right ids.
    pub closed spec fn spec_num_right(&self) -> usize {
        self.num_right
    }

    /// The matrix holds exactly `num_left * num_right` cells.
    pub open spec fn wf(&self) -> bool {
        self.spec_data().len() == self.spec_num_left() * self.spec_num_right()
    }

    /// Cost of cell `(left, right)`.
    pub open spec fn spec_cost(&self, left: int, right: int) -> i16 {
        self.spec_data()[spec_cell(self.spec_num_left() as int, left, right)]
    }

    /// Reads a matrix: two little-endian `i16` dimensions, then the cells.
    pub fn from_bytes(buf: &[u8]) -> (r: SudachiResult<ConnectionMatrix>)
        requires
            buf@.len() >= 4 ==> (spec_i16_of(spec_u16_le(buf@, 0)) as i16 as usize) * (spec_i16_of(
                spec_u16_le(buf@, 2),
            ) as i16 as usize) * 2 + 4 <= usize::MAX,
        ensures
            r is Ok <==> buf@.len() >= 4 && 4 + 2 * (spec_i16_of(spec_u16_le(buf@, 0)) as i16 as usize)
                * (spec_i16_of(spec_u16_le(buf@, 2)) as i16 as usize) <= buf@.len(),
            r matches Ok(m) ==> {
                &&& m.wf()
                &&& m.spec_num_left() == spec_i16_of(spec_u16_le(buf@, 0)) as i16 as usize
                &&& m.spec_num_right() == spec_i16_of(spec_u16_le(buf@, 2)) as i16 as usize
                &&& m.spec_data() == spec_i16s_at(
                    buf@,
                    4,
                    m.spec_num_left() * m.spec_num_right(),
                )
            },
    {
        let (num_left, p1) = read_i16_le(buf, 0)?;
        let (num_right, p2) = read_i16_le(buf, p1)?;
        Self::from_offset_size(buf, p2, num_left as usize, num_right as usize)
    }

    /// Reads a `num_left` by `num_right` matrix whose cells start at byte `offset`.
    pub fn from_offset_size(data: &[u8], offset: usize, num_left: usize, num_right: usize) -> (r:
        SudachiResult<ConnectionMatrix>)
        requires
            offset + num_left * num_right * 2 <= usize::MAX,
        ensures
            r is Ok <==> offset + 2 * num_left * num_right <= data@.len(),
            r matches Ok(m) ==> {
                &&& m.wf()
                &&& m.spec_num_left() == num_left
                &&& m.spec_num_right() == num_right
                &&& m.spec_data() == spec_i16s_at(data@, offset as int, num_left * num_right)
            },
    {
        proof {
            assert(num_left * num_right * 2 == 2 * num_left * num_right) by (nonlinear_arith);
            assert(0 <= num_left * num_right) by (nonlinear_arith);
        }
        let size = num_left * num_right;
        let end = offset + size * 2;
        if end > data.len() {
            return Err(SudachiError::InvalidDictionaryGrammar);
        }
        let mut cells: Vec<i16> = Vec::with_capacity(size);
        let mut k: usize = 0;
        while k < size
            invariant
                k <= size,
                end == offset + size * 2,
                end <= data@.len(),
                cells@ =~= spec_i16s_at(data@, offset as int, k as int),
            decreases size - k,
        {
            let (v, _) = read_i16_le(data, offset + 2 * k).unwrap();
            cells.push(v);
            k = k + 1;
        }
        Ok(ConnectionMatrix { data: cells, num_left, num_right })
    }

    /// Cost of connecting a word with right id `left` to a word with left id `right`.
    pub fn cost(&self, left: u16, right: u16) -> (r: i16)
        requires
            self.wf(),
            left < self.spec_num_left(),
            right < self.spec_num_right(),
        ensures
            r == self.spec_cost(left as int, right as int),
    {
        proof {
            lemma_cell_in_range(self.num_left as int, self.num_right as int, left as int, right as int);
        }
        let _n = self.data.len();
        self.data[right as usize * self.num_left + left as usize]
    }

    /// Sets the cost of cell `(left, right)`.
    pub fn update(&mut self, left: u16, right: u16, value: i16)
        requires
            old(self).wf(),
            left < old(self).spec_num_left(),
            right < old(self).spec_num_right(),
        ensures
            final(self).wf(),
            final(self).spec_num_left() == old(self).spec_num_left(),
            final(self).spec_num_right() == old(self).spec_num_right(),
            final(self).spec_data() == old(self).spec_data().update(
                spec_cell(old(self).spec_num_left() as int, left as int, right as int),
                value,
            ),
    {
        proof {
            lemma_cell_in_range(self.num_left as int, self.num_right as int, left as int, right as int);
        }
        let _n = self.data.len();
        let idx = right as usize * self.num_left + left as usize;
        self.data.set(idx, value);
    }

    /// Number of left ids.
    pub fn num_left(&self) -> (r: usize)
        ensures
            r == self.spec_num_left(),
    {
        self.num_left
    }

    /// Number of right ids.
    pub fn num_right(&self) -> (r: usize)
        ensures
            r == self.spec_num_right(),
    {
        self.num_right
    }

    /// The matrix with no cells.
    pub fn empty() -> (r: ConnectionMatrix)
        ensures
            r.wf(),
            r.spec_num_left() == 0,
            r.spec_num_right() == 0,
    {
        ConnectionMatrix { data: Vec::new(), num_left: 0, num_right: 0 }
    }
}

} // verus!
