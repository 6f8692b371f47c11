use vstd::prelude::*;

use crate::dic::read::{read_u64_le, spec_u64_le};

verus! {

/// Connection ids and cost of a word, packed in 64 bits: left id in bits
/// 0-15, right id in bits 16-31, cost in bits 32-47.
#[derive(Debug, Clone, Copy, PartialEq, Eq, Structural)]
pub struct WordParameter(pub u64);

/// Left connection id of packed parameters.
pub open spec fn spec_left_id(x: u64) -> i16 {
    (x & 0xffff) as u16 as i16
}

/// Right connection id of packed parameters.
pub open spec fn spec_right_id(x: u64) -> i16 {
    ((x >> 16u64) & 0xffff) as u16 as i16
}

/// Cost of packed parameters.
pub open spec fn spec_cost_of(x: u64) -> i16 {
    ((x >> 32u64) & 0xffff) as u16 as i16
}

/// Packed parameters `x` with the cost replaced by `cost`.
pub open spec fn spec_with_cost(x: u64, cost: i16) -> u64 {
    ((cost as u64) << 32u64) | (x & 0xffff_ffff)
}

/// Replacing the cost keeps the connection ids and stores the new cost.
pub proof fn lemma_with_cost(x: u64, cost: i16)
    ensures
        spec_cost_of(spec_with_cost(x, cost)) == cost,
        spec_left_id(spec_with_cost(x, cost)) == spec_left_id(x),
        spec_right_id(spec_with_cost(x, cost)) == spec_right_id(x),
{
    assert(((((((cost as u64) << 32u64) | (x & 0xffff_ffff)) >> 32u64) & 0xffff) as u16 as i16)
        == cost) by (bit_vector);
    assert(((((cost as u64) << 32u64) | (x & 0xffff_ffff)) & 0xffff) as u16 as i16 == (x
        & 0xffff) as u16 as i16) by (bit_vector);
    assert((((((cost as u64) << 32u64) | (x & 0xffff_ffff)) >> 16u64) & 0xffff) as u16 as i16
        == ((x >> 16u64) & 0xffff) as u16 as i16) by (bit_vector);
}

impl WordParameter {
    /// The left connection id.
    pub fn left_id(&self) -> (r: i16)
        ensures
            r == spec_left_id(self.0),
    {
        (self.0 & 0xffff) as u16 as i16
    }

    /// The right connection id.
    pub fn right_id(&self) -> (r: i16)
        ensures
            r == spec_right_id(self.0),
    {
        ((self.0 >> 16) & 0xffff) as u16 as i16
    }

    /// The cost of the word.
    pub fn cost(&self) -> (r: i16)
        ensures
            r == spec_cost_of(self.0),
    {
        ((self.0 >> 32) & 0xffff) as u16 as i16
    }

    /// The same parameters with the given cost.
    pub fn with_cost(&self, cost: i16) -> (r: WordParameter)
        ensures
            r.0 == spec_with_cost(self.0, cost),
            spec_cost_of(r.0) == cost,
            spec_left_id(r.0) == spec_left_id(self.0),
            spec_right_id(r.0) == spec_right_id(self.0),
    {
        proof {
            lemma_with_cost(self.0, cost);
        }
        WordParameter(((cost as u64) << 32) | (self.0 & 0xffff_ffff))
    }
}

/// Parameters of all words of a lexicon, one 64-bit value per entry.
pub struct WordParams {
    data: Vec<u64>,
}

/// `n` little-endian `u64` values stored at the start of `s`.
pub open spec fn spec_u64s(s: Seq<u8>, n: int) -> Seq<u64> {
    Seq::new(n as nat, |j: int| spec_u64_le(s, 8 * j) as u64)
}

impl WordParams {
    /// The packed parameters, by entry id.
    pub closed spec fn spec_data(&self) -> Seq<u64> {
        self.data@
    }

    /// Parameters stored as complete little-endian `u64` values in `bytes`.
    pub fn from_bytes(bytes: &[u8]) -> (r: WordParams)
        ensures
            r.spec_data() == spec_u64s(bytes@, bytes@.len() as int / 8),
    {
        let blen = bytes.len();
        let n = blen / 8;
        let mut data: Vec<u64> = Vec::with_capacity(n);
        let mut j: usize = 0;
        while j < n
            invariant
                j <= n,
                blen == bytes@.len(),
                n == blen / 8,
                data@ =~= spec_u64s(bytes@, j as int),
            decreases n - j,
        {
            let (v, _) = read_u64_le(bytes, 8 * j).unwrap();
            data.push(v);
            j = j + 1;
        }
        WordParams { data }
    }

    /// Number of entries.
    pub fn size(&self) -> (r: u32)
        requires
            self.spec_data().len() <= u32::MAX,
        ensures
            r == self.spec_data().len(),
    {
        self.data.len() as u32
    }

    /// Parameters of entry `entry_id`.
    pub fn get_params(&self, entry_id: u32) -> (r: WordParameter)
        requires
            entry_id < self.spec_data().len(),
        ensures
            r.0 == self.spec_data()[entry_id as int],
    {
        WordParameter(self.data[entry_id as usize])
    }

    /// Parameters of entry `entry_id`, or `None` when there is no such entry.
    pub fn get_params_checked(&self, entry_id: u32) -> (r: Option<WordParameter>)
        ensures
            r is Some <==> entry_id < self.spec_data().len(),
            r matches Some(p) ==> p.0 == self.spec_data()[entry_id as int],
    {
        if (entry_id as usize) < self.data.len() {
            Some(WordParameter(self.data[entry_id as usize]))
        } else {
            None
        }
    }

    /// Cost of entry `entry_id`.
    pub fn get_cost(&self, entry_id: u32) -> (r: i16)
        requires
            entry_id < self.spec_data().len(),
        ensures
            r == spec_cost_of(self.spec_data()[entry_id as int]),
    {
        self.get_params(entry_id).cost()
    }

    /// Replaces the cost of entry `entry_id`, keeping its connection ids.
    pub fn set_cost(&mut self, entry_id: u32, cost: i16)
        requires
            entry_id < old(self).spec_data().len(),
        ensures
            final(self).spec_data() == old(self).spec_data().update(
                entry_id as int,
                spec_with_cost(old(self).spec_data()[entry_id as int], cost),
            ),
            spec_cost_of(final(self).spec_data()[entry_id as int]) == cost,
    {
        let params = self.get_params(entry_id);
        let updated = params.with_cost(cost);
        self.data.set(entry_id as usize, updated.0);
    }
}

} // verus!
