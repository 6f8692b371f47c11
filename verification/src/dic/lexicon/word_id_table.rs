//! Table from trie values to the lists of word ids that share an index form.

use vstd::prelude::*;
use vstd::slice::slice_to_vec;

use crate::dic::read::{spec_u32s_at, u32_array_at};
use crate::error::SudachiResult;

verus! {

/// Word id lists, each stored as a count byte followed by that many
/// little-endian `u32` word ids; `offset` is where the table starts.
pub struct WordIdTable {
    bytes: Vec<u8>,
    size: u32,
    offset: usize,
}

/// The word ids of the list stored at `offset + index` in `bytes`, when it
/// lies inside `bytes`.
pub open spec fn spec_word_ids_at(bytes: Seq<u8>, pos: int) -> Option<Seq<u32>> {
    if 0 <= pos < bytes.len() && pos + 1 + 4 * bytes[pos] <= bytes.len() {
        Some(spec_u32s_at(bytes, pos + 1, bytes[pos] as int))
    } else {
        None
    }
}

impl WordIdTable {
    /// Bytes the table reads from.
    pub closed spec fn spec_bytes(&self) -> Seq<u8> {
        self.bytes@
    }

    /// Declared size of the table in bytes.
    pub closed spec fn spec_size(&self) -> u32 {
        self.size
    }

    /// Where the table starts in its bytes.
    pub closed spec fn spec_offset(&self) -> usize {
        self.offset
    }

    /// A table of `size` bytes starting at `offset` in `bytes`.
    pub fn new(bytes: &[u8], size: u32, offset: usize) -> (r: WordIdTable)
        ensures
            r.spec_bytes() == bytes@,
            r.spec_size() == size,
            r.spec_offset() == offset,
    {
        WordIdTable { bytes: slice_to_vec(bytes), size, offset }
    }

    /// Bytes taken by the table together with its 4-byte size header.
    pub fn storage_size(&self) -> (r: usize)
        requires
            4 + self.spec_size() <= usize::MAX,
        ensures
            r == 4 + self.spec_size(),
    {
        4 + self.size as usize
    }

    /// Word ids of the list at `index` in the table; an error when the list
    /// does not lie inside the bytes.
    pub fn entries(&self, index: usize) -> (r: SudachiResult<Vec<u32>>)
        ensures
            r is Ok <==> (self.spec_offset() + index <= usize::MAX && spec_word_ids_at(
                self.spec_bytes(),
                self.spec_offset() + index,
            ) is Some),
            r matches Ok(v) ==> Some(v@) == spec_word_ids_at(
                self.spec_bytes(),
                self.spec_offset() + index,
            ),
    {
        if index > usize::MAX - self.offset {
            return Err(crate::error::SudachiError::InvalidDataFormat(index));
        }
        let (v, _) = u32_array_at(self.bytes.as_slice(), self.offset + index)?;
        Ok(v)
    }

    /// Iterator over the word ids of the list at `index`.
    pub fn entries_iter(&self, index: usize) -> (r: SudachiResult<WordIdIter>)
        ensures
            r is Ok <==> (self.spec_offset() + index <= usize::MAX && spec_word_ids_at(
                self.spec_bytes(),
                self.spec_offset() + index,
            ) is Some),
            r matches Ok(it) ==> Some(it.remaining()) == spec_word_ids_at(
                self.spec_bytes(),
                self.spec_offset() + index,
            ),
    {
        let data = self.entries(index)?;
        Ok(WordIdIter { data, index: 0 })
    }
}

/// Iterator over one list of word ids.
pub struct WordIdIter {
    data: Vec<u32>,
    index: usize,
}

impl WordIdIter {
    #[verifier::type_invariant]
    spec fn inv(&self) -> bool {
        self.index <= self.data@.len()
    }

    /// Word ids not yet returned.
    pub closed spec fn remaining(&self) -> Seq<u32> {
        self.data@.skip(self.index as int)
    }

    /// The next word id, or `None` when the list is exhausted.
    pub fn next(&mut self) -> (r: Option<u32>)
        ensures
            old(self).remaining().len() == 0 ==> r is None && final(self).remaining() == old(
                self,
            ).remaining(),
            old(self).remaining().len() > 0 ==> r == Some(old(self).remaining()[0])
                && final(self).remaining() == old(self).remaining().drop_first(),
    {
        proof {
            use_type_invariant(&*self);
        }
        if self.index >= self.data.len() {
            return None;
        }
        let v = self.data[self.index];
        self.index = self.index + 1;
        proof {
            assert(self.data@.skip(self.index as int) =~= old(self).data@.skip(
                old(self).index as int,
            ).drop_first());
        }
        Some(v)
    }
}

} // verus!
