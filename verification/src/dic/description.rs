//! The description block at the start of a binary dictionary: magic bytes,
//! format version, creation time, free-form strings, entry counts and the
//! table of the other blocks.

use vstd::prelude::*;
use vstd::slice::slice_subrange;

use crate::dic::build::primitives::str_eq;
use crate::dic::read::{
    read_u64_le, spec_leb_len, spec_leb_value, spec_u64_le, spec_utf8_string_at, utf8_string_at,
    varint32_at, varint64_at,
};
use crate::error::{SudachiError, SudachiResult};

verus! {

/// Errors of the description block of a binary dictionary.
#[derive(Debug, Clone, PartialEq, Eq, Structural)]
pub enum DescriptionError {
    /// The description could not be parsed.
    CannotParse,
    /// The data does not start with the expected magic bytes.
    InvalidMagicBytes,
    /// The data is a dictionary of the legacy format.
    V0Version,
    /// The description has an unknown version.
    InvalidVersion(u64),
    /// A block named in the description is missing.
    DictionaryPartNotFound,
    /// A block extends beyond the data: `start..end`.
    DictionaryPartOutOfRange(usize, usize),
}

/// Parts of a binary dictionary, each stored as one block.
#[derive(Debug, Clone, Copy, PartialEq, Eq, Structural)]
pub enum Block {
    /// Connection cost matrix.
    ConnectionMatrix,
    /// Part of speech table.
    POSTable,
    /// Trie index.
    TRIEIndex,
    /// Lists of entries per index form.
    WordPointers,
    /// Word entries.
    Entries,
    /// Strings of the lexicon.
    Strings,
    /// Reference id table kept for dictionary building.
    ReferenceIdTable,
}

/// Name a block carries in the block table.
pub open spec fn spec_block_name(b: Block) -> Seq<char> {
    match b {
        Block::ConnectionMatrix => seq!['C', 'o', 'n', 'n', 'M', 'a', 't', 'r', 'i', 'x'],
        Block::POSTable => seq!['P', 'O', 'S'],
        Block::TRIEIndex => seq!['T', 'r', 'i', 'e', 'I', 'n', 'd', 'e', 'x'],
        Block::WordPointers => seq![
            'W',
            'o',
            'r',
            'd',
            'P',
            'o',
            'i',
            'n',
            't',
            'e',
            'r',
            's',
        ],
        Block::Entries => seq!['E', 'n', 't', 'r', 'i', 'e', 's'],
        Block::Strings => seq!['S', 't', 'r', 'i', 'n', 'g', 's'],
        Block::ReferenceIdTable => seq![
            'R',
            'e',
            'f',
            'e',
            'r',
            'e',
            'n',
            'c',
            'e',
            'I',
            'd',
            'T',
            'a',
            'b',
            'l',
            'e',
        ],
    }
}

impl Block {
    /// Name of the block in the block table.
    pub fn as_string_representation(&self) -> (r: &'static str)
        ensures
            r@ == spec_block_name(*self),
    {
        match self {
            Block::ConnectionMatrix => {
                let r = "ConnMatrix";
                proof {
                    reveal_strlit("ConnMatrix");
                }
                r
            },
            Block::POSTable => {
                let r = "POS";
                proof {
                    reveal_strlit("POS");
                }
                r
            },
            Block::TRIEIndex => {
                let r = "TrieIndex";
                proof {
                    reveal_strlit("TrieIndex");
                }
                r
            },
            Block::WordPointers => {
                let r = "WordPointers";
                proof {
                    reveal_strlit("WordPointers");
                }
                r
            },
            Block::Entries => {
                let r = "Entries";
                proof {
                    reveal_strlit("Entries");
                }
                r
            },
            Block::Strings => {
                let r = "Strings";
                proof {
                    reveal_strlit("Strings");
                }
                r
            },
            Block::ReferenceIdTable => {
                let r = "ReferenceIdTable";
                proof {
                    reveal_strlit("ReferenceIdTable");
                }
                r
            },
        }
    }
}

/// A LEB128 number of at most `max` bytes at `p` not above `limit`, and the
/// position after it.
pub open spec fn spec_varint_at(s: Seq<u8>, p: int, max: nat, limit: int) -> Option<(int, int)> {
    match spec_leb_len(s, p, max) {
        Some(n) => if spec_leb_value(s, p, n) <= limit {
            Some((spec_leb_value(s, p, n), p + n))
        } else {
            None
        },
        None => None,
    }
}

/// A block table row at `p`: name, start and size, and the position after it.
pub open spec fn spec_block_at(s: Seq<u8>, p: int) -> Option<((Seq<char>, int, int), int)> {
    match spec_utf8_string_at(s, p) {
        None => None,
        Some((name, p1)) => match spec_varint_at(s, p1, 10, u64::MAX as int) {
            None => None,
            Some((start, p2)) => match spec_varint_at(s, p2, 10, u64::MAX as int) {
                None => None,
                Some((size, p3)) => Some(((name, start, size), p3)),
            },
        },
    }
}

/// `count` block table rows at `p`, and the position after them.
pub open spec fn spec_blocks_at(s: Seq<u8>, p: int, count: nat) -> Option<
    (Seq<(Seq<char>, int, int)>, int),
>
    decreases count,
{
    if count == 0 {
        Some((Seq::empty(), p))
    } else {
        match spec_block_at(s, p) {
            None => None,
            Some((b, p1)) => match spec_blocks_at(s, p1, (count - 1) as nat) {
                None => None,
                Some((bs, p2)) => Some((seq![b] + bs, p2)),
            },
        }
    }
}

/// Abstract content of a description.
pub ghost struct DescriptionModel {
    pub creation_time: int,
    pub flags: int,
    pub comment: Seq<char>,
    pub signature: Seq<char>,
    pub reference: Seq<char>,
    pub num_indexed_entries: int,
    pub num_total_entries: int,
    pub blocks: Seq<(Seq<char>, int, int)>,
}

/// Body of a version 1 description at `p`: creation time and flags (8 bytes
/// each), comment, signature and reference (UTF-8 with a LEB128 length), the
/// numbers of indexed and of all entries and the block count (LEB128 `u32`),
/// then the block table.
pub open spec fn spec_load_v1(s: Seq<u8>, p: int) -> Option<DescriptionModel> {
    if p + 16 > s.len() {
        None
    } else {
        match spec_utf8_string_at(s, p + 16) {
            None => None,
            Some((comment, p1)) => match spec_utf8_string_at(s, p1) {
                None => None,
                Some((signature, p2)) => match spec_utf8_string_at(s, p2) {
                    None => None,
                    Some((reference, p3)) => match spec_varint_at(s, p3, 5, u32::MAX as int) {
                        None => None,
                        Some((indexed, p4)) => match spec_varint_at(s, p4, 5, u32::MAX as int) {
                            None => None,
                            Some((total, p5)) => match spec_varint_at(s, p5, 5, u32::MAX as int) {
                                None => None,
                                Some((count, p6)) => match spec_blocks_at(s, p6, count as nat) {
                                    None => None,
                                    Some((blocks, _)) => Some(
                                        DescriptionModel {
                                            creation_time: spec_u64_le(s, p),
                                            flags: spec_u64_le(s, p + 8),
                                            comment,
                                            signature,
                                            reference,
                                            num_indexed_entries: indexed,
                                            num_total_entries: total,
                                            blocks,
                                        },
                                    ),
                                },
                            },
                        },
                    },
                },
            },
        }
    }
}

/// The magic bytes `SudachiBinaryDic`.
pub open spec fn spec_magic() -> Seq<u8> {
    seq![83u8, 117, 100, 97, 99, 104, 105, 66, 105, 110, 97, 114, 121, 68, 105, 99]
}

/// Versions that the legacy format stores in its first 8 bytes.
pub open spec fn spec_is_v0_version(v: int) -> bool {
    v == 0x7366_d3f1_8bd1_11e7 || v == 0xce9f_011a_9239_4434 || v == 0xa50f_3118_8bd2_11e7 || v
        == 0x9fde_b5a9_0168_d868 || v == 0xca98_1175_6ff6_4fb0
}

/// The description at the start of `s`: not of the legacy format, the magic
/// bytes, version 1 as 8 bytes, then a version 1 body.
pub open spec fn spec_load(s: Seq<u8>) -> Option<DescriptionModel> {
    if s.len() < 8 || spec_is_v0_version(spec_u64_le(s, 0)) {
        None
    } else if s.len() < 16 || s.subrange(0, 16) != spec_magic() {
        None
    } else if s.len() < 24 || spec_u64_le(s, 16) != 1 {
        None
    } else {
        spec_load_v1(s, 24)
    }
}

/// Index of the first row of `blocks` named `name`.
pub open spec fn spec_find_block(blocks: Seq<(Seq<char>, int, int)>, name: Seq<char>) -> Option<
    int,
> {
    if exists|i: int| 0 <= i < blocks.len() && (#[trigger] blocks[i]).0 == name {
        Some(
            choose|i: int|
                0 <= i < blocks.len() && (#[trigger] blocks[i]).0 == name && forall|j: int|
                    0 <= j < i ==> (#[trigger] blocks[j]).0 != name,
        )
    } else {
        None
    }
}

/// One row of the block table.
#[derive(Debug, Clone)]
pub struct BlockInfo {
    name: String,
    start: u64,
    size: u64,
}

impl View for BlockInfo {
    type V = (Seq<char>, int, int);

    closed spec fn view(&self) -> (Seq<char>, int, int) {
        (self.name@, self.start as int, self.size as int)
    }
}

impl BlockInfo {
    /// Reads a row at `pos`; returns it and the position after it.
    pub fn parse_at(buf: &[u8], pos: usize) -> (r: SudachiResult<(BlockInfo, usize)>)
        requires
            pos <= buf@.len(),
        ensures
            r is Ok <==> spec_block_at(buf@, pos as int) is Some,
            r matches Ok((b, np)) ==> spec_block_at(buf@, pos as int) == Some((b@, np as int)),
    {
        let (name, p1) = utf8_string_at(buf, pos)?;
        let (start, p2) = varint64_at(buf, p1)?;
        let (size, p3) = varint64_at(buf, p2)?;
        Ok((BlockInfo { name, start, size }, p3))
    }

    /// Reads a row at the start of `buf`; returns the rest and the row.
    pub fn parse(buf: &[u8]) -> (r: SudachiResult<(&[u8], BlockInfo)>)
        ensures
            r is Ok <==> spec_block_at(buf@, 0) is Some,
            r matches Ok((rest, b)) ==> {
                let (m, np) = spec_block_at(buf@, 0)->0;
                &&& b@ == m
                &&& rest@ == buf@.skip(np)
            },
    {
        let (b, np) = Self::parse_at(buf, 0)?;
        Ok((slice_subrange(buf, np, buf.len()), b))
    }

    /// Name of the block.
    pub fn name(&self) -> (r: &str)
        ensures
            r@ == self@.0,
    {
        self.name.as_str()
    }

    /// Start of the block in the dictionary.
    pub fn start(&self) -> (r: u64)
        ensures
            r == self@.1,
    {
        self.start
    }

    /// Size of the block.
    pub fn size(&self) -> (r: u64)
        ensures
            r == self@.2,
    {
        self.size
    }

    /// End of the block in the dictionary.
    pub fn end(&self) -> (r: u64)
        requires
            self@.1 + self@.2 <= u64::MAX,
        ensures
            r == self@.1 + self@.2,
    {
        self.start + self.size
    }
}

/// The description block of a binary dictionary.
#[derive(Debug, Clone)]
pub struct Description {
    creation_time: u64,
    comment: String,
    signature: String,
    reference: String,
    blocks: Vec<BlockInfo>,
    flags: u64,
    num_total_entries: u32,
    num_indexed_entries: u32,
}

/// Abstract rows of block infos.
pub open spec fn spec_block_rows(v: Seq<BlockInfo>) -> Seq<(Seq<char>, int, int)> {
    v.map_values(|b: BlockInfo| b@)
}

impl View for Description {
    type V = DescriptionModel;

    closed spec fn view(&self) -> DescriptionModel {
        DescriptionModel {
            creation_time: self.creation_time as int,
            flags: self.flags as int,
            comment: self.comment@,
            signature: self.signature@,
            reference: self.reference@,
            num_indexed_entries: self.num_indexed_entries as int,
            num_total_entries: self.num_total_entries as int,
            blocks: spec_block_rows(self.blocks@),
        }
    }
}

/// The magic bytes `SudachiBinaryDic`.
fn magic_bytes() -> (r: Vec<u8>)
    ensures
        r@ == spec_magic(),
{
    let r = vec![83u8, 117, 100, 97, 99, 104, 105, 66, 105, 110, 97, 114, 121, 68, 105, 99];
    assert(r@ =~= spec_magic());
    r
}

/// Whether `v` is a version of the legacy format.
fn is_v0_version(v: u64) -> (r: bool)
    ensures
        r == spec_is_v0_version(v as int),
{
    v == 0x7366_d3f1_8bd1_11e7 || v == 0xce9f_011a_9239_4434 || v == 0xa50f_3118_8bd2_11e7 || v
        == 0x9fde_b5a9_0168_d868 || v == 0xca98_1175_6ff6_4fb0
}

/// Reads `count` block table rows at `pos`.
fn parse_blocks(buf: &[u8], pos: usize, count: u32) -> (r: SudachiResult<(Vec<BlockInfo>, usize)>)
    requires
        pos <= buf@.len(),
    ensures
        r is Ok <==> spec_blocks_at(buf@, pos as int, count as nat) is Some,
        r matches Ok((v, np)) ==> spec_blocks_at(buf@, pos as int, count as nat) == Some(
            (spec_block_rows(v@), np as int),
        ),
{
    let mut out: Vec<BlockInfo> = Vec::new();
    let mut p = pos;
    let mut i: u32 = 0;
    proof {
        assert(spec_block_rows(out@) =~= Seq::<(Seq<char>, int, int)>::empty());
        match spec_blocks_at(buf@, pos as int, count as nat) {
            Some((bs, e)) => {
                assert(Seq::<(Seq<char>, int, int)>::empty() + bs =~= bs);
            },
            None => {},
        }
    }
    while i < count
        invariant
            i <= count,
            p <= buf@.len(),
            spec_blocks_at(buf@, pos as int, count as nat) == match spec_blocks_at(
                buf@,
                p as int,
                (count - i) as nat,
            ) {
                None => None,
                Some((bs, e)) => Some((spec_block_rows(out@) + bs, e)),
            },
        decreases count - i,
    {
        let (b, np) = match BlockInfo::parse_at(buf, p) {
            Ok(x) => x,
            Err(e) => {
                return Err(e);
            },
        };
        proof {
            match spec_blocks_at(buf@, np as int, (count - i - 1) as nat) {
                Some((bs, e)) => {
                    assert(spec_block_rows(out@.push(b)) =~= spec_block_rows(out@).push(b@));
                    assert(spec_block_rows(out@) + (seq![b@] + bs) =~= spec_block_rows(out@).push(
                        b@,
                    ) + bs);
                },
                None => {},
            }
        }
        out.push(b);
        p = np;
        i = i + 1;
        proof {
            assert(spec_blocks_at(buf@, np as int, (count - i) as nat) is Some ==> np <= buf@.len())
                by {
                reveal_with_fuel(spec_blocks_at, 1);
            }
        }
    }
    proof {
        assert(spec_block_rows(out@) + Seq::<(Seq<char>, int, int)>::empty() =~= spec_block_rows(
            out@,
        ));
    }
    Ok((out, p))
}

impl Description {
    /// Reads the description at the start of `buf`. Errors: the legacy
    /// format, wrong magic bytes, a version other than 1, or malformed data.
    pub fn load(buf: &[u8]) -> (r: SudachiResult<Description>)
        ensures
            r is Ok <==> spec_load(buf@) is Some,
            r matches Ok(d) ==> Some(d@) == spec_load(buf@),
            (r matches Err(SudachiError::Description(DescriptionError::V0Version))) <==> (
            buf@.len() >= 8 && spec_is_v0_version(spec_u64_le(buf@, 0))),
            (r matches Err(SudachiError::Description(DescriptionError::InvalidMagicBytes))) <==> (
            buf@.len() >= 16 && !spec_is_v0_version(spec_u64_le(buf@, 0)) && buf@.subrange(0, 16)
                != spec_magic()),
            (r matches Err(SudachiError::Description(DescriptionError::InvalidVersion(v)))) <==> (
            buf@.len() >= 24 && !spec_is_v0_version(spec_u64_le(buf@, 0)) && buf@.subrange(0, 16)
                == spec_magic() && spec_u64_le(buf@, 16) != 1),
            r matches Err(SudachiError::Description(DescriptionError::InvalidVersion(v))) ==> v
                == spec_u64_le(buf@, 16),
    {
        let first = match read_u64_le(buf, 0) {
            Ok((v, _)) => v,
            Err(_) => {
                return Err(SudachiError::InvalidDataFormat(0));
            },
        };
        if is_v0_version(first) {
            return Err(SudachiError::Description(DescriptionError::V0Version));
        }
        if buf.len() < 16 {
            return Err(SudachiError::InvalidDataFormat(0));
        }
        let magic = magic_bytes();
        let ghost m = magic@;
        let mut same = true;
        let mut i: usize = 0;
        while i < 16
            invariant
                i <= 16,
                16 <= buf@.len(),
                magic@ == m,
                m.len() == 16,
                same == (forall|k: int| 0 <= k < i ==> buf@[k] == m[k]),
            decreases 16 - i,
        {
            if buf[i] != magic[i] {
                same = false;
            }
            i = i + 1;
        }
        if !same {
            proof {
                let k = choose|k: int| 0 <= k < 16 && buf@[k] != m[k];
                assert(buf@.subrange(0, 16)[k] != m[k]);
            }
            return Err(SudachiError::Description(DescriptionError::InvalidMagicBytes));
        }
        proof {
            assert(buf@.subrange(0, 16) =~= m);
        }
        let version = match read_u64_le(buf, 16) {
            Ok((v, _)) => v,
            Err(_) => {
                return Err(SudachiError::InvalidDataFormat(16));
            },
        };
        if version != 1 {
            return Err(SudachiError::Description(DescriptionError::InvalidVersion(version)));
        }
        Self::load_v1(buf, 24)
    }

    /// Reads a version 1 body at `pos`; malformed data is reported at `pos`.
    fn load_v1(buf: &[u8], pos: usize) -> (r: SudachiResult<Description>)
        requires
            pos <= buf@.len(),
        ensures
            r is Ok <==> spec_load_v1(buf@, pos as int) is Some,
            r matches Ok(d) ==> Some(d@) == spec_load_v1(buf@, pos as int),
            r matches Err(e) ==> e matches SudachiError::InvalidDataFormat(_),
    {
        match Self::read_v1(buf, pos) {
            Ok(d) => Ok(d),
            Err(_) => Err(SudachiError::InvalidDataFormat(pos)),
        }
    }

    /// Reads a version 1 body at `pos`.
    fn read_v1(buf: &[u8], pos: usize) -> (r: SudachiResult<Description>)
        requires
            pos <= buf@.len(),
        ensures
            r is Ok <==> spec_load_v1(buf@, pos as int) is Some,
            r matches Ok(d) ==> Some(d@) == spec_load_v1(buf@, pos as int),
    {
        let (creation_time, p1) = read_u64_le(buf, pos)?;
        let (flags, p2) = read_u64_le(buf, p1)?;
        let (comment, p3) = utf8_string_at(buf, p2)?;
        let (signature, p4) = utf8_string_at(buf, p3)?;
        let (reference, p5) = utf8_string_at(buf, p4)?;
        let (num_indexed_entries, p6) = varint32_at(buf, p5)?;
        let (num_total_entries, p7) = varint32_at(buf, p6)?;
        let (count, p8) = varint32_at(buf, p7)?;
        let (blocks, _) = parse_blocks(buf, p8, count)?;
        Ok(
            Description {
                creation_time,
                comment,
                signature,
                reference,
                blocks,
                flags,
                num_total_entries,
                num_indexed_entries,
            },
        )
    }

    /// Creation time, in seconds since the Unix epoch.
    pub fn creation_time(&self) -> (r: u64)
        ensures
            r == self@.creation_time,
    {
        self.creation_time
    }

    /// Free-form description text.
    pub fn comment(&self) -> (r: &str)
        ensures
            r@ == self@.comment,
    {
        self.comment.as_str()
    }

    /// Signature of the dictionary.
    pub fn signature(&self) -> (r: &str)
        ensures
            r@ == self@.signature,
    {
        self.signature.as_str()
    }

    /// Signature of the system dictionary a user dictionary was built for;
    /// empty for a system dictionary.
    pub fn reference(&self) -> (r: &str)
        ensures
            r@ == self@.reference,
    {
        self.reference.as_str()
    }

    /// Whether this is a system dictionary: it references no other.
    pub fn is_system_dictionary(&self) -> (r: bool)
        ensures
            r == (self@.reference.len() == 0),
    {
        self.reference.as_str().is_empty()
    }

    /// Whether this is a user dictionary: it references a system dictionary.
    pub fn is_user_dictionary(&self) -> (r: bool)
        ensures
            r == (self@.reference.len() != 0),
    {
        !self.reference.as_str().is_empty()
    }

    /// The block table.
    pub fn blocks(&self) -> (r: &[BlockInfo])
        ensures
            spec_block_rows(r@) == self@.blocks,
    {
        self.blocks.as_slice()
    }

    /// The bytes of `block` in `buf`: `None` when the table has no such
    /// block, an error when it extends beyond `buf`.
    pub fn slice_or_none<'a>(&self, buf: &'a [u8], block: Block) -> (r: SudachiResult<
        Option<&'a [u8]>,
    >)
        ensures
            match spec_find_block(self@.blocks, spec_block_name(block)) {
                None => r matches Ok(None),
                Some(i) => {
                    let (_, start, size) = self@.blocks[i];
                    if start + size <= buf@.len() {
                        r matches Ok(Some(s)) && s@ == buf@.subrange(start, start + size)
                    } else {
                        r matches Err(
                            SudachiError::Description(
                                DescriptionError::DictionaryPartOutOfRange(_, _),
                            ),
                        )
                    }
                },
            },
    {
        let name = block.as_string_representation();
        let n = self.blocks.len();
        let mut i: usize = 0;
        while i < n
            invariant
                i <= n,
                n == self.blocks@.len(),
                name@ == spec_block_name(block),
                forall|j: int| 0 <= j < i ==> (#[trigger] self.blocks@[j])@.0 != name@,
            decreases n - i,
        {
            let b = &self.blocks[i];
            if str_eq(b.name.as_str(), name) {
                let ghost rows = self@.blocks;
                proof {
                    assert(rows[i as int] == b@);
                    assert forall|j: int| 0 <= j < i implies (#[trigger] rows[j]).0 != name@ by {
                        assert(rows[j] == self.blocks@[j]@);
                    }
                    let k = spec_find_block(rows, name@)->0;
                    assert(0 <= k < rows.len() && rows[k].0 == name@);
                    if k < i {
                        assert(rows[k] == self.blocks@[k]@);
                    }
                    if k > i {
                        assert(rows[i as int].0 == name@);
                    }
                }
                let start = b.start;
                let size = b.size;
                let blen = buf.len() as u64;
                if start > blen || size > blen - start {
                    let end = if size > u64::MAX - start {
                        u64::MAX
                    } else {
                        start + size
                    };
                    return Err(
                        SudachiError::Description(
                            DescriptionError::DictionaryPartOutOfRange(
                                start as usize,
                                end as usize,
                            ),
                        ),
                    );
                }
                return Ok(Some(slice_subrange(buf, start as usize, (start + size) as usize)));
            }
            i = i + 1;
        }
        proof {
            let rows = self@.blocks;
            assert forall|j: int| 0 <= j < rows.len() implies (#[trigger] rows[j]).0 != name@ by {
                assert(rows[j] == self.blocks@[j]@);
            }
        }
        Ok(None)
    }

    /// The bytes of `block` in `buf`; an error when the table has no such
    /// block or it extends beyond `buf`.
    pub fn slice<'a>(&self, buf: &'a [u8], block: Block) -> (r: SudachiResult<&'a [u8]>)
        ensures
            match spec_find_block(self@.blocks, spec_block_name(block)) {
                None => r matches Err(
                    SudachiError::Description(DescriptionError::DictionaryPartNotFound),
                ),
                Some(i) => {
                    let (_, start, size) = self@.blocks[i];
                    if start + size <= buf@.len() {
                        r matches Ok(s) && s@ == buf@.subrange(start, start + size)
                    } else {
                        r matches Err(
                            SudachiError::Description(
                                DescriptionError::DictionaryPartOutOfRange(_, _),
                            ),
                        )
                    }
                },
            },
    {
        match self.slice_or_none(buf, block)? {
            Some(s) => Ok(s),
            None => Err(SudachiError::Description(DescriptionError::DictionaryPartNotFound)),
        }
    }

    /// Whether word costs are to be computed when the dictionary is loaded.
    pub fn is_runtime_costs(&self) -> (r: bool)
        ensures
            r == (self@.flags % 2 == 1),
    {
        let f = self.flags;
        assert(f & 1 == f % 2) by (bit_vector);
        self.flags & 1 != 0
    }

    /// Number of entries, counting those that are not indexed.
    pub fn num_total_entries(&self) -> (r: u32)
        ensures
            r == self@.num_total_entries,
    {
        self.num_total_entries
    }

    /// Number of indexed entries.
    pub fn num_indexed_entries(&self) -> (r: u32)
        ensures
            r == self@.num_indexed_entries,
    {
        self.num_indexed_entries
    }
}

} // verus!
