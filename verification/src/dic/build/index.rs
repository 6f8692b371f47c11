//! The index of a dictionary under construction: the lists of word ids
//! that share an index form, written as delta-coded varints, and the trie
//! from index forms to where their lists start.

use vstd::prelude::*;

use crate::dic::read::{
    lemma_leb_len_unique, pow128, spec_leb_continues, spec_leb_ends_at, spec_leb_len,
    spec_leb_value, varint32_at,
};
use crate::dic::build::error::{BuildFailure, DicBuildError};
use crate::dic::build::lexicon::string_store::{chars_less, lemma_chars_order, spec_chars_less};
use crate::dic::build::parse::str_chars;
use crate::input_text::str_sizes;
use vstd::utf8::encode_utf8;
use crate::dic::word_id::{spec_word_of, WordId};
use crate::error::{SudachiError, SudachiResult};
use vstd::string::StringExecFns;

verus! {

/// LEB128 bytes of `v`: seven bits at a time, least significant first, the
/// high bit set on every byte but the last.
pub open spec fn spec_varint(v: nat) -> Seq<u8>
    decreases v,
{
    if v < 128 {
        seq![v as u8]
    } else {
        seq![(v % 128 + 128) as u8] + spec_varint(v / 128)
    }
}

/// Appends the LEB128 bytes of `value` to `dst`.
pub fn write_varint32(dst: &mut Vec<u8>, value: u32)
    ensures
        final(dst)@ == old(dst)@ + spec_varint(value as nat),
{
    let mut v = value;
    proof {
        assert(old(dst)@ + spec_varint(value as nat) =~= dst@ + spec_varint(v as nat));
    }
    while v >= 128
        invariant
            old(dst)@ + spec_varint(value as nat) == dst@ + spec_varint(v as nat),
        decreases v,
    {
        let ghost before = dst@;
        dst.push((v % 128 + 128) as u8);
        proof {
            assert(before + spec_varint(v as nat) =~= dst@ + spec_varint((v / 128) as nat));
        }
        v = v / 128;
    }
    dst.push(v as u8);
    proof {
        assert(spec_varint(v as nat) =~= seq![v as u8]);
    }
}

/// A value below `128^k` takes at most `k` bytes.
proof fn lemma_varint_len(v: nat, k: nat)
    requires
        k >= 1,
        v < pow128(k),
    ensures
        1 <= spec_varint(v).len() <= k,
    decreases v,
{
    if v >= 128 {
        assert(k >= 2) by {
            if k == 1 {
                assert(pow128(1) == 128 * pow128(0));
            }
        }
        assert(pow128(k) == 128 * pow128((k - 1) as nat));
        lemma_varint_len(v / 128, (k - 1) as nat);
    }
}

/// The value of `n` LEB128 bytes is the low seven bits of the first plus
/// 128 times the value of the rest.
proof fn lemma_leb_value_first(s: Seq<u8>, p: int, n: nat)
    requires
        n >= 1,
    ensures
        spec_leb_value(s, p, n) == (s[p] as int % 128) + 128 * spec_leb_value(s, p + 1, (n - 1) as nat),
    decreases n,
{
    if n == 1 {
        assert(spec_leb_value(s, p, 0) == 0);
        assert(spec_leb_value(s, p + 1, 0) == 0);
        assert(pow128(0) == 1);
    } else {
        lemma_leb_value_first(s, p, (n - 1) as nat);
        let q = pow128((n - 2) as nat);
        assert(pow128((n - 1) as nat) == 128 * q);
        let x = s[p + n - 1] as int % 128;
        assert(s[p + 1 + (n - 1) - 1] == s[p + n - 1]);
        assert(spec_leb_value(s, p + 1, (n - 1) as nat) == spec_leb_value(s, p + 1, (n - 2) as nat)
            + x * q);
        assert(spec_leb_value(s, p, n) == spec_leb_value(s, p, (n - 1) as nat) + x * (128 * q));
        assert(x * (128 * q) == 128 * (x * q)) by (nonlinear_arith);
    }
}

/// The bytes of `v` read back as one LEB128 number: they end where they
/// should, and their value is `v`.
pub proof fn lemma_varint_reads_back(pre: Seq<u8>, v: nat, rest: Seq<u8>)
    ensures
        ({
            let s = pre + spec_varint(v) + rest;
            let p = pre.len() as int;
            let n = spec_varint(v).len();
            &&& n >= 1
            &&& spec_leb_continues(s, p, (n - 1) as nat)
            &&& s[p + n - 1] < 128
            &&& spec_leb_value(s, p, n) == v
        }),
    decreases v,
{
    let s = pre + spec_varint(v) + rest;
    let p = pre.len() as int;
    if v < 128 {
        assert(s[p] == v as u8);
        assert(spec_leb_value(s, p, 1) == spec_leb_value(s, p, 0) + (s[p] as int % 128) * pow128(0));
        assert(pow128(0) == 1);
    } else {
        let head = seq![(v % 128 + 128) as u8];
        lemma_varint_reads_back(pre + head, v / 128, rest);
        assert(s =~= (pre + head) + spec_varint(v / 128) + rest);
        let n = spec_varint(v).len();
        let m = spec_varint(v / 128).len();
        assert(n == m + 1);
        assert(s[p] == (v % 128 + 128) as u8);
        lemma_leb_value_first(s, p, n);
        assert forall|k: int| p <= k < p + (n - 1) implies s[k] >= 128 by {
            if k > p {
                assert(spec_leb_continues(s, p + 1, (m - 1) as nat));
            }
        }
    }
}

/// Whether `s` holds at `p` a LEB128 `u32` of `n` bytes (at most five).
proof fn lemma_varint_len_at(pre: Seq<u8>, v: u32, rest: Seq<u8>)
    ensures
        spec_leb_len(pre + spec_varint(v as nat) + rest, pre.len() as int, 5) == Some(
            spec_varint(v as nat).len(),
        ),
        spec_leb_value(pre + spec_varint(v as nat) + rest, pre.len() as int, spec_varint(v as nat).len())
            == v,
{
    let s = pre + spec_varint(v as nat) + rest;
    let p = pre.len() as int;
    let n = spec_varint(v as nat).len();
    reveal_with_fuel(pow128, 6);
    lemma_varint_len(v as nat, 5);
    lemma_varint_reads_back(pre, v as nat, rest);
    assert(p + n <= s.len());
    assert(spec_leb_ends_at(s, p, 5, n));
    let m = spec_leb_len(s, p, 5)->0;
    lemma_leb_len_unique(s, p, n, m);
}

/// `a - b`, or zero when `b` is the larger.
pub open spec fn spec_sat_sub(a: u32, b: u32) -> u32 {
    if a > b {
        (a - b) as u32
    } else {
        0
    }
}

/// LEB128 bytes of the differences of `ids`, each from the one before and
/// the first from `prev`, zero where a difference would be negative.
pub open spec fn spec_deltas(ids: Seq<u32>, prev: u32) -> Seq<u8>
    decreases ids.len(),
{
    if ids.len() == 0 {
        seq![]
    } else {
        spec_varint(spec_sat_sub(ids[0], prev) as nat) + spec_deltas(ids.skip(1), ids[0])
    }
}

/// A list of entry ids as the table stores it: the count, then the
/// differences.
pub open spec fn spec_id_list_bytes(ids: Seq<u32>) -> Seq<u8> {
    spec_varint((ids.len() as u32) as nat) + spec_deltas(ids, 0)
}

/// The entry parts of word ids.
pub open spec fn spec_entry_ids(ws: Seq<WordId>) -> Seq<u32> {
    ws.map_values(|w: WordId| spec_word_of(w@) as u32)
}

/// Appends the list of the entry ids of `ids` to `dst`.
pub fn write_delta_varint_word_ids(dst: &mut Vec<u8>, ids: &[WordId]) -> (r: Result<(), BuildFailure>)
    ensures
        final(dst)@ == old(dst)@ + spec_id_list_bytes(spec_entry_ids(ids@)),
        r is Ok,
{
    let ghost es = spec_entry_ids(ids@);
    #[verifier::truncate]
    let n = ids.len() as u32;
    write_varint32(dst, n);
    let mut prev: u32 = 0;
    let mut i: usize = 0;
    proof {
        assert(es.skip(0) =~= es);
        assert(es.len() == ids@.len());
    }
    while i < ids.len()
        invariant
            es == spec_entry_ids(ids@),
            es.len() == ids@.len(),
            i <= ids@.len(),
            old(dst)@ + spec_id_list_bytes(es) == dst@ + spec_deltas(es.skip(i as int), prev),
            i > 0 ==> prev == es[i - 1],
            i == 0 ==> prev == 0,
        decreases ids@.len() - i,
    {
        let current = ids[i].word();
        let delta = if current > prev {
            current - prev
        } else {
            0
        };
        let ghost before = dst@;
        write_varint32(dst, delta);
        proof {
            assert(es[i as int] == current);
            assert(es.skip(i as int)[0] == current);
            assert(es.skip(i as int).skip(1) =~= es.skip(i + 1));
            assert(before + spec_deltas(es.skip(i as int), prev) =~= dst@ + spec_deltas(
                es.skip(i + 1),
                current,
            ));
        }
        prev = current;
        i = i + 1;
    }
    proof {
        assert(spec_deltas(es.skip(i as int), prev) =~= Seq::<u8>::empty());
        assert(dst@ + Seq::<u8>::empty() =~= dst@);
    }
    Ok(())
}

/// Reading `count` differences at `p`, each added to the id before (the
/// first to `prev`): the ids and where they end; `None` when a difference is
/// not a LEB128 `u32` or an id would pass `u32::MAX`.
pub open spec fn spec_read_deltas(s: Seq<u8>, p: int, count: nat, prev: u32) -> Option<(Seq<u32>, int)>
    decreases count,
{
    if count == 0 {
        Some((seq![], p))
    } else {
        match spec_leb_len(s, p, 5) {
            Some(n) => {
                let d = spec_leb_value(s, p, n);
                if d <= u32::MAX && prev + d <= u32::MAX {
                    match spec_read_deltas(s, p + n, (count - 1) as nat, (prev + d) as u32) {
                        Some((rest, e)) => Some((seq![(prev + d) as u32] + rest, e)),
                        None => None,
                    }
                } else {
                    None
                }
            },
            None => None,
        }
    }
}

/// Reading a list of entry ids at `p`: its count, then its differences.
pub open spec fn spec_read_id_list(s: Seq<u8>, p: int) -> Option<(Seq<u32>, int)> {
    match spec_leb_len(s, p, 5) {
        Some(n) => {
            let c = spec_leb_value(s, p, n);
            if c <= u32::MAX {
                spec_read_deltas(s, p + n, c as nat, 0)
            } else {
                None
            }
        },
        None => None,
    }
}

/// Reads the list of entry ids stored at `pos`, and where it ends.
pub fn read_word_id_list(buf: &[u8], pos: usize) -> (r: SudachiResult<(Vec<u32>, usize)>)
    requires
        pos <= buf@.len(),
    ensures
        r is Ok <==> spec_read_id_list(buf@, pos as int) is Some,
        r matches Ok((ids, end)) ==> spec_read_id_list(buf@, pos as int) == Some((ids@, end as int)),
{
    let (count, mut p) = varint32_at(buf, pos)?;
    let mut out: Vec<u32> = Vec::new();
    let mut prev: u32 = 0;
    let mut k: u32 = 0;
    proof {
        assert(out@ + Seq::<u32>::empty() =~= out@);
    }
    while k < count
        invariant
            k <= count,
            p <= buf@.len(),
            spec_read_id_list(buf@, pos as int) == match spec_read_deltas(
                buf@,
                p as int,
                (count - k) as nat,
                prev,
            ) {
                Some((rest, e)) => Some((out@ + rest, e)),
                None => None::<(Seq<u32>, int)>,
            },
        decreases count - k,
    {
        let (d, np) = match varint32_at(buf, p) {
            Ok(x) => x,
            Err(e) => {
                return Err(e);
            },
        };
        let cur = match prev.checked_add(d) {
            Some(c) => c,
            None => {
                return Err(SudachiError::InvalidDataFormat(p));
            },
        };
        proof {
            match spec_read_deltas(buf@, np as int, (count - k - 1) as nat, cur) {
                Some((rest, e)) => {
                    assert(out@ + (seq![cur] + rest) =~= out@.push(cur) + rest);
                },
                None => {},
            }
        }
        out.push(cur);
        prev = cur;
        p = np;
        k = k + 1;
    }
    proof {
        assert(out@ + Seq::<u32>::empty() =~= out@);
    }
    Ok((out, p))
}

/// Whether `ids` never decreases.
pub open spec fn spec_ascending(ids: Seq<u32>) -> bool {
    forall|i: int, j: int| 0 <= i <= j < ids.len() ==> ids[i] <= ids[j]
}

proof fn lemma_deltas_read_back(pre: Seq<u8>, ids: Seq<u32>, prev: u32, rest: Seq<u8>)
    requires
        spec_ascending(ids),
        ids.len() > 0 ==> prev <= ids[0],
    ensures
        spec_read_deltas(pre + spec_deltas(ids, prev) + rest, pre.len() as int, ids.len(), prev)
            == Some((ids, (pre.len() + spec_deltas(ids, prev).len()) as int)),
    decreases ids.len(),
{
    let s = pre + spec_deltas(ids, prev) + rest;
    if ids.len() == 0 {
        assert(ids =~= Seq::<u32>::empty());
    } else {
        let d = spec_sat_sub(ids[0], prev);
        let head = spec_varint(d as nat);
        let tail = ids.skip(1);
        assert(s =~= pre + head + (spec_deltas(tail, ids[0]) + rest));
        lemma_varint_len_at(pre, d, spec_deltas(tail, ids[0]) + rest);
        assert(spec_ascending(tail)) by {
            assert forall|i: int, j: int| 0 <= i <= j < tail.len() implies tail[i] <= tail[j] by {
                assert(tail[i] == ids[i + 1]);
                assert(tail[j] == ids[j + 1]);
            }
        }
        if tail.len() > 0 {
            assert(ids[0] <= ids[1]);
        }
        lemma_deltas_read_back(pre + head, tail, ids[0], rest);
        assert(s =~= (pre + head) + spec_deltas(tail, ids[0]) + rest);
        assert(seq![ids[0]] + tail =~= ids);
    }
}

/// The list a table stores for ascending entry ids reads back as those ids,
/// ending right after it, whatever lies around it.
pub proof fn lemma_id_list_reads_back(pre: Seq<u8>, ids: Seq<u32>, rest: Seq<u8>)
    requires
        spec_ascending(ids),
        ids.len() <= u32::MAX,
    ensures
        spec_read_id_list(pre + spec_id_list_bytes(ids) + rest, pre.len() as int) == Some(
            (ids, (pre.len() + spec_id_list_bytes(ids).len()) as int),
        ),
{
    let c = ids.len() as u32;
    let head = spec_varint(c as nat);
    let s = pre + spec_id_list_bytes(ids) + rest;
    assert(s =~= pre + head + (spec_deltas(ids, 0) + rest));
    lemma_varint_len_at(pre, c, spec_deltas(ids, 0) + rest);
    lemma_deltas_read_back(pre + head, ids, 0, rest);
    assert(s =~= (pre + head) + spec_deltas(ids, 0) + rest);
}

/// The lists of several index forms written one after the other.
pub open spec fn spec_lists_bytes(lists: Seq<Seq<u32>>) -> Seq<u8>
    decreases lists.len(),
{
    if lists.len() == 0 {
        seq![]
    } else {
        spec_lists_bytes(lists.drop_last()) + spec_id_list_bytes(lists.last())
    }
}

/// The word ids of one index form, and where its list starts in the word id
/// table once the table is written (`usize::MAX` until then).
pub struct IndexEntry {
    ids: Vec<WordId>,
    offset: usize,
}

impl IndexEntry {
    /// The word ids.
    pub closed spec fn spec_ids(&self) -> Seq<WordId> {
        self.ids@
    }

    /// Where the list starts in the table.
    pub closed spec fn spec_offset(&self) -> usize {
        self.offset
    }
}

impl Default for IndexEntry {
    fn default() -> (r: IndexEntry)
        ensures
            r.spec_ids().len() == 0,
            r.spec_offset() == usize::MAX,
    {
        IndexEntry { ids: Vec::new(), offset: usize::MAX }
    }
}

/// Builder of the index of a dictionary: index forms in the order they
/// were first added, each with its word ids in the order they were added.
pub struct IndexBuilder {
    keys: Vec<String>,
    entries: Vec<IndexEntry>,
}

/// Whether `k` holds no NUL character, which the trie cannot hold.
pub open spec fn spec_no_nul(k: Seq<char>) -> bool {
    forall|i: int| 0 <= i < k.len() ==> k[i] != '\0'
}

impl IndexBuilder {
    /// The index forms, in the order they were first added.
    pub closed spec fn spec_keys(&self) -> Seq<Seq<char>> {
        self.keys@.map_values(|k: String| k@)
    }

    /// The word ids of each index form.
    pub closed spec fn spec_ids(&self) -> Seq<Seq<WordId>> {
        self.entries@.map_values(|e: IndexEntry| e.ids@)
    }

    /// Where the list of each index form starts in the table.
    pub closed spec fn spec_offsets(&self) -> Seq<usize> {
        self.entries@.map_values(|e: IndexEntry| e.offset)
    }

    /// One entry per index form, and no index form twice.
    pub closed spec fn wf(&self) -> bool {
        &&& self.keys@.len() == self.entries@.len()
        &&& forall|i: int, j: int|
            0 <= i < j < self.keys@.len() ==> (#[trigger] self.keys@[i])@ != (#[trigger] self.keys@[j])@
    }

    /// An empty builder.
    pub fn new() -> (r: IndexBuilder)
        ensures
            r.wf(),
            r.spec_keys().len() == 0,
    {
        IndexBuilder { keys: Vec::new(), entries: Vec::new() }
    }

    /// Adds word `id` under index form `key`.
    pub fn add(&mut self, key: &str, id: WordId)
        requires
            old(self).wf(),
        ensures
            final(self).wf(),
            ({
                let ks = old(self).spec_keys();
                match spec_key_index(ks, key@) {
                    Some(i) => final(self).spec_keys() == ks && final(self).spec_ids() == old(
                        self,
                    ).spec_ids().update(i, old(self).spec_ids()[i].push(id))
                        && final(self).spec_offsets() == old(self).spec_offsets(),
                    None => final(self).spec_keys() == ks.push(key@) && final(self).spec_ids()
                        == old(self).spec_ids().push(seq![id]) && final(self).spec_offsets()
                        == old(self).spec_offsets().push(usize::MAX),
                }
            }),
    {
        let ghost ks = self.spec_keys();
        let mut i: usize = 0;
        while i < self.keys.len()
            invariant
                self.wf(),
                *self == *old(self),
                ks == self.spec_keys(),
                i <= self.keys@.len(),
                forall|k: int| 0 <= k < i ==> (#[trigger] self.keys@[k])@ != key@,
            decreases self.keys@.len() - i,
        {
            if crate::dic::build::primitives::str_eq(self.keys[i].as_str(), key) {
                proof {
                    lemma_key_index(ks, key@, i as int);
                }
                let mut e = IndexEntry::default();
                std::mem::swap(&mut e, &mut self.entries[i]);
                e.ids.push(id);
                let ghost old_ids = old(self).spec_ids();
                std::mem::swap(&mut e, &mut self.entries[i]);
                proof {
                    assert(self.spec_keys() =~= ks);
                    assert(self.spec_ids() =~= old_ids.update(i as int, old_ids[i as int].push(id)));
                    assert(self.spec_offsets() =~= old(self).spec_offsets());
                }
                return;
            }
            i = i + 1;
        }
        proof {
            lemma_key_index_none(ks, key@);
        }
        self.keys.push(String::from_str(key));
        let mut e = IndexEntry::default();
        e.ids.push(id);
        proof {
            assert(e.ids@ =~= seq![id]);
        }
        let ghost pushed = e;
        self.entries.push(e);
        proof {
            assert(self.entries@.last() == pushed);
        }
        proof {
            assert(self.spec_keys() =~= ks.push(key@));
            assert(self.spec_ids() =~= old(self).spec_ids().push(seq![id]));
            assert(self.spec_offsets() =~= old(self).spec_offsets().push(usize::MAX));
            assert forall|a: int, b: int|
                0 <= a < b < self.keys@.len() implies (#[trigger] self.keys@[a])@ != (
                #[trigger] self.keys@[b])@ by {
                if b == self.keys@.len() - 1 {
                    assert(self.keys@[b]@ == key@);
                } else {
                    assert(self.keys@[a] == old(self).keys@[a]);
                    assert(self.keys@[b] == old(self).keys@[b]);
                }
            }
        }
    }
}

/// Position of `key` among `ks`, if it is there.
pub open spec fn spec_key_index(ks: Seq<Seq<char>>, key: Seq<char>) -> Option<int> {
    if exists|i: int| 0 <= i < ks.len() && ks[i] == key {
        Some(choose|i: int| 0 <= i < ks.len() && ks[i] == key)
    } else {
        None
    }
}

proof fn lemma_key_index(ks: Seq<Seq<char>>, key: Seq<char>, i: int)
    requires
        0 <= i < ks.len(),
        ks[i] == key,
        forall|a: int, b: int| 0 <= a < b < ks.len() ==> #[trigger] ks[a] != #[trigger] ks[b],
    ensures
        spec_key_index(ks, key) == Some(i),
{
    let j = choose|j: int| 0 <= j < ks.len() && ks[j] == key;
    if j < i {
        assert(ks[j] != ks[i]);
    } else if j > i {
        assert(ks[i] != ks[j]);
    }
}

proof fn lemma_key_index_none(ks: Seq<Seq<char>>, key: Seq<char>)
    requires
        forall|k: int| 0 <= k < ks.len() ==> ks[k] != key,
    ensures
        spec_key_index(ks, key) is None,
{
}

/// The entry ids of each list of word ids.
pub open spec fn spec_all_entry_ids(ids: Seq<Seq<WordId>>) -> Seq<Seq<u32>> {
    ids.map_values(|w: Seq<WordId>| spec_entry_ids(w))
}

impl IndexBuilder {
    /// Writes the word id table: the list of each index form in order, then,
    /// when there are any, the list of the entries that no index form
    /// names. Each index form remembers where its list starts, and forgets
    /// its word ids.
    pub fn build_word_id_table(&mut self, non_indexed: &[WordId]) -> (r: SudachiResult<Vec<u8>>)
        requires
            old(self).wf(),
        ensures
            final(self).wf(),
            final(self).spec_keys() == old(self).spec_keys(),
            ({
                let lists = spec_all_entry_ids(old(self).spec_ids());
                &&& r matches Ok(t) && t@ == spec_lists_bytes(lists) + if non_indexed@.len() > 0 {
                    spec_id_list_bytes(spec_entry_ids(non_indexed@))
                } else {
                    Seq::<u8>::empty()
                }
                &&& final(self).spec_offsets().len() == lists.len()
                &&& forall|i: int|
                    0 <= i < lists.len() ==> #[trigger] final(self).spec_offsets()[i]
                        == spec_lists_bytes(lists.take(i)).len()
                &&& forall|i: int| 0 <= i < lists.len() ==> (#[trigger] final(self).spec_ids()[i]).len() == 0
            }),
    {
        let ghost lists = spec_all_entry_ids(old(self).spec_ids());
        let mut result: Vec<u8> = Vec::new();
        let n = self.entries.len();
        let mut i: usize = 0;
        proof {
            assert(lists.take(0) =~= Seq::<Seq<u32>>::empty());
        }
        while i < n
            invariant
                self.wf(),
                n == self.entries@.len(),
                n == lists.len(),
                lists == spec_all_entry_ids(old(self).spec_ids()),
                self.keys == old(self).keys,
                i <= n,
                result@ == spec_lists_bytes(lists.take(i as int)),
                forall|k: int| i <= k < n ==> #[trigger] self.entries@[k] == old(self).entries@[k],
                forall|k: int|
                    0 <= k < i ==> (#[trigger] self.entries@[k]).offset == spec_lists_bytes(
                        lists.take(k),
                    ).len() && self.entries@[k].ids@.len() == 0,
            decreases n - i,
        {
            let mut e = IndexEntry::default();
            std::mem::swap(&mut e, &mut self.entries[i]);
            e.offset = result.len();
            let mut ids: Vec<WordId> = Vec::new();
            std::mem::swap(&mut ids, &mut e.ids);
            let ghost before = result@;
            let _ = write_delta_varint_word_ids(&mut result, ids.as_slice());
            std::mem::swap(&mut e, &mut self.entries[i]);
            proof {
                assert(ids@ == old(self).entries@[i as int].ids@);
                assert(lists[i as int] == spec_entry_ids(ids@));
                assert(lists.take(i + 1).drop_last() =~= lists.take(i as int));
                assert(lists.take(i + 1).last() == lists[i as int]);
            }
            i = i + 1;
        }
        proof {
            assert(lists.take(n as int) =~= lists);
        }
        if non_indexed.len() > 0 {
            let _ = write_delta_varint_word_ids(&mut result, non_indexed);
        } else {
            proof {
                assert(result@ + Seq::<u8>::empty() =~= result@);
            }
        }
        proof {
            assert forall|k: int| 0 <= k < lists.len() implies #[trigger] self.spec_offsets()[k]
                == spec_lists_bytes(lists.take(k)).len() by {
                assert(self.spec_offsets()[k] == self.entries@[k].offset);
            }
            assert forall|k: int| 0 <= k < lists.len() implies (#[trigger] self.spec_ids()[k]).len()
                == 0 by {
                assert(self.spec_ids()[k] == self.entries@[k].ids@);
            }
        }
        Ok(result)
    }
}

/// Position where a key goes among pairs in key order: before the first
/// pair whose key comes after it.
pub open spec fn spec_insert_pos(s: Seq<(Seq<char>, u32)>, k: Seq<char>) -> int
    decreases s.len(),
{
    if s.len() == 0 {
        0
    } else if spec_chars_less(k, s[0].0) {
        0
    } else {
        1 + spec_insert_pos(s.skip(1), k)
    }
}

/// Pairs put in key order, each inserted in turn.
pub open spec fn spec_sort_pairs(ps: Seq<(Seq<char>, u32)>) -> Seq<(Seq<char>, u32)>
    decreases ps.len(),
{
    if ps.len() == 0 {
        seq![]
    } else {
        let s = spec_sort_pairs(ps.drop_last());
        s.insert(spec_insert_pos(s, ps.last().0), ps.last())
    }
}

/// Whether the keys of `s` come in strictly increasing character order.
pub open spec fn spec_strictly_sorted(s: Seq<(Seq<char>, u32)>) -> bool {
    forall|a: int, b: int| 0 <= a < b < s.len() ==> spec_chars_less(#[trigger] s[a].0, #[trigger] s[b].0)
}

/// Whether no two pairs share a key.
pub open spec fn spec_distinct_keys(s: Seq<(Seq<char>, u32)>) -> bool {
    forall|a: int, b: int| 0 <= a < b < s.len() ==> (#[trigger] s[a]).0 != (#[trigger] s[b]).0
}

proof fn lemma_insert_pos(s: Seq<(Seq<char>, u32)>, k: Seq<char>)
    ensures
        0 <= spec_insert_pos(s, k) <= s.len(),
        forall|m: int| 0 <= m < spec_insert_pos(s, k) ==> !spec_chars_less(k, #[trigger] s[m].0),
        spec_insert_pos(s, k) < s.len() ==> spec_chars_less(k, s[spec_insert_pos(s, k)].0),
    decreases s.len(),
{
    if s.len() > 0 && !spec_chars_less(k, s[0].0) {
        lemma_insert_pos(s.skip(1), k);
        assert forall|m: int| 0 <= m < spec_insert_pos(s, k) implies !spec_chars_less(
            k,
            #[trigger] s[m].0,
        ) by {
            if m > 0 {
                assert(s[m] == s.skip(1)[m - 1]);
            }
        }
    }
}

/// Sorting pairs with distinct keys gives them in strictly increasing key
/// order, each one of the pairs given.
proof fn lemma_sort_pairs(ps: Seq<(Seq<char>, u32)>)
    requires
        spec_distinct_keys(ps),
    ensures
        spec_sort_pairs(ps).len() == ps.len(),
        spec_strictly_sorted(spec_sort_pairs(ps)),
        forall|m: int|
            0 <= m < ps.len() ==> exists|k: int| 0 <= k < ps.len() && #[trigger] spec_sort_pairs(ps)[m] == ps[k],
    decreases ps.len(),
{
    if ps.len() > 0 {
        let init = ps.drop_last();
        assert(spec_distinct_keys(init)) by {
            assert forall|a: int, b: int| 0 <= a < b < init.len() implies (#[trigger] init[a]).0
                != (#[trigger] init[b]).0 by {
                assert(init[a] == ps[a] && init[b] == ps[b]);
            }
        }
        lemma_sort_pairs(init);
        let s = spec_sort_pairs(init);
        let x = ps.last();
        let pos = spec_insert_pos(s, x.0);
        lemma_insert_pos(s, x.0);
        let r = s.insert(pos, x);
        assert(r == spec_sort_pairs(ps));
        assert forall|m: int| 0 <= m < s.len() implies (#[trigger] s[m]).0 != x.0 by {
            let k = choose|k: int| 0 <= k < init.len() && s[m] == init[k];
            assert(ps[k].0 != ps[ps.len() - 1].0);
        }
        assert forall|a: int, b: int| 0 <= a < b < r.len() implies spec_chars_less(
            #[trigger] r[a].0,
            #[trigger] r[b].0,
        ) by {
            if b < pos {
                assert(r[a] == s[a] && r[b] == s[b]);
            } else if b == pos {
                assert(r[a] == s[a]);
                assert(!spec_chars_less(x.0, s[a].0));
                lemma_chars_order(s[a].0, x.0, x.0);
            } else if a < pos {
                assert(r[a] == s[a] && r[b] == s[b - 1]);
            } else if a == pos {
                assert(r[b] == s[b - 1]);
                if b - 1 > pos {
                    assert(spec_chars_less(s[pos].0, s[b - 1].0));
                    lemma_chars_order(x.0, s[pos].0, s[b - 1].0);
                }
            } else {
                assert(r[a] == s[a - 1] && r[b] == s[b - 1]);
            }
        }
        assert forall|m: int| 0 <= m < ps.len() implies exists|k: int|
            0 <= k < ps.len() && #[trigger] r[m] == ps[k] by {
            if m < pos {
                let k = choose|k: int| 0 <= k < init.len() && s[m] == init[k];
                assert(r[m] == ps[k]);
            } else if m == pos {
                assert(r[m] == ps[ps.len() - 1]);
            } else {
                let k = choose|k: int| 0 <= k < init.len() && s[m - 1] == init[k];
                assert(r[m] == ps[k]);
            }
        }
    }
}

/// Name of what the double-array builder of the `yada` crate gives for a
/// keyset: pairs of keys, as the UTF-8 bytes of the texts, and values.
pub uninterp spec fn spec_darts(keyset: Seq<(Seq<char>, u32)>) -> Option<Seq<u8>>;

/// The pairs of texts and values, as texts.
pub open spec fn spec_pairs_model(v: Seq<(String, u32)>) -> Seq<(Seq<char>, u32)> {
    v.map_values(|e: (String, u32)| (e.0@, e.1))
}

/// Largest total number of UTF-8 bytes of the keys handed to the
/// double-array builder.
pub const MAX_TRIE_KEY_BYTES: usize = 0x1F_FFFE;

/// Total number of UTF-8 bytes of the keys of `s`.
pub open spec fn spec_key_bytes(s: Seq<(Seq<char>, u32)>) -> int
    decreases s.len(),
{
    if s.len() == 0 {
        0
    } else {
        spec_key_bytes(s.drop_last()) + encode_utf8(s.last().0).len()
    }
}

/// Builds a double-array trie of `keyset` with
/// `yada::builder::DoubleArrayBuilder::build`, which needs the keys
/// non-empty as a set, in strictly increasing byte order (the order of
/// their characters, as UTF-8 keeps it) and free of NUL bytes. Its result
/// is named, not stated. The builder asserts that every offset it places
/// fits 29 bits (256 units per block, so at most 2^21 blocks); it adds at
/// most one block per trie node it places, and there are at most one node
/// more than the key bytes, so keys of at most `MAX_TRIE_KEY_BYTES` bytes
/// keep it below that bound. Offsets past 21 bits with non-zero low bits are
/// never chosen: its offset search skips them.
#[verifier::external_body]
fn darts_build(keyset: &Vec<(String, u32)>) -> (r: Option<Vec<u8>>)
    requires
        keyset@.len() > 0,
        spec_strictly_sorted(spec_pairs_model(keyset@)),
        forall|i: int| 0 <= i < keyset@.len() ==> spec_no_nul((#[trigger] keyset@[i]).0@),
        spec_key_bytes(spec_pairs_model(keyset@)) <= MAX_TRIE_KEY_BYTES,
    ensures
        spec_darts(spec_pairs_model(keyset@)) == match r {
            Some(t) => Some(t@),
            None => None,
        },
{
    yada::builder::DoubleArrayBuilder::build(keyset.as_slice())
}

/// Total number of UTF-8 bytes of the keys of `keyset`, or `None` when it
/// is more than `MAX_TRIE_KEY_BYTES`.
fn key_bytes(keyset: &Vec<(String, u32)>) -> (r: Option<usize>)
    ensures
        match r {
            Some(n) => n == spec_key_bytes(spec_pairs_model(keyset@)) && n <= MAX_TRIE_KEY_BYTES,
            None => spec_key_bytes(spec_pairs_model(keyset@)) > MAX_TRIE_KEY_BYTES,
        },
{
    let mut total: usize = 0;
    let mut i: usize = 0;
    while i < keyset.len()
        invariant
            i <= keyset@.len(),
            total == spec_key_bytes(spec_pairs_model(keyset@).take(i as int)),
            total <= MAX_TRIE_KEY_BYTES,
        decreases keyset@.len() - i,
    {
        let (b, _) = str_sizes(keyset[i].0.as_str());
        proof {
            let m = spec_pairs_model(keyset@);
            assert(m.take(i + 1).drop_last() =~= m.take(i as int));
            assert(m.take(i + 1).last() == m[i as int]);
        }
        if b > MAX_TRIE_KEY_BYTES - total {
            proof {
                lemma_key_bytes_prefix(spec_pairs_model(keyset@), i + 1);
            }
            return None;
        }
        total = total + b;
        i = i + 1;
    }
    proof {
        assert(spec_pairs_model(keyset@).take(i as int) =~= spec_pairs_model(keyset@));
    }
    Some(total)
}

/// The keys of a prefix have no more bytes than the keys of the whole.
proof fn lemma_key_bytes_prefix(s: Seq<(Seq<char>, u32)>, i: int)
    requires
        0 <= i <= s.len(),
    ensures
        spec_key_bytes(s.take(i)) <= spec_key_bytes(s),
    decreases s.len() - i,
{
    if i < s.len() {
        lemma_key_bytes_prefix(s, i + 1);
        assert(s.take(i + 1).drop_last() =~= s.take(i));
    } else {
        assert(s.take(i) =~= s);
    }
}

/// The pairs of index forms and the offsets of their lists, as `u32`.
pub open spec fn spec_trie_pairs(keys: Seq<Seq<char>>, offsets: Seq<usize>) -> Seq<(Seq<char>, u32)> {
    Seq::new(keys.len(), |i: int| (keys[i], offsets[i] as u32))
}

impl IndexBuilder {
    /// Builds the trie from each index form to where its list starts in the
    /// word id table, the forms in character order, and empties the
    /// builder. An error when a list has not been placed (the table is not
    /// built), the forms take more than `MAX_TRIE_KEY_BYTES` bytes, or the
    /// trie cannot be built.
    pub fn build_trie(&mut self) -> (r: SudachiResult<Vec<u8>>)
        requires
            old(self).wf(),
            old(self).spec_keys().len() > 0,
            forall|i: int|
                0 <= i < old(self).spec_keys().len() ==> spec_no_nul(
                    #[trigger] old(self).spec_keys()[i],
                ),
        ensures
            final(self).wf(),
            final(self).spec_keys().len() == 0,
            ({
                let pairs = spec_trie_pairs(old(self).spec_keys(), old(self).spec_offsets());
                let unplaced = exists|i: int|
                    0 <= i < old(self).spec_offsets().len() && #[trigger] old(self).spec_offsets()[i]
                        > u32::MAX;
                &&& unplaced ==> r is Err
                &&& !unplaced && spec_key_bytes(spec_sort_pairs(pairs)) > MAX_TRIE_KEY_BYTES ==> r is Err
                &&& !unplaced && spec_key_bytes(spec_sort_pairs(pairs)) <= MAX_TRIE_KEY_BYTES ==> match spec_darts(
                    spec_sort_pairs(pairs),
                ) {
                    Some(t) => r matches Ok(v) && v@ == t,
                    None => r is Err,
                }
            }),
    {
        let ghost ks = self.spec_keys();
        let ghost offs = self.spec_offsets();
        let ghost pairs = spec_trie_pairs(ks, offs);
        let mut keys: Vec<String> = Vec::new();
        let mut entries: Vec<IndexEntry> = Vec::new();
        std::mem::swap(&mut keys, &mut self.keys);
        std::mem::swap(&mut entries, &mut self.entries);
        proof {
            assert(self.spec_keys() =~= Seq::<Seq<char>>::empty());
            assert(ks =~= keys@.map_values(|k: String| k@));
            assert(offs =~= entries@.map_values(|e: IndexEntry| e.offset));
        }
        let n = keys.len();
        let mut sorted: Vec<(String, u32)> = Vec::new();
        let mut i: usize = 0;
        proof {
            assert(pairs.take(0) =~= Seq::<(Seq<char>, u32)>::empty());
        }
        while i < n
            invariant
                n == keys@.len(),
                n == entries@.len(),
                ks == keys@.map_values(|k: String| k@),
                offs == entries@.map_values(|e: IndexEntry| e.offset),
                pairs == spec_trie_pairs(ks, offs),
                offs == old(self).spec_offsets(),
                ks == old(self).spec_keys(),
                i <= n,
                self.wf(),
                self.spec_keys().len() == 0,
                spec_pairs_model(sorted@) == spec_sort_pairs(pairs.take(i as int)),
                forall|k: int| 0 <= k < i ==> offs[k] <= u32::MAX,
            decreases n - i,
        {
            let offset = entries[i].offset;
            if offset > u32::MAX as usize {
                proof {
                    assert(offs[i as int] == offset);
                    assert(old(self).spec_offsets()[i as int] > u32::MAX);
                }
                return Err(
                    SudachiError::DictionaryCompilationError(
                        DicBuildError {
                            file: "entry".to_string(),
                            line: 0,
                            cause: BuildFailure::WordIdTableNotBuilt,
                        },
                    ),
                );
            }
            let key = keys[i].as_str();
            let kc = str_chars(key);
            let mut j: usize = 0;
            let ghost s = spec_pairs_model(sorted@);
            proof {
                assert(s.skip(0) =~= s);
            }
            while j < sorted.len() && !chars_less(&kc, &str_chars(sorted[j].0.as_str()))
                invariant
                    s == spec_pairs_model(sorted@),
                    kc@ == key@,
                    j <= sorted@.len(),
                    spec_insert_pos(s, key@) == j + spec_insert_pos(s.skip(j as int), key@),
                decreases sorted@.len() - j,
            {
                proof {
                    assert(s.skip(j as int)[0] == s[j as int]);
                    assert(s.skip(j as int).skip(1) =~= s.skip(j + 1));
                }
                j = j + 1;
            }
            proof {
                if j < s.len() {
                    assert(s.skip(j as int)[0] == s[j as int]);
                }
                assert(spec_insert_pos(s, key@) == j);
                assert(pairs.take(i + 1).drop_last() =~= pairs.take(i as int));
                assert(pairs.take(i + 1).last() == (key@, offset as u32));
            }
            sorted.insert(j, (String::from_str(key), offset as u32));
            proof {
                assert(spec_pairs_model(sorted@) =~= s.insert(j as int, (key@, offset as u32)));
            }
            i = i + 1;
        }
        proof {
            assert(pairs.take(n as int) =~= pairs);
            assert(spec_distinct_keys(pairs)) by {
                assert forall|a: int, b: int| 0 <= a < b < pairs.len() implies (#[trigger] pairs[a]).0
                    != (#[trigger] pairs[b]).0 by {
                    assert(old(self).keys@[a]@ != old(self).keys@[b]@);
                }
            }
            lemma_sort_pairs(pairs);
            let m = spec_pairs_model(sorted@);
            assert forall|x: int| 0 <= x < sorted@.len() implies spec_no_nul((#[trigger] sorted@[x]).0@) by {
                assert(m[x] == (sorted@[x].0@, sorted@[x].1));
                let k = choose|k: int| 0 <= k < pairs.len() && #[trigger] spec_sort_pairs(pairs)[x] == pairs[k];
                assert(ks[k] == old(self).spec_keys()[k]);
            }
            assert(!(exists|k: int| 0 <= k < offs.len() && #[trigger] offs[k] > u32::MAX));
        }
        if key_bytes(&sorted).is_none() {
            return Err(
                SudachiError::DictionaryCompilationError(
                    DicBuildError {
                        file: "<trie>".to_string(),
                        line: 0,
                        cause: BuildFailure::TrieBuildFailure,
                    },
                ),
            );
        }
        match darts_build(&sorted) {
            Some(t) => Ok(t),
            None => Err(
                SudachiError::DictionaryCompilationError(
                    DicBuildError {
                        file: "<trie>".to_string(),
                        line: 0,
                        cause: BuildFailure::TrieBuildFailure,
                    },
                ),
            ),
        }
    }
}

} // verus!
