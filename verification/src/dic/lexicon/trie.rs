//! Double-array trie mapping index forms to offsets in the word id table,
//! with common-prefix search from one start position or from many at once.

use vstd::prelude::*;

use crate::dic::read::{read_u32_le, spec_u32_le};

verus! {

/// One match of a common-prefix search.
#[derive(Debug, Eq, PartialEq, Structural, Clone, Copy)]
pub struct TrieEntry {
    /// Value stored for the key: an offset in the word id table.
    pub value: u32,
    /// Byte offset right after the matched key.
    pub end: usize,
}

impl TrieEntry {
    /// An entry with the given value and end.
    pub fn new(value: u32, offset: usize) -> (r: TrieEntry)
        ensures
            r.value == value,
            r.end == offset,
    {
        TrieEntry { value, end: offset }
    }
}

/// Double-array trie: an array of 32-bit units.
pub struct Trie {
    array: Vec<u32>,
}

/// Whether a unit has a leaf child (bit 8).
pub open spec fn spec_has_leaf(unit: u32) -> bool {
    (unit >> 8u32) & 1 == 1
}

/// Value stored in a leaf unit (low 31 bits).
pub open spec fn spec_value(unit: u32) -> u32 {
    unit & 0x7fff_ffff
}

/// Label of a unit: its low 8 bits, with bit 31 kept so that leaves never match a byte.
pub open spec fn spec_label(unit: u32) -> u32 {
    unit & 0x8000_00ff
}

/// Offset to the children of a unit: bits 10 and up, shifted by 8 more when bit 9 is set.
pub open spec fn spec_offset(unit: u32) -> u32 {
    (unit >> 10u32) << ((unit & 512) >> 6u32)
}

/// Outcome of consuming one input byte from a node.
pub enum Step {
    /// No transition for the byte: the walk ends.
    Dead,
    /// The transition exists; the walk goes on from the given node.
    Continue(u32),
    /// The transition exists and ends a key: next node and the key's value.
    Match(u32, u32),
}

/// One step of the walk from `node` with byte `k`. Units outside the array
/// end the walk.
pub open spec fn spec_step(arr: Seq<u32>, k: u8, node: u32) -> Step {
    let np = node ^ (k as u32);
    if np >= arr.len() {
        Step::Dead
    } else {
        let unit = arr[np as int];
        if spec_label(unit) != k as u32 {
            Step::Dead
        } else {
            let np2 = np ^ spec_offset(unit);
            if spec_has_leaf(unit) {
                if np2 >= arr.len() {
                    Step::Dead
                } else {
                    Step::Match(np2, spec_value(arr[np2 as int]))
                }
            } else {
                Step::Continue(np2)
            }
        }
    }
}

/// The matches `(value, end)` of a walk from `node` that reads `input` from position `i` on.
pub open spec fn spec_walk(arr: Seq<u32>, input: Seq<u8>, node: u32, i: int) -> Seq<(u32, int)>
    decreases input.len() - i,
{
    if i < 0 || i >= input.len() {
        seq![]
    } else {
        match spec_step(arr, input[i], node) {
            Step::Dead => seq![],
            Step::Continue(np) => spec_walk(arr, input, np, i + 1),
            Step::Match(np, v) => seq![(v, i + 1)] + spec_walk(arr, input, np, i + 1),
        }
    }
}

/// The root node of the trie.
pub open spec fn spec_root(arr: Seq<u32>) -> u32 {
    if arr.len() == 0 {
        0
    } else {
        spec_offset(arr[0])
    }
}

/// All keys of the trie that are prefixes of `input[offset..]`, as
/// `(value, end)` pairs in order of increasing length.
pub open spec fn spec_common_prefix(arr: Seq<u32>, input: Seq<u8>, offset: int) -> Seq<(u32, int)> {
    spec_walk(arr, input, spec_root(arr), offset)
}

/// `(value, end)` pairs of a sequence of entries.
pub open spec fn spec_entries(v: Seq<TrieEntry>) -> Seq<(u32, int)> {
    v.map_values(|e: TrieEntry| (e.value, e.end as int))
}

/// `n` little-endian `u32` units stored at the start of `data`.
pub open spec fn spec_units(data: Seq<u8>, n: int) -> Seq<u32> {
    Seq::new(n as nat, |j: int| spec_u32_le(data, 4 * j) as u32)
}

proof fn lemma_shift_amount(unit: u32)
    ensures
        (unit & 512) >> 6u32 == 0 || (unit & 512) >> 6u32 == 8,
{
    assert((unit & 512) >> 6u32 == 0 || (unit & 512) >> 6u32 == 8) by (bit_vector);
}

/// Whether `unit` has a leaf child.
fn has_leaf(unit: u32) -> (r: bool)
    ensures
        r == spec_has_leaf(unit),
{
    ((unit >> 8) & 1) == 1
}

/// Value stored in a leaf unit.
fn value(unit: u32) -> (r: u32)
    ensures
        r == spec_value(unit),
{
    unit & 0x7fff_ffff
}

/// Label of a unit.
fn label(unit: u32) -> (r: u32)
    ensures
        r == spec_label(unit),
{
    unit & 0x8000_00ff
}

/// Offset to the children of a unit.
fn offset(unit: u32) -> (r: u32)
    ensures
        r == spec_offset(unit),
{
    proof {
        lemma_shift_amount(unit);
    }
    (unit >> 10) << ((unit & 512) >> 6)
}

/// Consumes byte `k` from node `node`.
fn step_once(trie: &[u32], k: u8, node: u32) -> (r: Step)
    ensures
        r == spec_step(trie@, k, node),
{
    let np = node ^ (k as u32);
    if np as usize >= trie.len() {
        return Step::Dead;
    }
    let unit = trie[np as usize];
    if label(unit) != k as u32 {
        return Step::Dead;
    }
    let np2 = np ^ offset(unit);
    if has_leaf(unit) {
        if np2 as usize >= trie.len() {
            Step::Dead
        } else {
            Step::Match(np2, value(trie[np2 as usize]))
        }
    } else {
        Step::Continue(np2)
    }
}

/// Iterator over the matches of a common-prefix search.
pub struct TrieEntryIter<'a> {
    trie: &'a [u32],
    node_pos: u32,
    data: &'a [u8],
    offset: usize,
}

impl<'a> TrieEntryIter<'a> {
    /// The matches the iterator has yet to yield.
    pub closed spec fn remaining(&self) -> Seq<(u32, int)> {
        spec_walk(self.trie@, self.data@, self.node_pos, self.offset as int)
    }

    /// The next match, in order of increasing key length.
    pub fn next(&mut self) -> (r: Option<TrieEntry>)
        ensures
            old(self).remaining().len() == 0 ==> r is None && final(self).remaining() == old(
                self,
            ).remaining(),
            old(self).remaining().len() > 0 ==> (r matches Some(e) && (e.value, e.end as int)
                == old(self).remaining()[0] && final(self).remaining() == old(
                self,
            ).remaining().skip(1)),
    {
        let mut node_pos = self.node_pos;
        let n = self.data.len();
        let mut i = self.offset;
        while i < n
            invariant
                n == self.data@.len(),
                self.trie == old(self).trie,
                self.data == old(self).data,
                self.node_pos == old(self).node_pos,
                self.offset == old(self).offset,
                old(self).remaining() == spec_walk(self.trie@, self.data@, node_pos, i as int),
            decreases n - i,
        {
            let k = self.data[i];
            match step_once(self.trie, k, node_pos) {
                Step::Dead => {
                    return None;
                },
                Step::Continue(np) => {
                    node_pos = np;
                },
                Step::Match(np, v) => {
                    proof {
                        assert(spec_walk(self.trie@, self.data@, node_pos, i as int) == seq![
                            (v, i + 1),
                        ] + spec_walk(self.trie@, self.data@, np, i + 1));
                        assert((seq![(v, i + 1)] + spec_walk(self.trie@, self.data@, np, i + 1)).skip(
                            1,
                        ) =~= spec_walk(self.trie@, self.data@, np, i + 1));
                    }
                    let r = TrieEntry::new(v, i + 1);
                    self.offset = i + 1;
                    self.node_pos = np;
                    return Some(r);
                },
            }
            i = i + 1;
        }
        None
    }
}

impl Trie {
    /// Number of prefetch lanes used by [`Trie::common_prefix_batch`].
    pub const DEFAULT_PREFETCH_LANES: usize = 4;

    /// Upper bound on the number of lanes.
    pub const MAX_PREFETCH_LANES: usize = 16;

    /// The units of the trie.
    pub closed spec fn spec_array(&self) -> Seq<u32> {
        self.array@
    }

    /// A trie over all complete little-endian units of `data`.
    pub fn from_bytes(data: &[u8]) -> (r: Trie)
        ensures
            r.spec_array() == spec_units(data@, data@.len() as int / 4),
    {
        Trie { array: read_units(data, data.len() / 4) }
    }

    /// A trie over the first `size` little-endian units of `data`.
    pub fn new(data: &[u8], size: usize) -> (r: Trie)
        requires
            4 * size <= data@.len(),
        ensures
            r.spec_array() == spec_units(data@, size as int),
    {
        Trie { array: read_units(data, size) }
    }

    /// A trie over the given units.
    pub fn new_owned(data: Vec<u32>) -> (r: Trie)
        ensures
            r.spec_array() == data@,
    {
        Trie { array: data }
    }

    /// Size of the trie in bytes.
    pub fn total_size(&self) -> (r: usize)
        requires
            4 * self.spec_array().len() <= usize::MAX,
        ensures
            r == 4 * self.spec_array().len(),
    {
        4 * self.array.len()
    }

    /// Iterator over the keys of the trie that are prefixes of `input[offset..]`.
    pub fn common_prefix_iterator<'b>(&'b self, input: &'b [u8], offset: usize) -> (r:
        TrieEntryIter<'b>)
        ensures
            r.remaining() == spec_common_prefix(self.spec_array(), input@, offset as int),
    {
        let root = if self.array.len() == 0 {
            0
        } else {
            offset_of(self.array[0])
        };
        TrieEntryIter { trie: self.array.as_slice(), node_pos: root, data: input, offset }
    }

    /// All keys of the trie that are prefixes of `input[offset..]`, in order
    /// of increasing length.
    pub fn common_prefix_search(&self, input: &[u8], offset: usize) -> (r: Vec<TrieEntry>)
        ensures
            spec_entries(r@) == spec_common_prefix(self.spec_array(), input@, offset as int),
    {
        let mut it = self.common_prefix_iterator(input, offset);
        let ghost all = it.remaining();
        let mut out: Vec<TrieEntry> = Vec::new();
        loop
            invariant
                all == spec_entries(out@) + it.remaining(),
                all == spec_common_prefix(self.spec_array(), input@, offset as int),
            decreases it.remaining().len(),
        {
            let ghost before = it.remaining();
            match it.next() {
                Some(e) => {
                    proof {
                        assert(spec_entries(out@.push(e)) =~= spec_entries(out@).push(
                            (e.value, e.end as int),
                        ));
                        assert(before =~= seq![before[0]] + before.skip(1));
                        assert(spec_entries(out@) + before =~= spec_entries(out@).push(before[0])
                            + before.skip(1));
                    }
                    out.push(e);
                },
                None => {
                    proof {
                        assert(spec_entries(out@) + before =~= spec_entries(out@));
                    }
                    return out;
                },
            }
        }
    }
}

/// Offset to the children of a unit.
fn offset_of(unit: u32) -> (r: u32)
    ensures
        r == spec_offset(unit),
{
    offset(unit)
}

/// Reads `n` little-endian units from the start of `data`.
fn read_units(data: &[u8], n: usize) -> (r: Vec<u32>)
    requires
        4 * n <= data@.len(),
    ensures
        r@ == spec_units(data@, n as int),
{
    let len = data.len();
    let mut out: Vec<u32> = Vec::with_capacity(n);
    let mut j: usize = 0;
    while j < n
        invariant
            j <= n,
            len == data@.len(),
            4 * n <= len,
            out@ =~= spec_units(data@, j as int),
        decreases n - j,
    {
        let (v, _) = read_u32_le(data, 4 * j).unwrap();
        out.push(v);
        j = j + 1;
    }
    out
}

// ----------------------------------------------------------------------
// Common-prefix search from many start positions
// ----------------------------------------------------------------------
/// Matches `(value, end)` recorded in `out` for bucket `b`, in order.
pub open spec fn spec_group(out: Seq<(usize, u32, usize)>, b: int) -> Seq<(u32, int)>
    decreases out.len(),
{
    if out.len() == 0 {
        seq![]
    } else if out.last().0 == b {
        spec_group(out.drop_last(), b).push((out.last().1, out.last().2 as int))
    } else {
        spec_group(out.drop_last(), b)
    }
}

proof fn lemma_group_push(out: Seq<(usize, u32, usize)>, e: (usize, u32, usize), b: int)
    ensures
        spec_group(out.push(e), b) == if e.0 == b {
            spec_group(out, b).push((e.1, e.2 as int))
        } else {
            spec_group(out, b)
        },
{
    assert(out.push(e).drop_last() =~= out);
}

/// Work a lane has left: the bytes its walk may still read, plus one.
pub open spec fn spec_lane_term(active: bool, pos: usize, n: int) -> int {
    if active {
        n + 1 - (if pos < n {
            pos as int
        } else {
            n
        })
    } else {
        0
    }
}

/// Work left in the first `j` lanes.
pub open spec fn spec_lane_sum(active: Seq<bool>, pos: Seq<usize>, n: int, j: int) -> int
    decreases j,
{
    if j <= 0 {
        0
    } else {
        spec_lane_sum(active, pos, n, j - 1) + spec_lane_term(active[j - 1], pos[j - 1], n)
    }
}

/// Number of active lanes among the first `j`.
pub open spec fn spec_count_active(active: Seq<bool>, j: int) -> int
    decreases j,
{
    if j <= 0 {
        0
    } else {
        spec_count_active(active, j - 1) + if active[j - 1] {
            1int
        } else {
            0
        }
    }
}

proof fn lemma_lane_sum_nonneg(active: Seq<bool>, pos: Seq<usize>, n: int, j: int)
    requires
        n >= 0,
    ensures
        spec_lane_sum(active, pos, n, j) >= 0,
    decreases j,
{
    if j > 0 {
        lemma_lane_sum_nonneg(active, pos, n, j - 1);
    }
}

proof fn lemma_lane_update(
    a1: Seq<bool>,
    p1: Seq<usize>,
    a2: Seq<bool>,
    p2: Seq<usize>,
    n: int,
    j: int,
    i: int,
)
    requires
        0 <= j <= a1.len(),
        a1.len() == p1.len() == a2.len() == p2.len(),
        0 <= i < a1.len(),
        forall|t: int| 0 <= t < a1.len() && t != i ==> a1[t] == a2[t] && p1[t] == p2[t],
    ensures
        spec_lane_sum(a2, p2, n, j) == spec_lane_sum(a1, p1, n, j) + if i < j {
            spec_lane_term(a2[i], p2[i], n) - spec_lane_term(a1[i], p1[i], n)
        } else {
            0
        },
        spec_count_active(a2, j) == spec_count_active(a1, j) + if i < j {
            (if a2[i] {
                1int
            } else {
                0
            }) - (if a1[i] {
                1int
            } else {
                0
            })
        } else {
            0
        },
    decreases j,
{
    if j > 0 {
        lemma_lane_update(a1, p1, a2, p2, n, j - 1, i);
    }
}

proof fn lemma_count_zero(active: Seq<bool>, j: int)
    requires
        0 <= j <= active.len(),
        spec_count_active(active, j) == 0,
    ensures
        forall|t: int| 0 <= t < j ==> !active[t],
    decreases j,
{
    if j > 0 {
        lemma_count_nonneg(active, j - 1);
        lemma_count_zero(active, j - 1);
    }
}

proof fn lemma_count_nonneg(active: Seq<bool>, j: int)
    ensures
        spec_count_active(active, j) >= 0,
    decreases j,
{
    if j > 0 {
        lemma_count_nonneg(active, j - 1);
    }
}

proof fn lemma_count_bound(active: Seq<bool>, j: int)
    requires
        0 <= j,
    ensures
        spec_count_active(active, j) <= j,
    decreases j,
{
    if j > 0 {
        lemma_count_bound(active, j - 1);
    }
}

/// State of the lanes of a batched search: each active lane works on a
/// bucket of its own, and for every bucket the matches emitted so far,
/// followed by what its lane's walk has left, are the matches of the
/// search from its start position.
pub open spec fn spec_batch_inv(
    arr: Seq<u32>,
    input: Seq<u8>,
    starts: Seq<usize>,
    out: Seq<(usize, u32, usize)>,
    node: Seq<u32>,
    pos: Seq<usize>,
    bucket: Seq<usize>,
    active: Seq<bool>,
    ns: int,
) -> bool {
    let k = active.len();
    &&& node.len() == k
    &&& pos.len() == k
    &&& bucket.len() == k
    &&& 0 <= ns <= starts.len()
    &&& forall|t: int|
        0 <= t < k && #[trigger] active[t] ==> bucket[t] < ns && spec_common_prefix(
            arr,
            input,
            starts[bucket[t] as int] as int,
        ) == spec_group(out, bucket[t] as int) + spec_walk(arr, input, node[t], pos[t] as int)
    &&& forall|t1: int, t2: int|
        0 <= t1 < k && 0 <= t2 < k && t1 != t2 && #[trigger] active[t1] && #[trigger] active[t2]
            ==> bucket[t1] != bucket[t2]
    &&& forall|b: int|
        0 <= b < ns && (forall|t: int| 0 <= t < k ==> !(#[trigger] active[t] && bucket[t] == b))
            ==> #[trigger] spec_group(out, b) == spec_common_prefix(
            arr,
            input,
            starts[b] as int,
        )
    &&& forall|b: int| ns <= b < starts.len() ==> #[trigger] spec_group(out, b) == Seq::<
        (u32, int),
    >::empty()
    &&& (exists|t: int| 0 <= t < k && !#[trigger] active[t]) ==> ns == starts.len()
}

/// A lane whose walk goes on from `np` at position `p + 1`, having emitted
/// `emitted` (if any) for its bucket.
proof fn lemma_batch_advance(
    arr: Seq<u32>,
    input: Seq<u8>,
    starts: Seq<usize>,
    out: Seq<(usize, u32, usize)>,
    node: Seq<u32>,
    pos: Seq<usize>,
    bucket: Seq<usize>,
    active: Seq<bool>,
    ns: int,
    t: int,
    np: u32,
    emitted: Option<u32>,
)
    requires
        spec_batch_inv(arr, input, starts, out, node, pos, bucket, active, ns),
        0 <= t < active.len(),
        active[t],
        pos[t] < input.len(),
        pos[t] + 1 <= usize::MAX,
        match emitted {
            None => spec_step(arr, input[pos[t] as int], node[t]) == Step::Continue(np),
            Some(v) => spec_step(arr, input[pos[t] as int], node[t]) == Step::Match(np, v),
        },
    ensures
        ({
            let out2 = match emitted {
                None => out,
                Some(v) => out.push((bucket[t], v, (pos[t] + 1) as usize)),
            };
            spec_batch_inv(
                arr,
                input,
                starts,
                out2,
                node.update(t, np),
                pos.update(t, (pos[t] + 1) as usize),
                bucket,
                active,
                ns,
            )
        }),
{
    let out2 = match emitted {
        None => out,
        Some(v) => out.push((bucket[t], v, (pos[t] + 1) as usize)),
    };
    let node2 = node.update(t, np);
    let pos2 = pos.update(t, (pos[t] + 1) as usize);
    let k = active.len();
    assert forall|b: int| b != bucket[t] implies #[trigger] spec_group(out2, b) == spec_group(
        out,
        b,
    ) by {
        match emitted {
            None => {},
            Some(v) => {
                lemma_group_push(out, (bucket[t], v, (pos[t] + 1) as usize), b);
            },
        }
    }
    let i = pos[t] as int;
    match emitted {
        None => {},
        Some(v) => {
            lemma_group_push(out, (bucket[t], v, (pos[t] + 1) as usize), bucket[t] as int);
            assert(spec_walk(arr, input, node[t], i) == seq![(v, i + 1)] + spec_walk(
                arr,
                input,
                np,
                i + 1,
            ));
            assert(spec_group(out, bucket[t] as int) + (seq![(v, i + 1)] + spec_walk(
                arr,
                input,
                np,
                i + 1,
            )) =~= spec_group(out, bucket[t] as int).push((v, i + 1)) + spec_walk(
                arr,
                input,
                np,
                i + 1,
            ));
        },
    }
    assert forall|u: int| 0 <= u < k && #[trigger] active[u] implies bucket[u] < ns
        && spec_common_prefix(arr, input, starts[bucket[u] as int] as int) == spec_group(
        out2,
        bucket[u] as int,
    ) + spec_walk(arr, input, node2[u], pos2[u] as int) by {
        if u != t {
            assert(bucket[u] != bucket[t]);
        }
    }
    assert forall|b: int|
        0 <= b < ns && (forall|u: int| 0 <= u < k ==> !(#[trigger] active[u] && bucket[u] == b))
            implies #[trigger] spec_group(out2, b) == spec_common_prefix(
        arr,
        input,
        starts[b] as int,
    ) by {
        assert(!(active[t] && bucket[t] == b));
    }
    assert forall|b: int| ns <= b < starts.len() implies #[trigger] spec_group(out2, b)
        == Seq::<(u32, int)>::empty() by {
        assert(bucket[t] < ns);
    }
}

/// A lane whose walk has ended: its bucket is complete; the lane takes the
/// next start position, or retires when there is none.
proof fn lemma_batch_finish(
    arr: Seq<u32>,
    input: Seq<u8>,
    starts: Seq<usize>,
    out: Seq<(usize, u32, usize)>,
    node: Seq<u32>,
    pos: Seq<usize>,
    bucket: Seq<usize>,
    active: Seq<bool>,
    ns: int,
    t: int,
)
    requires
        spec_batch_inv(arr, input, starts, out, node, pos, bucket, active, ns),
        0 <= t < active.len(),
        active[t],
        spec_walk(arr, input, node[t], pos[t] as int) == Seq::<(u32, int)>::empty(),
        starts.len() <= usize::MAX,
    ensures
        ns < starts.len() ==> spec_batch_inv(
            arr,
            input,
            starts,
            out,
            node.update(t, spec_root(arr)),
            pos.update(t, starts[ns]),
            bucket.update(t, ns as usize),
            active,
            ns + 1,
        ),
        ns == starts.len() ==> spec_batch_inv(
            arr,
            input,
            starts,
            out,
            node,
            pos,
            bucket,
            active.update(t, false),
            ns,
        ),
{
    let k = active.len();
    let bt = bucket[t] as int;
    assert(spec_group(out, bt) + Seq::<(u32, int)>::empty() =~= spec_group(out, bt));
    if ns < starts.len() {
        let node2 = node.update(t, spec_root(arr));
        let pos2 = pos.update(t, starts[ns]);
        let bucket2 = bucket.update(t, ns as usize);
        assert(spec_group(out, ns) == Seq::<(u32, int)>::empty());
        assert(Seq::<(u32, int)>::empty() + spec_common_prefix(arr, input, starts[ns] as int)
            =~= spec_common_prefix(arr, input, starts[ns] as int));
        assert forall|u: int| 0 <= u < k && #[trigger] active[u] implies bucket2[u] < ns + 1
            && spec_common_prefix(arr, input, starts[bucket2[u] as int] as int) == spec_group(
            out,
            bucket2[u] as int,
        ) + spec_walk(arr, input, node2[u], pos2[u] as int) by {}
        assert forall|t1: int, t2: int|
            0 <= t1 < k && 0 <= t2 < k && t1 != t2 && #[trigger] active[t1]
                && #[trigger] active[t2] implies bucket2[t1] != bucket2[t2] by {
            if t1 == t {
                assert(bucket[t2] < ns);
            } else if t2 == t {
                assert(bucket[t1] < ns);
            }
        }
        assert forall|b: int|
            0 <= b < ns + 1 && (forall|u: int|
                0 <= u < k ==> !(#[trigger] active[u] && bucket2[u] == b)) implies #[trigger] spec_group(
            out,
            b,
        ) == spec_common_prefix(arr, input, starts[b] as int) by {
            if b == bt {
                assert(active[t]);
            } else {
                assert(b != ns);
                assert forall|u: int| 0 <= u < k implies !(#[trigger] active[u] && bucket[u]
                    == b) by {
                    if u != t {
                        assert(bucket2[u] == bucket[u]);
                    }
                }
            }
        }
        assert forall|b: int| ns + 1 <= b < starts.len() implies #[trigger] spec_group(out, b)
            == Seq::<(u32, int)>::empty() by {}
    } else {
        let active2 = active.update(t, false);
        assert forall|u: int| 0 <= u < k && #[trigger] active2[u] implies bucket[u] < ns
            && spec_common_prefix(arr, input, starts[bucket[u] as int] as int) == spec_group(
            out,
            bucket[u] as int,
        ) + spec_walk(arr, input, node[u], pos[u] as int) by {
            assert(active[u]);
        }
        assert forall|t1: int, t2: int|
            0 <= t1 < k && 0 <= t2 < k && t1 != t2 && #[trigger] active2[t1]
                && #[trigger] active2[t2] implies bucket[t1] != bucket[t2] by {
            assert(active[t1] && active[t2]);
        }
        assert forall|b: int|
            0 <= b < ns && (forall|u: int|
                0 <= u < k ==> !(#[trigger] active2[u] && bucket[u] == b)) implies #[trigger] spec_group(
            out,
            b,
        ) == spec_common_prefix(arr, input, starts[b] as int) by {
            if b != bt {
                assert forall|u: int| 0 <= u < k implies !(#[trigger] active[u] && bucket[u]
                    == b) by {
                    if u != t {
                        assert(active2[u] == active[u]);
                    }
                }
            } else {
                assert(active[t]);
            }
        }
    }
}

/// Number of lanes used for a requested lane count.
fn lane_count(lanes: usize) -> (r: usize)
    ensures
        2 <= r <= 16,
{
    if lanes <= 2 {
        2
    } else if lanes <= 4 {
        4
    } else if lanes <= 6 {
        6
    } else if lanes <= 8 {
        8
    } else if lanes <= 12 {
        12
    } else {
        16
    }
}

impl Trie {
    /// Common-prefix search from every position of `starts`, keeping four
    /// walks in flight. Each match is reported as `(bucket, value, end)`,
    /// where `bucket` indexes `starts`; the matches of one bucket come in the
    /// order of [`Trie::common_prefix_iterator`] for its start, while matches
    /// of different buckets interleave.
    pub fn common_prefix_batch(&self, input: &[u8], starts: &[usize]) -> (r: Vec<
        (usize, u32, usize),
    >)
        ensures
            forall|b: int|
                0 <= b < starts@.len() ==> #[trigger] spec_group(r@, b) == spec_common_prefix(
                    self.spec_array(),
                    input@,
                    starts@[b] as int,
                ),
            forall|j: int| 0 <= j < r@.len() ==> (#[trigger] r@[j]).0 < starts@.len(),
    {
        self.common_prefix_batch_cfg(input, starts, Self::DEFAULT_PREFETCH_LANES, true)
    }

    /// [`Trie::common_prefix_batch`] with an explicit lane count (rounded to
    /// 2, 4, 6, 8, 12 or 16). The prefetch flag is a hint that has no effect
    /// on the result.
    pub fn common_prefix_batch_cfg(
        &self,
        input: &[u8],
        starts: &[usize],
        lanes: usize,
        prefetch: bool,
    ) -> (r: Vec<(usize, u32, usize)>)
        ensures
            forall|b: int|
                0 <= b < starts@.len() ==> #[trigger] spec_group(r@, b) == spec_common_prefix(
                    self.spec_array(),
                    input@,
                    starts@[b] as int,
                ),
            forall|j: int| 0 <= j < r@.len() ==> (#[trigger] r@[j]).0 < starts@.len(),
    {
        let k = lane_count(lanes);
        self.batch_impl(input, starts, k)
    }

    fn batch_impl(&self, input: &[u8], starts: &[usize], k: usize) -> (r: Vec<
        (usize, u32, usize),
    >)
        requires
            1 <= k <= 16,
        ensures
            forall|b: int|
                0 <= b < starts@.len() ==> #[trigger] spec_group(r@, b) == spec_common_prefix(
                    self.spec_array(),
                    input@,
                    starts@[b] as int,
                ),
            forall|j: int| 0 <= j < r@.len() ==> (#[trigger] r@[j]).0 < starts@.len(),
    {
        let mut out: Vec<(usize, u32, usize)> = Vec::new();
        let ghost arr = self.spec_array();
        let trie = self.array.as_slice();
        let root = if trie.len() == 0 {
            0
        } else {
            offset_of(trie[0])
        };
        let n_in = input.len();
        let n_starts = starts.len();
        let mut node: Vec<u32> = Vec::new();
        let mut pos: Vec<usize> = Vec::new();
        let mut bucket: Vec<usize> = Vec::new();
        let mut active: Vec<bool> = Vec::new();
        let mut next_start: usize = 0;
        let mut live: usize = 0;
        let mut i: usize = 0;
        while i < k
            invariant
                i <= k,
                trie@ == arr,
                root == spec_root(arr),
                n_starts == starts@.len(),
                out@.len() == 0,
                node@.len() == i && pos@.len() == i && bucket@.len() == i && active@.len() == i,
                next_start <= n_starts,
                live == spec_count_active(active@, i as int),
                forall|t: int|
                    0 <= t < i ==> (#[trigger] active@[t] <==> t < next_start) && (active@[t]
                        ==> bucket@[t] == t && node@[t] == root && pos@[t] == starts@[t]),
                next_start <= i,
                next_start < i ==> next_start == n_starts,
            decreases k - i,
        {
            let ghost a_before = active@;
            proof {
                lemma_count_bound(active@, i as int);
            }
            if next_start < n_starts {
                node.push(root);
                pos.push(starts[next_start]);
                bucket.push(next_start);
                active.push(true);
                next_start = next_start + 1;
                live = live + 1;
            } else {
                node.push(0);
                pos.push(0);
                bucket.push(0);
                active.push(false);
            }
            proof {
                lemma_count_same_prefix(a_before, active@, i as int);
            }
            i = i + 1;
        }
        proof {
            assert(spec_batch_inv(
                arr,
                input@,
                starts@,
                out@,
                node@,
                pos@,
                bucket@,
                active@,
                next_start as int,
            )) by {
                assert forall|b: int| next_start <= b < starts@.len() implies #[trigger] spec_group(
                    out@,
                    b,
                ) == Seq::<(u32, int)>::empty() by {}
                assert forall|b: int|
                    0 <= b < next_start && (forall|t: int|
                        0 <= t < k ==> !(#[trigger] active@[t] && bucket@[t] == b)) implies #[trigger] spec_group(
                    out@,
                    b,
                ) == spec_common_prefix(arr, input@, starts@[b] as int) by {
                    assert(active@[b] && bucket@[b] == b);
                }
                assert forall|t: int|
                    0 <= t < k && #[trigger] active@[t] implies bucket@[t] < next_start
                    && spec_common_prefix(arr, input@, starts@[bucket@[t] as int] as int)
                    == spec_group(out@, bucket@[t] as int) + spec_walk(
                    arr,
                    input@,
                    node@[t],
                    pos@[t] as int,
                ) by {
                    assert(Seq::<(u32, int)>::empty() + spec_walk(
                        arr,
                        input@,
                        node@[t],
                        pos@[t] as int,
                    ) =~= spec_walk(arr, input@, node@[t], pos@[t] as int));
                }
            }
            lemma_lane_sum_nonneg(active@, pos@, n_in as int, k as int);
        }
        while live > 0
            invariant
                1 <= k <= 16,
                trie@ == arr,
                root == spec_root(arr),
                n_in == input@.len(),
                n_starts == starts@.len(),
                active@.len() == k,
                spec_batch_inv(
                    arr,
                    input@,
                    starts@,
                    out@,
                    node@,
                    pos@,
                    bucket@,
                    active@,
                    next_start as int,
                ),
                live == spec_count_active(active@, k as int),
                forall|j: int| 0 <= j < out@.len() ==> (#[trigger] out@[j]).0 < next_start,
            decreases (n_starts - next_start) * (n_in + 2) + spec_lane_sum(
                active@,
                pos@,
                n_in as int,
                k as int,
            ),
        {
            let ghost m0 = (n_starts - next_start) * (n_in + 2) + spec_lane_sum(
                active@,
                pos@,
                n_in as int,
                k as int,
            );
            let ghost live0 = live;
            let mut t: usize = 0;
            while t < k
                invariant
                    1 <= k <= 16,
                    t <= k,
                    trie@ == arr,
                    root == spec_root(arr),
                    n_in == input@.len(),
                    n_starts == starts@.len(),
                    active@.len() == k,
                    spec_batch_inv(
                        arr,
                        input@,
                        starts@,
                        out@,
                        node@,
                        pos@,
                        bucket@,
                        active@,
                        next_start as int,
                    ),
                    live == spec_count_active(active@, k as int),
                    forall|j: int| 0 <= j < out@.len() ==> (#[trigger] out@[j]).0 < next_start,
                    (n_starts - next_start) * (n_in + 2) + spec_lane_sum(
                        active@,
                        pos@,
                        n_in as int,
                        k as int,
                    ) <= m0,
                    (n_starts - next_start) * (n_in + 2) + spec_lane_sum(
                        active@,
                        pos@,
                        n_in as int,
                        k as int,
                    ) == m0 ==> (live == live0 && forall|u: int|
                        0 <= u < t ==> !#[trigger] active@[u]),
                decreases k - t,
            {
                if !active[t] {
                    t = t + 1;
                    continue;
                }
                let ghost a0 = active@;
                let ghost p0 = pos@;
                let ghost ns0 = next_start;
                let p = pos[t];
                let advanced = if p < n_in {
                    let byte = input[p];
                    match step_once(trie, byte, node[t]) {
                        Step::Dead => false,
                        Step::Continue(np) => {
                            proof {
                                lemma_batch_advance(
                                    arr,
                                    input@,
                                    starts@,
                                    out@,
                                    node@,
                                    pos@,
                                    bucket@,
                                    active@,
                                    next_start as int,
                                    t as int,
                                    np,
                                    None,
                                );
                            }
                            node.set(t, np);
                            pos.set(t, p + 1);
                            true
                        },
                        Step::Match(np, v) => {
                            proof {
                                lemma_batch_advance(
                                    arr,
                                    input@,
                                    starts@,
                                    out@,
                                    node@,
                                    pos@,
                                    bucket@,
                                    active@,
                                    next_start as int,
                                    t as int,
                                    np,
                                    Some(v),
                                );
                            }
                            out.push((bucket[t], v, p + 1));
                            node.set(t, np);
                            pos.set(t, p + 1);
                            true
                        },
                    }
                } else {
                    false
                };
                if !advanced {
                    proof {
                        lemma_batch_finish(
                            arr,
                            input@,
                            starts@,
                            out@,
                            node@,
                            pos@,
                            bucket@,
                            active@,
                            next_start as int,
                            t as int,
                        );
                    }
                    if next_start < n_starts {
                        node.set(t, root);
                        pos.set(t, starts[next_start]);
                        bucket.set(t, next_start);
                        next_start = next_start + 1;
                        proof {
                            let w = n_in + 2;
                            assert((n_starts - ns0 - 1) * w == (n_starts - ns0) * w - w)
                                by (nonlinear_arith);
                        }
                    } else {
                        proof {
                            lemma_count_pos(active@, k as int, t as int);
                        }
                        active.set(t, false);
                        live = live - 1;
                    }
                }
                proof {
                    lemma_lane_update(a0, p0, active@, pos@, n_in as int, k as int, t as int);
                    lemma_lane_sum_nonneg(active@, pos@, n_in as int, k as int);
                }
                t = t + 1;
            }
            proof {
                if (n_starts - next_start) * (n_in + 2) + spec_lane_sum(
                    active@,
                    pos@,
                    n_in as int,
                    k as int,
                ) == m0 {
                    lemma_count_zero_all(active@, k as int);
                }
                lemma_lane_sum_nonneg(active@, pos@, n_in as int, k as int);
            }
        }
        proof {
            lemma_count_zero(active@, k as int);
            assert(!active@[0]);
        }
        out
    }
}

proof fn lemma_count_same_prefix(a1: Seq<bool>, a2: Seq<bool>, j: int)
    requires
        0 <= j <= a1.len(),
        j <= a2.len(),
        forall|t: int| 0 <= t < j ==> a1[t] == a2[t],
    ensures
        spec_count_active(a1, j) == spec_count_active(a2, j),
    decreases j,
{
    if j > 0 {
        lemma_count_same_prefix(a1, a2, j - 1);
    }
}

proof fn lemma_count_pos(active: Seq<bool>, k: int, t: int)
    requires
        0 <= t < k <= active.len(),
        active[t],
    ensures
        spec_count_active(active, k) >= 1,
    decreases k,
{
    if t < k - 1 {
        lemma_count_pos(active, k - 1, t);
    } else {
        lemma_count_nonneg(active, k - 1);
    }
}

proof fn lemma_count_zero_all(active: Seq<bool>, k: int)
    requires
        0 <= k <= active.len(),
        forall|u: int| 0 <= u < k ==> !#[trigger] active[u],
    ensures
        spec_count_active(active, k) == 0,
    decreases k,
{
    if k > 0 {
        lemma_count_zero_all(active, k - 1);
    }
}

} // verus!
