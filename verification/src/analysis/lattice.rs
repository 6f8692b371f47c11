//! Lattice for the Viterbi search of the cheapest segmentation of a sentence.
//!
//! Nodes are grouped by the character boundary where they end. Each inserted
//! node is connected to the cheapest path that reaches its first character,
//! and keeps a pointer back to the node that path ends with.

use vstd::prelude::*;

use vstd::string::StringExecFns;

use crate::analysis::inner::{Node, NodeIdx};
use crate::analysis::node::{LatticeNode, RightId};
use crate::dic::connect::ConnectionMatrix;
use crate::dic::grammar::{spec_join, spec_strings, Grammar};
use crate::dic::lexicon_set::LexiconSet;
use crate::dic::subset::{InfoSubset, POS_ID};
use crate::dic::word_id::{spec_dic_of, spec_word_of, WordId, OOV_DIC};
use crate::input_text::InputBuffer;
use crate::util::{push_decimal, push_signed_decimal, spec_decimal, spec_signed_decimal};
use crate::error::{SudachiError, SudachiResult};

verus! {

/// Longest sentence, in characters, that a lattice accepts: path costs then
/// always fit 32 bits.
pub const MAX_LATTICE_LENGTH: usize = 32766;

/// Most nodes that may end at one boundary.
pub const MAX_NODES_PER_BOUNDARY: usize = 65535;

/// Total cost of a path and right id of its last node.
struct VNode {
    total_cost: i32,
    right_id: u16,
}

/// Cost of extending a path of cost `total`, whose last node has right id
/// `right`, with a node of left id `left` and cost `cost`.
pub open spec fn spec_step(total: i32, right: u16, left: u16, cost: i16, conn: ConnectionMatrix) -> int {
    total + conn.spec_cost(right as int, left as int) + cost
}

/// Cheapest way to extend one of the first `n` paths (given by their costs
/// and right ids) with a node of left id `left` and cost `cost`: the index
/// of the first cheapest one and its cost, or `(-1, i32::MAX)` when none of
/// them is connected to the start.
pub open spec fn spec_best(
    totals: Seq<i32>,
    rights: Seq<u16>,
    n: int,
    left: u16,
    cost: i16,
    conn: ConnectionMatrix,
) -> (int, int)
    decreases n,
{
    if n <= 0 {
        (-1, i32::MAX as int)
    } else {
        let (i, c) = spec_best(totals, rights, n - 1, left, cost, conn);
        if totals[n - 1] != i32::MAX && spec_step(totals[n - 1], rights[n - 1], left, cost, conn)
            < c {
            (n - 1, spec_step(totals[n - 1], rights[n - 1], left, cost, conn))
        } else {
            (i, c)
        }
    }
}

/// The cheapest extension is no more expensive than extending any connected
/// path, and when it exists its cost is that of extending the path it names.
pub proof fn lemma_best_is_min(
    totals: Seq<i32>,
    rights: Seq<u16>,
    n: int,
    left: u16,
    cost: i16,
    conn: ConnectionMatrix,
)
    requires
        0 <= n,
    ensures
        ({
            let (i, c) = spec_best(totals, rights, n, left, cost, conn);
            &&& i < n
            &&& c <= i32::MAX
            &&& forall|j: int|
                0 <= j < n && totals[j] != i32::MAX ==> c <= spec_step(
                    totals[j],
                    rights[j],
                    left,
                    cost,
                    conn,
                )
            &&& i >= 0 ==> totals[i] != i32::MAX && c == spec_step(totals[i], rights[i], left, cost, conn)
            &&& i < 0 ==> c == i32::MAX
        }),
    decreases n,
{
    if n > 0 {
        lemma_best_is_min(totals, rights, n - 1, left, cost, conn);
        let (i, c) = spec_best(totals, rights, n, left, cost, conn);
        let (i0, c0) = spec_best(totals, rights, n - 1, left, cost, conn);
        assert forall|j: int|
            0 <= j < n && totals[j] != i32::MAX implies c <= spec_step(
            totals[j],
            rights[j],
            left,
            cost,
            conn,
        ) by {
            if j < n - 1 {
                assert(c0 <= spec_step(totals[j], rights[j], left, cost, conn));
            }
        }
    }
}

/// Bound on the magnitude of the cost of a path that ends at boundary `b`.
pub open spec fn spec_cost_bound(b: int) -> int {
    65536 * b
}

/// Lattice of the nodes of one sentence, grouped by end boundary.
pub struct Lattice {
    ends: Vec<Vec<VNode>>,
    ends_full: Vec<Vec<Node>>,
    indices: Vec<Vec<NodeIdx>>,
    eos: Option<(NodeIdx, i32)>,
    size: usize,
    frontier: Ghost<int>,
}

impl Lattice {
    /// Number of boundaries: sentence length plus one.
    pub closed spec fn spec_size(&self) -> int {
        self.size as int
    }

    /// Number of nodes ending at boundary `b` (the start marker at boundary 0).
    pub closed spec fn spec_count(&self, b: int) -> int {
        self.ends@[b]@.len() as int
    }

    /// Cost of the cheapest path ending with node `k` of boundary `b`, or
    /// `i32::MAX` when no path reaches it.
    pub closed spec fn spec_totals(&self, b: int) -> Seq<i32> {
        self.ends@[b]@.map_values(|v: VNode| v.total_cost)
    }

    /// Right ids of the nodes ending at boundary `b`.
    pub closed spec fn spec_rights(&self, b: int) -> Seq<u16> {
        self.ends@[b]@.map_values(|v: VNode| v.right_id)
    }

    /// Node `k` of boundary `b`.
    pub closed spec fn spec_node(&self, b: int, k: int) -> Node {
        self.ends_full@[b]@[k]
    }

    /// Position of the node before node `k` of boundary `b` on its cheapest path.
    pub closed spec fn spec_prev(&self, b: int, k: int) -> NodeIdx {
        self.indices@[b]@[k]
    }

    /// The end of the sentence, once connected: the last node of the
    /// cheapest path and the cost of that path.
    pub closed spec fn spec_eos(&self) -> Option<(NodeIdx, i32)> {
        self.eos
    }

    /// Largest first character among the inserted nodes.
    pub closed spec fn spec_frontier(&self) -> int {
        self.frontier@
    }

    /// Cheapest way to connect `r` to a path ending where it starts.
    pub open spec fn spec_connect(&self, r: Node, conn: ConnectionMatrix) -> (int, int) {
        let b = r.spec_begin() as int;
        spec_best(
            self.spec_totals(b),
            self.spec_rights(b),
            self.spec_count(b),
            r.spec_left_id(),
            r.spec_cost(),
            conn,
        )
    }

    /// Shape of the lattice: the start marker alone at boundary 0, as many
    /// nodes, costs and back pointers at each other boundary, nothing past the
    /// last boundary, every node ending where it is stored and starting
    /// earlier, and every reachable node pointing back to a node that ends
    /// where it starts, with a path cost bounded by its end.
    pub closed spec fn wf(&self) -> bool {
        &&& 1 <= self.size <= MAX_LATTICE_LENGTH + 1
        &&& self.ends@.len() >= self.size
        &&& self.ends_full@.len() >= self.size
        &&& self.indices@.len() >= self.size
        &&& self.ends@[0]@.len() == 1
        &&& self.ends@[0]@[0].total_cost == 0
        &&& self.ends@[0]@[0].right_id == 0
        &&& self.ends_full@[0]@.len() == 0
        &&& self.indices@[0]@.len() == 0
        &&& 0 <= self.frontier@ < self.size
        &&& forall|b: int|
            self.size <= b < self.ends@.len() ==> (#[trigger] self.ends@[b])@.len() == 0
        &&& forall|b: int|
            1 <= b < self.size ==> (#[trigger] self.ends@[b])@.len() == self.ends_full@[b]@.len()
                && self.ends@[b]@.len() == self.indices@[b]@.len() && self.ends@[b]@.len()
                <= MAX_NODES_PER_BOUNDARY
        &&& forall|b: int, k: int|
            1 <= b < self.size && 0 <= k < self.ends@[b]@.len() ==> Self::node_ok(
                #[trigger] self.ends_full@[b]@[k],
                self.ends@[b]@[k],
                self.indices@[b]@[k],
                b,
                self.ends@[self.ends_full@[b]@[k].spec_begin() as int]@.len() as int,
                self.frontier@,
            )
    }

    /// Node `n` stored at boundary `b`, with its path cost and back pointer.
    closed spec fn node_ok(n: Node, v: VNode, p: NodeIdx, b: int, pred_count: int, frontier: int) -> bool {
        &&& n.spec_end() == b
        &&& n.spec_begin() < b
        &&& n.spec_begin() <= frontier
        &&& v.right_id == n.spec_right_id()
        &&& v.total_cost == i32::MAX || (-spec_cost_bound(b) <= v.total_cost <= spec_cost_bound(b)
            && p.spec_end() == n.spec_begin() && p.spec_index() < pred_count)
    }

    /// Costs and back pointers agree with `conn`: connection ids are inside
    /// the matrix and every node is connected to the cheapest path ending
    /// where it starts.
    pub closed spec fn consistent(&self, conn: ConnectionMatrix) -> bool {
        &&& conn.wf()
        &&& conn.spec_num_left() > 0
        &&& forall|b: int, k: int|
            0 <= b < self.size && 0 <= k < self.ends@[b]@.len() ==> (#[trigger] self.ends@[b]@[k]).right_id
                < conn.spec_num_left()
        &&& forall|b: int, k: int|
            1 <= b < self.size && 0 <= k < self.ends@[b]@.len() ==> Self::node_connected(
                #[trigger] self.ends_full@[b]@[k],
                self.ends@[b]@[k],
                self.indices@[b]@[k],
                self.spec_totals(self.ends_full@[b]@[k].spec_begin() as int),
                self.spec_rights(self.ends_full@[b]@[k].spec_begin() as int),
                conn,
            )
    }

    /// Node `n` with path cost `v` and back pointer `p` is connected to the
    /// cheapest of the paths `totals`/`rights` ending where it starts.
    closed spec fn node_connected(
        n: Node,
        v: VNode,
        p: NodeIdx,
        totals: Seq<i32>,
        rights: Seq<u16>,
        conn: ConnectionMatrix,
    ) -> bool {
        let (i, c) = spec_best(
            totals,
            rights,
            totals.len() as int,
            n.spec_left_id(),
            n.spec_cost(),
            conn,
        );
        &&& n.spec_left_id() < conn.spec_num_right()
        &&& v.total_cost == c
        &&& i >= 0 ==> p.spec_index() == i
        &&& i < 0 ==> p == NodeIdx::spec_empty()
    }
}

/// Clears every inner vector and extends the outer one to `target` entries.
fn reset_vec<T>(data: &mut Vec<Vec<T>>, target: usize)
    ensures
        final(data)@.len() == (if old(data)@.len() < target {
            target as int
        } else {
            old(data)@.len() as int
        }),
        forall|i: int| 0 <= i < final(data)@.len() ==> (#[trigger] final(data)@[i])@.len() == 0,
{
    let n = data.len();
    let mut i: usize = 0;
    while i < n
        invariant
            i <= n,
            data@.len() == n,
            forall|j: int| 0 <= j < i ==> (#[trigger] data@[j])@.len() == 0,
        decreases n - i,
    {
        data[i].clear();
        i = i + 1;
    }
    while data.len() < target
        invariant
            data@.len() >= n,
            n == old(data)@.len(),
            n < target ==> data@.len() <= target,
            n >= target ==> data@.len() == n,
            forall|j: int| 0 <= j < data@.len() ==> (#[trigger] data@[j])@.len() == 0,
        decreases target - data@.len(),
    {
        data.push(Vec::with_capacity(16));
    }
}

impl Lattice {
    /// An empty lattice, to be reset before use.
    pub fn default() -> (r: Lattice)
        ensures
            r.spec_size() == 0,
            r.spec_eos() is None,
            r.spec_frontier() == 0,
    {
        Lattice {
            ends: Vec::new(),
            ends_full: Vec::new(),
            indices: Vec::new(),
            eos: None,
            size: 0,
            frontier: Ghost(0),
        }
    }

    /// Prepares the lattice for a sentence of `length` characters: every
    /// boundary empty but the start marker, and no end connected.
    pub fn reset(&mut self, length: usize)
        requires
            length <= MAX_LATTICE_LENGTH,
        ensures
            final(self).wf(),
            final(self).spec_size() == length + 1,
            final(self).spec_count(0) == 1,
            final(self).spec_totals(0) == seq![0i32],
            final(self).spec_rights(0) == seq![0u16],
            forall|b: int| 1 <= b <= length ==> #[trigger] final(self).spec_count(b) == 0,
            final(self).spec_eos() is None,
            final(self).spec_frontier() == 0,
            forall|conn: ConnectionMatrix|
                conn.wf() && conn.spec_num_left() > 0 ==> #[trigger] final(self).consistent(conn),
    {
        reset_vec(&mut self.ends, length + 1);
        reset_vec(&mut self.ends_full, length + 1);
        reset_vec(&mut self.indices, length + 1);
        self.eos = None;
        self.size = length + 1;
        self.frontier = Ghost(0);
        self.connect_bos();
        proof {
            assert(self.spec_totals(0) =~= seq![0i32]);
        }
    }

    /// Places the start marker at boundary 0.
    fn connect_bos(&mut self)
        requires
            old(self).ends@.len() >= 1,
            old(self).ends@[0]@.len() == 0,
        ensures
            final(self).ends@.len() == old(self).ends@.len(),
            final(self).ends@[0]@ == seq![VNode { total_cost: 0, right_id: 0 }],
            forall|b: int|
                1 <= b < old(self).ends@.len() ==> #[trigger] final(self).ends@[b] == old(self).ends@[b],
            final(self).ends_full == old(self).ends_full,
            final(self).indices == old(self).indices,
            final(self).eos == old(self).eos,
            final(self).size == old(self).size,
            final(self).frontier == old(self).frontier,
    {
        self.ends[0].push(VNode { total_cost: 0, right_id: 0 });
    }
}


impl Lattice {
    /// Finds the cheapest path through the lattice to a node starting at
    /// boundary `begin` with left id `left` and cost `cost`: the position of
    /// its last node (empty when none) and its cost extended by the node
    /// (`i32::MAX` when no path reaches `begin`).
    fn connect_at(&self, begin: usize, left: u16, cost: i16, conn: &ConnectionMatrix) -> (r: (
        NodeIdx,
        i32,
    ))
        requires
            self.wf(),
            self.consistent(*conn),
            begin < self.spec_size(),
            left < conn.spec_num_right(),
        ensures
            ({
                let (i, c) = spec_best(
                    self.spec_totals(begin as int),
                    self.spec_rights(begin as int),
                    self.spec_count(begin as int),
                    left,
                    cost,
                    *conn,
                );
                &&& r.1 == c
                &&& i >= 0 ==> r.0 == NodeIdx::spec_new(begin as u16, i as u16)
                &&& i < 0 ==> r.0 == NodeIdx::spec_empty()
                &&& r.1 == i32::MAX || -spec_cost_bound(begin + 1) <= r.1 <= spec_cost_bound(
                    begin + 1,
                )
            }),
    {
        let node_cost = cost as i32;
        let mut min_cost = i32::MAX;
        let mut prev_idx = NodeIdx::empty();
        let ghost totals = self.spec_totals(begin as int);
        let ghost rights = self.spec_rights(begin as int);
        let n = self.ends[begin].len();
        let mut i: usize = 0;
        while i < n
            invariant
                i <= n,
                n == self.ends@[begin as int]@.len(),
                self.wf(),
                self.consistent(*conn),
                begin < self.spec_size(),
                left < conn.spec_num_right(),
                totals == self.spec_totals(begin as int),
                rights == self.spec_rights(begin as int),
                node_cost == cost,
                ({
                    let (bi, bc) = spec_best(totals, rights, i as int, left, cost, *conn);
                    &&& min_cost == bc
                    &&& bi >= 0 ==> prev_idx == NodeIdx::spec_new(begin as u16, bi as u16)
                    &&& bi < 0 ==> prev_idx == NodeIdx::spec_empty()
                }),
                min_cost == i32::MAX || -spec_cost_bound(begin + 1) <= min_cost <= spec_cost_bound(
                    begin + 1,
                ),
            decreases n - i,
        {
            let l_node = &self.ends[begin][i];
            proof {
                assert(totals[i as int] == l_node.total_cost);
                assert(rights[i as int] == l_node.right_id);
                assert(l_node.right_id < conn.spec_num_left());
                if begin > 0 {
                    assert(Self::node_ok(
                        self.ends_full@[begin as int]@[i as int],
                        self.ends@[begin as int]@[i as int],
                        self.indices@[begin as int]@[i as int],
                        begin as int,
                        self.ends@[self.ends_full@[begin as int]@[i as int].spec_begin() as int]@.len() as int,
                        self.frontier@,
                    ));
                }
            }
            if l_node.total_cost != i32::MAX {
                let connect_cost = conn.cost(l_node.right_id, left) as i32;
                proof {
                    assert(-32768 <= connect_cost <= 32767);
                    assert(spec_cost_bound(begin as int + 1) == spec_cost_bound(begin as int) + 65536);
                }
                let new_cost = l_node.total_cost + connect_cost + node_cost;
                if new_cost < min_cost {
                    min_cost = new_cost;
                    prev_idx = NodeIdx::new(begin as u16, i as u16);
                }
            }
            i = i + 1;
        }
        (prev_idx, min_cost)
    }

    /// Finds the cheapest path through the lattice to `r_node`: the position
    /// of the last node before it and the cost of the path through it.
    pub fn connect_node(&self, r_node: &Node, conn: &ConnectionMatrix) -> (r: (NodeIdx, i32))
        requires
            self.wf(),
            self.consistent(*conn),
            r_node.spec_begin() < self.spec_size(),
            r_node.spec_left_id() < conn.spec_num_right(),
        ensures
            ({
                let (i, c) = self.spec_connect(*r_node, *conn);
                &&& r.1 == c
                &&& i >= 0 ==> r.0 == NodeIdx::spec_new(r_node.spec_begin(), i as u16)
                &&& i < 0 ==> r.0 == NodeIdx::spec_empty()
                &&& r.1 == i32::MAX || -spec_cost_bound(r_node.spec_begin() + 1) <= r.1
                    <= spec_cost_bound(r_node.spec_begin() + 1)
            }),
    {
        self.connect_at(r_node.begin(), r_node.left_id(), r_node.cost(), conn)
    }

    /// Inserts a node, connecting it to the cheapest path ending where it
    /// starts; returns the cost of the path through it. Nodes must be
    /// inserted in order of their first character.
    pub fn insert(&mut self, node: Node, conn: &ConnectionMatrix) -> (r: i32)
        requires
            old(self).wf(),
            old(self).consistent(*conn),
            node.spec_begin() < node.spec_end() < old(self).spec_size(),
            node.spec_begin() >= old(self).spec_frontier(),
            node.spec_left_id() < conn.spec_num_right(),
            node.spec_right_id() < conn.spec_num_left(),
            old(self).spec_count(node.spec_end() as int) < MAX_NODES_PER_BOUNDARY,
        ensures
            final(self).wf(),
            final(self).consistent(*conn),
            final(self).spec_size() == old(self).spec_size(),
            final(self).spec_eos() == old(self).spec_eos(),
            final(self).spec_frontier() == node.spec_begin(),
            r == old(self).spec_connect(node, *conn).1,
            old(self).spec_reach_finite() && old(self).spec_count(node.spec_begin() as int) > 0
                ==> r < i32::MAX && final(self).spec_reach_finite(),
            ({
                let e = node.spec_end() as int;
                let k = old(self).spec_count(e);
                &&& final(self).spec_count(e) == k + 1
                &&& final(self).spec_node(e, k) == node
                &&& final(self).spec_totals(e) == old(self).spec_totals(e).push(r)
                &&& final(self).spec_rights(e) == old(self).spec_rights(e).push(
                    node.spec_right_id(),
                )
            }),
            forall|b: int|
                0 <= b < old(self).spec_size() && b != node.spec_end() ==> #[trigger] final(self).spec_count(b) == old(self).spec_count(b) && final(self).spec_totals(b) == old(self).spec_totals(b) && final(self).spec_rights(b) == old(self).spec_rights(b),
            forall|b: int, k: int|
                0 <= b < old(self).spec_size() && 0 <= k < old(self).spec_count(b) ==> #[trigger] final(self).spec_node(b, k) == old(self).spec_node(b, k) && final(self).spec_prev(b, k) == old(self).spec_prev(b, k),
    {
        let (idx, cost) = self.connect_node(&node, conn);
        let end_idx = node.end();
        let right = node.right_id();
        let ghost old_self = *self;
        let ghost nb = node.spec_begin() as int;
        self.ends[end_idx].push(VNode { total_cost: cost, right_id: right });
        self.indices[end_idx].push(idx);
        self.ends_full[end_idx].push(node);
        self.frontier = Ghost(node.spec_begin() as int);
        proof {
            let e = end_idx as int;
            lemma_best_is_min(
                old_self.spec_totals(nb),
                old_self.spec_rights(nb),
                old_self.spec_count(nb),
                node.spec_left_id(),
                node.spec_cost(),
                *conn,
            );
            assert(self.spec_totals(e) =~= old_self.spec_totals(e).push(cost));
            assert(self.spec_rights(e) =~= old_self.spec_rights(e).push(right));
            assert(self.spec_totals(nb) == old_self.spec_totals(nb));
            assert(self.spec_rights(nb) == old_self.spec_rights(nb));
            let ghost old_len = old_self.ends@[e]@.len();
            assert(self.ends@[e]@ == old_self.ends@[e]@.push(VNode { total_cost: cost, right_id: right }));
            assert(self.ends_full@[e]@ == old_self.ends_full@[e]@.push(node));
            assert(self.indices@[e]@ == old_self.indices@[e]@.push(idx));
            assert forall|b: int, k: int|
                1 <= b < self.size && 0 <= k < self.ends@[b]@.len() implies Self::node_ok(
                #[trigger] self.ends_full@[b]@[k],
                self.ends@[b]@[k],
                self.indices@[b]@[k],
                b,
                self.ends@[self.ends_full@[b]@[k].spec_begin() as int]@.len() as int,
                self.frontier@,
            ) by {
                if b == e && k == old_len {
                    assert(self.ends_full@[b]@[k] == node);
                    assert(self.indices@[b]@[k] == idx);
                    assert(self.ends@[nb]@.len() == old_self.ends@[nb]@.len());
                    let (bi, bc) = old_self.spec_connect(node, *conn);
                    if bi >= 0 {
                        NodeIdx::lemma_new(node.spec_begin(), bi as u16);
                    }
                } else {
                    assert(self.ends_full@[b]@[k] == old_self.ends_full@[b]@[k]);
                    assert(self.ends@[b]@[k] == old_self.ends@[b]@[k]);
                    assert(self.indices@[b]@[k] == old_self.indices@[b]@[k]);
                    let nbk = old_self.ends_full@[b]@[k].spec_begin() as int;
                    assert(Self::node_ok(
                        old_self.ends_full@[b]@[k],
                        old_self.ends@[b]@[k],
                        old_self.indices@[b]@[k],
                        b,
                        old_self.ends@[nbk]@.len() as int,
                        old_self.frontier@,
                    ));
                    assert(nbk != e);
                    assert(self.ends@[nbk] == old_self.ends@[nbk]);
                }
            }
            assert forall|b: int, k: int|
                0 <= b < self.size && 0 <= k < self.ends@[b]@.len() implies (#[trigger] self.ends@[b]@[k]).right_id
                < conn.spec_num_left() by {
                if b != e || k < old_self.ends@[b]@.len() {
                    assert(old_self.ends@[b]@[k].right_id < conn.spec_num_left());
                }
            }
            assert forall|b: int, k: int|
                1 <= b < self.size && 0 <= k < self.ends@[b]@.len() implies Self::node_connected(
                #[trigger] self.ends_full@[b]@[k],
                self.ends@[b]@[k],
                self.indices@[b]@[k],
                self.spec_totals(self.ends_full@[b]@[k].spec_begin() as int),
                self.spec_rights(self.ends_full@[b]@[k].spec_begin() as int),
                *conn,
            ) by {
                if b == e && k == old_len {
                    assert(self.ends_full@[b]@[k] == node);
                    assert(self.indices@[b]@[k] == idx);
                    assert(self.ends@[b]@[k] == VNode { total_cost: cost, right_id: right });
                    assert(self.spec_totals(nb).len() == old_self.spec_count(nb));
                    let (bi, bc) = old_self.spec_connect(node, *conn);
                    if bi >= 0 {
                        NodeIdx::lemma_new(node.spec_begin(), bi as u16);
                    }
                } else {
                    assert(self.ends_full@[b]@[k] == old_self.ends_full@[b]@[k]);
                    assert(self.ends@[b]@[k] == old_self.ends@[b]@[k]);
                    assert(self.indices@[b]@[k] == old_self.indices@[b]@[k]);
                    let nbk = old_self.ends_full@[b]@[k].spec_begin() as int;
                    assert(Self::node_ok(
                        old_self.ends_full@[b]@[k],
                        old_self.ends@[b]@[k],
                        old_self.indices@[b]@[k],
                        b,
                        old_self.ends@[nbk]@.len() as int,
                        old_self.frontier@,
                    ));
                    assert(Self::node_connected(
                        old_self.ends_full@[b]@[k],
                        old_self.ends@[b]@[k],
                        old_self.indices@[b]@[k],
                        old_self.spec_totals(nbk),
                        old_self.spec_rights(nbk),
                        *conn,
                    ));
                    assert(nbk != e);
                    assert(self.ends@[nbk] == old_self.ends@[nbk]);
                    assert(self.spec_totals(nbk) == old_self.spec_totals(nbk));
                    assert(self.spec_rights(nbk) == old_self.spec_rights(nbk));
                }
            }
            assert forall|b: int|
                0 <= b < old_self.spec_size() && b != node.spec_end() implies #[trigger] self.spec_count(
                b,
            ) == old_self.spec_count(b) && self.spec_totals(b) == old_self.spec_totals(b)
                && self.spec_rights(b) == old_self.spec_rights(b) by {}
            if old_self.spec_reach_finite() && old_self.spec_count(nb) > 0 {
                old_self.lemma_best_finite(nb, node.spec_left_id(), node.spec_cost(), *conn);
                let e = end_idx as int;
                assert forall|b: int|
                    0 <= b < self.spec_size() && self.spec_count(b) > 0 implies exists|k: int|
                        0 <= k < self.spec_count(b) && #[trigger] self.spec_totals(b)[k] != i32::MAX by {
                    if b == e {
                        let k0 = old_self.spec_count(e);
                        assert(self.spec_totals(e)[k0] == cost);
                    } else {
                        let k = choose|k: int| 0 <= k < old_self.spec_count(b) && #[trigger] old_self.spec_totals(b)[k] != i32::MAX;
                        assert(self.spec_totals(b)[k] == old_self.spec_totals(b)[k]);
                    }
                }
            }
        }
        cost
    }

    /// Connects the end of the sentence to the cheapest complete path; an
    /// error when no path reaches the last boundary.
    pub fn connect_eos(&mut self, conn: &ConnectionMatrix) -> (r: SudachiResult<()>)
        requires
            old(self).wf(),
            old(self).consistent(*conn),
            conn.spec_num_right() > 0,
        ensures
            final(self).wf(),
            final(self).consistent(*conn),
            ({
                let b = old(self).spec_size() - 1;
                let (i, c) = spec_best(
                    old(self).spec_totals(b),
                    old(self).spec_rights(b),
                    old(self).spec_count(b),
                    0,
                    0,
                    *conn,
                );
                &&& r is Err <==> c == i32::MAX
                &&& (r matches Err(e) ==> e matches SudachiError::EosBosDisconnect)
                &&& r is Ok ==> final(self).spec_eos() == Some(
                    (NodeIdx::spec_new(b as u16, i as u16), c as i32),
                )
            }),
            final(self).spec_size() == old(self).spec_size(),
            final(self).spec_frontier() == old(self).spec_frontier(),
            forall|b: int|
                0 <= b < old(self).spec_size() ==> #[trigger] final(self).spec_count(b) == old(self).spec_count(b) && final(self).spec_totals(b) == old(self).spec_totals(b)
                    && final(self).spec_rights(b) == old(self).spec_rights(b),
            r is Err ==> final(self).spec_eos() == old(self).spec_eos(),
            r is Ok && old(self).spec_size() >= 2 ==> final(self).spec_connected_end(),
            r is Ok ==> final(self).spec_eos_best(*conn),
            old(self).spec_reach_finite() && old(self).spec_count(old(self).spec_size() - 1) > 0 ==> r is Ok,
            forall|b: int, k: int|
                0 <= b < old(self).spec_size() && 0 <= k < old(self).spec_count(b) ==> #[trigger] final(self).spec_node(b, k) == old(self).spec_node(b, k) && final(self).spec_prev(b, k) == old(self).spec_prev(b, k),
    {
        let last = self.size - 1;
        let (idx, cost) = self.connect_at(last, 0, 0, conn);
        proof {
            if self.spec_reach_finite() && self.spec_count(last as int) > 0 {
                self.lemma_best_finite(last as int, 0, 0, *conn);
            }
        }
        if cost == i32::MAX {
            Err(SudachiError::EosBosDisconnect)
        } else {
            proof {
                lemma_best_is_min(
                    self.spec_totals(last as int),
                    self.spec_rights(last as int),
                    self.spec_count(last as int),
                    0,
                    0,
                    *conn,
                );
                let (i, c) = spec_best(
                    self.spec_totals(last as int),
                    self.spec_rights(last as int),
                    self.spec_count(last as int),
                    0,
                    0,
                    *conn,
                );
                NodeIdx::lemma_new(last as u16, i as u16);
                assert(self.spec_totals(last as int).len() == self.spec_count(last as int));
            }
            self.eos = Some((idx, cost));
            Ok(())
        }
    }

    /// Every boundary that holds a node holds one that a path from the start
    /// reaches.
    pub open spec fn spec_reach_finite(&self) -> bool {
        forall|b: int|
            0 <= b < self.spec_size() && self.spec_count(b) > 0 ==> exists|k: int|
                0 <= k < self.spec_count(b) && #[trigger] self.spec_totals(b)[k] != i32::MAX
    }

    /// A node that starts at a boundary holding a reached node is reached:
    /// the cheapest way to connect to that boundary has a finite cost.
    pub proof fn lemma_best_finite(&self, b: int, left: u16, cost: i16, conn: ConnectionMatrix)
        requires
            self.wf(),
            0 <= b < self.spec_size(),
            exists|k: int| 0 <= k < self.spec_count(b) && #[trigger] self.spec_totals(b)[k] != i32::MAX,
        ensures
            spec_best(self.spec_totals(b), self.spec_rights(b), self.spec_count(b), left, cost, conn).1
                < i32::MAX,
    {
        let k = choose|k: int| 0 <= k < self.spec_count(b) && #[trigger] self.spec_totals(b)[k] != i32::MAX;
        lemma_best_is_min(self.spec_totals(b), self.spec_rights(b), self.spec_count(b), left, cost, conn);
        let t = self.spec_totals(b)[k];
        if b == 0 {
            assert(t == 0);
        } else {
            assert(Self::node_ok(
                self.ends_full@[b]@[k],
                self.ends@[b]@[k],
                self.indices@[b]@[k],
                b,
                self.ends@[self.ends_full@[b]@[k].spec_begin() as int]@.len() as int,
                self.frontier@,
            ));
            assert(t <= spec_cost_bound(b));
            assert(spec_cost_bound(b) <= 65536 * 32766) by (nonlinear_arith)
                requires
                    b <= 32766,
            ;
        }
        assert(spec_step(t, self.spec_rights(b)[k], left, cost, conn) < i32::MAX);
    }

    /// A node ends where it is stored and starts earlier.
    pub proof fn lemma_node_span(&self, b: int, k: int)
        requires
            self.wf(),
            1 <= b < self.spec_size(),
            0 <= k < self.spec_count(b),
        ensures
            self.spec_node(b, k).spec_begin() < self.spec_node(b, k).spec_end(),
            self.spec_node(b, k).spec_end() == b,
    {
        assert(Self::node_ok(
            self.ends_full@[b]@[k],
            self.ends@[b]@[k],
            self.indices@[b]@[k],
            b,
            self.ends@[self.ends_full@[b]@[k].spec_begin() as int]@.len() as int,
            self.frontier@,
        ));
    }

    /// No boundary holds a negative number of nodes.
    pub proof fn lemma_count_nonneg(&self, b: int)
        ensures
            self.spec_count(b) >= 0,
    {
    }

    /// The node at position `id`.
    pub open spec fn spec_node_at(&self, id: NodeIdx) -> Node {
        self.spec_node(id.spec_end() as int, id.spec_index() as int)
    }

    /// Whether `id` is the position of a node of the lattice that a path
    /// from the start reaches.
    pub open spec fn spec_reached_at(&self, id: NodeIdx) -> bool {
        &&& 1 <= id.spec_end() < self.spec_size()
        &&& id.spec_index() < self.spec_count(id.spec_end() as int)
        &&& self.spec_totals(id.spec_end() as int)[id.spec_index() as int] != i32::MAX
    }

    /// The end of the sentence is connected: it follows a node of the last
    /// boundary that a path from the start reaches.
    pub open spec fn spec_connected_end(&self) -> bool {
        &&& self.spec_eos() matches Some((idx, _)) && self.spec_reached_at(idx) && idx.spec_end()
            == self.spec_size() - 1
    }

    /// Whether `ids`, from the last node to the first, are positions of
    /// reached nodes that cover the sentence: the last node ends at the last
    /// boundary, each node starts where the one before it ends, and the
    /// first node starts at boundary 0.
    pub open spec fn spec_path_tiles(&self, ids: Seq<NodeIdx>) -> bool {
        &&& ids.len() > 0
        &&& forall|j: int| 0 <= j < ids.len() ==> self.spec_reached_at(#[trigger] ids[j])
        &&& forall|j: int|
            0 <= j < ids.len() ==> (#[trigger] self.spec_node_at(ids[j])).spec_end() == ids[j].spec_end()
        &&& self.spec_node_at(ids[0]).spec_end() == self.spec_size() - 1
        &&& forall|j: int|
            0 <= j < ids.len() - 1 ==> #[trigger] self.spec_node_at(ids[j + 1]).spec_end() == self.spec_node_at(
                ids[j],
            ).spec_begin()
        &&& self.spec_node_at(ids.last()).spec_begin() == 0
    }

    /// Whether `ids`, from the last node to the first, are positions of nodes
    /// of the lattice forming a path from the start: each node ends where it
    /// is stored, each starts where the one before it ends, and the first
    /// starts at boundary 0.
    pub open spec fn spec_chain(&self, ids: Seq<NodeIdx>) -> bool {
        &&& ids.len() > 0
        &&& forall|j: int|
            0 <= j < ids.len() ==> 1 <= (#[trigger] ids[j]).spec_end() < self.spec_size() && ids[j].spec_index()
                < self.spec_count(ids[j].spec_end() as int)
        &&& forall|j: int|
            0 <= j < ids.len() ==> (#[trigger] self.spec_node_at(ids[j])).spec_end() == ids[j].spec_end()
        &&& forall|j: int|
            0 <= j < ids.len() - 1 ==> #[trigger] self.spec_node_at(ids[j + 1]).spec_end() == self.spec_node_at(
                ids[j],
            ).spec_begin()
        &&& self.spec_node_at(ids.last()).spec_begin() == 0
    }

    /// Cost of the path `ids`, from the last node to the first: for each
    /// node, the connection cost from the node before it (the start marker,
    /// of right id 0, for the first) and its own cost.
    pub open spec fn spec_path_cost(&self, conn: ConnectionMatrix, ids: Seq<NodeIdx>) -> int
        decreases ids.len(),
    {
        if ids.len() == 0 {
            0
        } else {
            let n = self.spec_node_at(ids[0]);
            let prev_right: u16 = if ids.len() == 1 {
                0u16
            } else {
                self.spec_node_at(ids[1]).spec_right_id()
            };
            self.spec_path_cost(conn, ids.drop_first()) + conn.spec_cost(prev_right as int, n.spec_left_id() as int)
                + n.spec_cost()
        }
    }

    /// Cost of completing the path `ids`, from the last node to the first,
    /// with the end of the sentence.
    pub open spec fn spec_full_cost(&self, conn: ConnectionMatrix, ids: Seq<NodeIdx>) -> int {
        self.spec_path_cost(conn, ids) + conn.spec_cost(self.spec_node_at(ids[0]).spec_right_id() as int, 0)
    }

    /// The end of the sentence follows the node of the last boundary through
    /// which it is cheapest to reach it.
    pub open spec fn spec_eos_best(&self, conn: ConnectionMatrix) -> bool {
        let b = self.spec_size() - 1;
        let (i, c) = spec_best(self.spec_totals(b), self.spec_rights(b), self.spec_count(b), 0, 0, conn);
        self.spec_eos() == Some((NodeIdx::spec_new(b as u16, i as u16), c as i32))
    }

    /// The cost of the cheapest path found to a node is at most the cost of
    /// any path from the start to that node.
    proof fn lemma_total_at_most_path(&self, conn: ConnectionMatrix, ids: Seq<NodeIdx>)
        requires
            self.wf(),
            self.consistent(conn),
            self.spec_chain(ids),
        ensures
            self.spec_totals(ids[0].spec_end() as int)[ids[0].spec_index() as int] != i32::MAX,
            self.spec_totals(ids[0].spec_end() as int)[ids[0].spec_index() as int] <= self.spec_path_cost(conn, ids),
        decreases ids.len(),
    {
        let idx = ids[0];
        let e = idx.spec_end() as int;
        let k = idx.spec_index() as int;
        let n = self.ends_full@[e]@[k];
        let v = self.ends@[e]@[k];
        let p = self.indices@[e]@[k];
        let b = n.spec_begin() as int;
        assert(self.spec_node_at(idx) == n);
        assert(Self::node_ok(n, v, p, e, self.ends@[b]@.len() as int, self.frontier@));
        assert(Self::node_connected(n, v, p, self.spec_totals(b), self.spec_rights(b), conn));
        lemma_best_is_min(
            self.spec_totals(b),
            self.spec_rights(b),
            self.spec_totals(b).len() as int,
            n.spec_left_id(),
            n.spec_cost(),
            conn,
        );
        if ids.len() == 1 {
            assert(b == 0);
            assert(self.spec_totals(0)[0] == 0);
            assert(self.spec_rights(0)[0] == 0);
            assert(spec_step(0, 0, n.spec_left_id(), n.spec_cost(), conn) < i32::MAX);
            assert(self.spec_path_cost(conn, ids.drop_first()) == 0);
        } else {
            let rest = ids.drop_first();
            assert(self.spec_chain(rest)) by {
                assert forall|j: int| 0 <= j < rest.len() implies 1 <= (#[trigger] rest[j]).spec_end()
                    < self.spec_size() && rest[j].spec_index() < self.spec_count(rest[j].spec_end() as int) by {
                    assert(rest[j] == ids[j + 1]);
                }
                assert forall|j: int| 0 <= j < rest.len() implies (#[trigger] self.spec_node_at(rest[j])).spec_end()
                    == rest[j].spec_end() by {
                    assert(rest[j] == ids[j + 1]);
                }
                assert forall|j: int| 0 <= j < rest.len() - 1 implies #[trigger] self.spec_node_at(rest[j + 1]).spec_end()
                    == self.spec_node_at(rest[j]).spec_begin() by {
                    assert(rest[j] == ids[j + 1]);
                    assert(rest[j + 1] == ids[j + 2]);
                    let j1 = j + 1;
                    assert(self.spec_node_at(ids[j1 + 1]).spec_end() == self.spec_node_at(ids[j1]).spec_begin());
                }
                assert(rest.last() == ids.last());
            }
            self.lemma_total_at_most_path(conn, rest);
            let q = ids[1];
            let qe = q.spec_end() as int;
            let qk = q.spec_index() as int;
            let z: int = 0;
            assert(self.spec_node_at(ids[z + 1]).spec_end() == self.spec_node_at(ids[z]).spec_begin());
            assert(qe == b);
            let qn = self.ends_full@[qe]@[qk];
            assert(Self::node_ok(qn, self.ends@[qe]@[qk], self.indices@[qe]@[qk], qe, self.ends@[qn.spec_begin() as int]@.len() as int, self.frontier@));
            assert(self.spec_rights(b)[qk] == qn.spec_right_id());
            assert(self.spec_node_at(q) == qn);
            let t = self.spec_totals(b)[qk];
            assert(t <= spec_cost_bound(b));
            assert(spec_cost_bound(b) <= 65536 * 32766) by (nonlinear_arith)
                requires
                    b <= 32766,
            ;
            assert(spec_step(t, self.spec_rights(b)[qk], n.spec_left_id(), n.spec_cost(), conn) < i32::MAX);
        }
    }

    /// Along the back pointers from a reached node, the cost of the
    /// cheapest path found to it is the cost of the path they trace.
    proof fn lemma_trace_cost(&self, conn: ConnectionMatrix, idx: NodeIdx)
        requires
            self.wf(),
            self.consistent(conn),
            self.spec_reached_at(idx),
        ensures
            self.spec_totals(idx.spec_end() as int)[idx.spec_index() as int] == self.spec_path_cost(
                conn,
                seq![idx] + self.spec_trace(idx),
            ),
        decreases idx.spec_end(),
    {
        let e = idx.spec_end() as int;
        let k = idx.spec_index() as int;
        let n = self.ends_full@[e]@[k];
        let v = self.ends@[e]@[k];
        let p = self.indices@[e]@[k];
        let b = n.spec_begin() as int;
        assert(self.spec_node_at(idx) == n);
        assert(Self::node_ok(n, v, p, e, self.ends@[b]@.len() as int, self.frontier@));
        assert(Self::node_connected(n, v, p, self.spec_totals(b), self.spec_rights(b), conn));
        lemma_best_is_min(
            self.spec_totals(b),
            self.spec_rights(b),
            self.spec_totals(b).len() as int,
            n.spec_left_id(),
            n.spec_cost(),
            conn,
        );
        let all = seq![idx] + self.spec_trace(idx);
        assert(all[0] == idx);
        assert(all.drop_first() =~= self.spec_trace(idx));
        assert(v.total_cost == self.spec_totals(e)[k]);
        if b == 0 {
            assert(self.spec_trace(idx) =~= Seq::<NodeIdx>::empty());
            assert(self.spec_totals(0)[0] == 0);
            assert(self.spec_rights(0)[0] == 0);
            assert(all.len() == 1);
            assert(self.spec_path_cost(conn, all.drop_first()) == 0);
            assert(self.spec_path_cost(conn, all) == conn.spec_cost(0, n.spec_left_id() as int) + n.spec_cost());
        } else {
            assert(self.spec_trace(idx) == seq![p] + self.spec_trace(p));
            assert(all.len() > 1);
            assert(self.spec_path_cost(conn, all) == self.spec_path_cost(conn, all.drop_first()) + conn.spec_cost(
                self.spec_node_at(all[1]).spec_right_id() as int,
                n.spec_left_id() as int,
            ) + n.spec_cost());
            let pe = p.spec_end() as int;
            let pk = p.spec_index() as int;
            assert(pe == b);
            let pn = self.ends_full@[pe]@[pk];
            assert(Self::node_ok(pn, self.ends@[pe]@[pk], self.indices@[pe]@[pk], pe, self.ends@[pn.spec_begin() as int]@.len() as int, self.frontier@));
            assert(self.spec_rights(b)[pk] == pn.spec_right_id());
            assert(self.spec_node_at(p) == pn);
            assert(self.spec_reached_at(p));
            self.lemma_trace_cost(conn, p);
            assert(all[1] == p);
        }
    }

    /// The cheapest complete path is the cheapest of all: no path of nodes
    /// of the lattice from the start of the sentence to its end costs less,
    /// the end of the sentence included, and the cost of the cheapest path
    /// is the cost recorded at its last node.
    pub proof fn lemma_top_path_is_cheapest(&self, conn: ConnectionMatrix, other: Seq<NodeIdx>)
        requires
            self.wf(),
            self.consistent(conn),
            self.spec_connected_end(),
            self.spec_eos_best(conn),
            self.spec_chain(other),
            other[0].spec_end() == self.spec_size() - 1,
        ensures
            self.spec_full_cost(conn, self.spec_top_path()) <= self.spec_full_cost(conn, other),
            self.spec_eos() matches Some((idx, c)) && c == self.spec_full_cost(conn, self.spec_top_path()),
    {
        let b = self.spec_size() - 1;
        match self.spec_eos() {
            Some((idx, c)) => {
                let (i, c2) = spec_best(self.spec_totals(b), self.spec_rights(b), self.spec_count(b), 0, 0, conn);
                lemma_best_is_min(self.spec_totals(b), self.spec_rights(b), self.spec_count(b), 0, 0, conn);
                NodeIdx::lemma_new(b as u16, i as u16);
                self.lemma_trace_cost(conn, idx);
                let top = self.spec_top_path();
                assert(top == seq![idx] + self.spec_trace(idx));
                assert(top[0] == idx);
                let ie = idx.spec_end() as int;
                let ik = idx.spec_index() as int;
                let inode = self.ends_full@[ie]@[ik];
                assert(Self::node_ok(inode, self.ends@[ie]@[ik], self.indices@[ie]@[ik], ie, self.ends@[inode.spec_begin() as int]@.len() as int, self.frontier@));
                assert(self.spec_rights(b)[ik] == inode.spec_right_id());
                assert(self.spec_node_at(idx) == inode);
                self.lemma_total_at_most_path(conn, other);
                let o = other[0];
                let oe = o.spec_end() as int;
                let ok = o.spec_index() as int;
                let onode = self.ends_full@[oe]@[ok];
                assert(Self::node_ok(onode, self.ends@[oe]@[ok], self.indices@[oe]@[ok], oe, self.ends@[onode.spec_begin() as int]@.len() as int, self.frontier@));
                assert(self.spec_rights(b)[ok] == onode.spec_right_id());
                assert(self.spec_node_at(o) == onode);
                assert(self.spec_totals(b).len() == self.spec_count(b));
            },
            None => {},
        }
    }

    /// From a reached node, the back pointers lead through reached nodes,
    /// each ending where the one after it starts, to a node that starts the
    /// sentence.
    proof fn lemma_trace_tiles(&self, conn: ConnectionMatrix, idx: NodeIdx)
        requires
            self.wf(),
            self.consistent(conn),
            self.spec_reached_at(idx),
        ensures
            ({
                let all = seq![idx] + self.spec_trace(idx);
                &&& forall|j: int| 0 <= j < all.len() ==> self.spec_reached_at(#[trigger] all[j])
                &&& forall|j: int|
                    0 <= j < all.len() ==> (#[trigger] self.spec_node_at(all[j])).spec_end() == all[j].spec_end()
                &&& forall|j: int|
                    0 <= j < all.len() - 1 ==> #[trigger] self.spec_node_at(all[j + 1]).spec_end()
                        == self.spec_node_at(all[j]).spec_begin()
                &&& self.spec_node_at(all.last()).spec_begin() == 0
            }),
        decreases idx.spec_end(),
    {
        let e = idx.spec_end() as int;
        let k = idx.spec_index() as int;
        let n = self.ends_full@[e]@[k];
        let v = self.ends@[e]@[k];
        let p = self.indices@[e]@[k];
        assert(Self::node_ok(n, v, p, e, self.ends@[n.spec_begin() as int]@.len() as int, self.frontier@));
        assert(Self::node_connected(
            n,
            v,
            p,
            self.spec_totals(n.spec_begin() as int),
            self.spec_rights(n.spec_begin() as int),
            conn,
        ));
        let b = n.spec_begin() as int;
        lemma_best_is_min(
            self.spec_totals(b),
            self.spec_rights(b),
            self.spec_totals(b).len() as int,
            n.spec_left_id(),
            n.spec_cost(),
            conn,
        );
        let all = seq![idx] + self.spec_trace(idx);
        if b == 0 {
            assert(self.spec_trace(idx) =~= Seq::<NodeIdx>::empty());
            assert(all =~= seq![idx]);
        } else {
            assert(self.spec_trace(idx) == seq![p] + self.spec_trace(p));
            self.lemma_trace_tiles(conn, p);
            let rest = seq![p] + self.spec_trace(p);
            assert(all =~= seq![idx] + rest);
            assert forall|j: int| 0 <= j < all.len() implies self.spec_reached_at(#[trigger] all[j]) by {
                if j > 0 {
                    assert(all[j] == rest[j - 1]);
                }
            }
            assert forall|j: int|
                0 <= j < all.len() implies (#[trigger] self.spec_node_at(all[j])).spec_end() == all[j].spec_end() by {
                if j > 0 {
                    assert(all[j] == rest[j - 1]);
                }
            }
            assert forall|j: int|
                0 <= j < all.len() - 1 implies #[trigger] self.spec_node_at(all[j + 1]).spec_end()
                    == self.spec_node_at(all[j]).spec_begin() by {
                if j > 0 {
                    assert(all[j] == rest[j - 1]);
                    assert(all[j + 1] == rest[j]);
                    let j1 = j - 1;
                    assert(self.spec_node_at(rest[j1 + 1]).spec_end() == self.spec_node_at(rest[j1]).spec_begin());
                    assert(j1 + 1 == j);
                } else {
                    assert(v.total_cost == self.spec_totals(e)[k]);
                    assert(p.spec_end() == n.spec_begin());
                    assert(all[1] == rest[0]);
                    assert(rest[0] == p);
                    assert(self.spec_node_at(rest[0]).spec_end() == rest[0].spec_end());
                    assert(all[0] == idx);
                    assert(self.spec_node_at(idx) == n);
                }
            }
            assert(all.last() == rest.last());
        }
    }

    /// The positions of the cheapest complete path, from the last node to the
    /// first, cover the sentence once its end is connected.
    pub proof fn lemma_top_path_tiles(&self, conn: ConnectionMatrix)
        requires
            self.wf(),
            self.consistent(conn),
            self.spec_connected_end(),
        ensures
            self.spec_path_tiles(self.spec_top_path()),
    {
        match self.spec_eos() {
            Some((idx, _)) => {
                self.lemma_trace_tiles(conn, idx);
            },
            None => {},
        }
    }

    /// Number of nodes ending at boundary `b` (the start marker included).
    pub(crate) fn count_at(&self, b: usize) -> (r: usize)
        requires
            self.wf(),
            b < self.spec_size(),
        ensures
            r == self.spec_count(b as int),
    {
        self.ends[b].len()
    }

    /// Number of boundaries.
    pub(crate) fn size(&self) -> (r: usize)
        ensures
            r == self.spec_size(),
    {
        self.size
    }

    /// Whether some node ends at boundary `i`.
    pub fn has_previous_node(&self, i: usize) -> (r: bool)
        requires
            self.wf(),
        ensures
            r == (i < self.spec_size() && self.spec_count(i as int) > 0),
    {
        if i < self.ends.len() {
            self.ends[i].len() != 0
        } else {
            false
        }
    }

    /// The node at a position, with the cost of the cheapest path ending with it.
    pub fn node(&self, id: NodeIdx) -> (r: (&Node, i32))
        requires
            self.wf(),
            1 <= id.spec_end() < self.spec_size(),
            id.spec_index() < self.spec_count(id.spec_end() as int),
        ensures
            *r.0 == self.spec_node(id.spec_end() as int, id.spec_index() as int),
            r.1 == self.spec_totals(id.spec_end() as int)[id.spec_index() as int],
    {
        let e = id.end() as usize;
        let k = id.index() as usize;
        let node = &self.ends_full[e][k];
        let cost = self.ends[e][k].total_cost;
        (node, cost)
    }

    /// Positions of the nodes before `idx` on its cheapest path, nearest
    /// first, down to the node that starts the sentence.
    pub closed spec fn spec_trace(&self, idx: NodeIdx) -> Seq<NodeIdx>
        decreases idx.spec_end(),
    {
        let e = idx.spec_end() as int;
        let k = idx.spec_index() as int;
        if 1 <= e < self.size && k < self.indices@[e]@.len() {
            let p = self.indices@[e]@[k];
            if p.spec_end() != 0 && p.spec_end() < e {
                seq![p] + self.spec_trace(p)
            } else {
                seq![]
            }
        } else {
            seq![]
        }
    }

    /// Positions on the cheapest complete path, from the last node to the
    /// first; empty when the end is not connected.
    pub open spec fn spec_top_path(&self) -> Seq<NodeIdx> {
        match self.spec_eos() {
            None => seq![],
            Some((idx, _)) => seq![idx] + self.spec_trace(idx),
        }
    }

    /// Appends the positions of the nodes of the cheapest complete path to
    /// `result`, from the last node to the first.
    pub fn fill_top_path(&self, result: &mut Vec<NodeIdx>)
        requires
            self.wf(),
        ensures
            final(result)@ == old(result)@ + self.spec_top_path(),
    {
        let (first, _) = match self.eos {
            None => {
                proof {
                    assert(old(result)@ + seq![] =~= old(result)@);
                }
                return ;
            },
            Some(x) => x,
        };
        let ghost start = result@;
        result.push(first);
        let mut idx = first;
        loop
            invariant
                start + seq![first] + self.spec_trace(first) == result@ + self.spec_trace(idx),
                start == old(result)@,
                self.wf(),
                self.spec_top_path() == seq![first] + self.spec_trace(first),
            ensures
                start + seq![first] + self.spec_trace(first) == result@,
            decreases idx.spec_end(),
        {
            let e = idx.end() as usize;
            let k = idx.index() as usize;
            if e == 0 || e >= self.size || k >= self.indices[e].len() {
                proof {
                    assert(self.spec_trace(idx) == Seq::<NodeIdx>::empty());
                    assert(result@ + seq![] =~= result@);
                }
                break;
            }
            let prev = self.indices[e][k];
            if prev.end() != 0 && prev.end() < idx.end() {
                let ghost before = result@;
                result.push(prev);
                proof {
                    assert(before + (seq![prev] + self.spec_trace(prev)) =~= result@
                        + self.spec_trace(prev));
                }
                idx = prev;
            } else {
                proof {
                    assert(self.spec_trace(idx) == Seq::<NodeIdx>::empty());
                    assert(result@ + seq![] =~= result@);
                }
                break;
            }
        }
        proof {
            assert(start + (seq![first] + self.spec_trace(first)) =~= start + seq![first]
                + self.spec_trace(first));
        }
    }
}
/// Text of a word id in a lattice dump: its dictionary and entry.
pub open spec fn spec_word_id_text(w: WordId) -> Seq<char> {
    "("@ + spec_decimal(spec_dic_of(w@) as nat) + ", "@ + spec_decimal(spec_word_of(w@) as nat) + ")"@
}

/// Connection costs as a dump lists them: each after a space.
pub open spec fn spec_costs_text(costs: Seq<i16>) -> Seq<char>
    decreases costs.len(),
{
    if costs.len() == 0 {
        Seq::empty()
    } else {
        spec_costs_text(costs.drop_last()) + " "@ + spec_signed_decimal(costs.last() as int)
    }
}

/// Line `idx` of a dump, for node `n` with its surface, part of speech and
/// the costs of connecting each node ending where it starts to it.
pub open spec fn spec_dump_line(
    idx: int,
    n: Node,
    surface: Seq<char>,
    pos: Seq<char>,
    costs: Seq<i16>,
) -> Seq<char> {
    spec_decimal(idx as nat) + ": "@ + spec_decimal(n.spec_begin() as nat) + " "@ + spec_decimal(
        n.spec_end() as nat,
    ) + " "@ + surface + spec_word_id_text(n.spec_word_id()) + " "@ + pos + " "@ + spec_decimal(
        n.spec_left_id() as nat,
    ) + " "@ + spec_decimal(n.spec_right_id() as nat) + " "@ + spec_signed_decimal(
        n.spec_cost() as int,
    ) + ":"@ + spec_costs_text(costs) + "\n"@
}

/// Text of part of speech `pos_id`: its components separated by commas.
pub open spec fn spec_pos_text(grammar: Grammar, pos_id: int) -> Seq<char> {
    spec_join(spec_strings(grammar.spec_pos_vec()[pos_id]@), ", "@)
}

/// Surface and part of speech a dump shows for node `n`; `None` when the
/// word information of a dictionary word cannot be read.
pub open spec fn spec_node_label(
    text: Seq<char>,
    grammar: Grammar,
    lexicon: LexiconSet,
    n: Node,
) -> Option<(Seq<char>, Seq<char>)> {
    let w = n.spec_word_id();
    let surface = text.subrange(n.spec_begin() as int, n.spec_end() as int);
    if w@ == u32::MAX - 1 {
        Some(("(null)"@, "BOS/EOS"@))
    } else if spec_dic_of(w@) == OOV_DIC as int {
        Some((surface, spec_pos_text(grammar, spec_word_of(w@))))
    } else {
        match lexicon.spec_word_info(w, InfoSubset(POS_ID)) {
            None => None,
            Some(m) => Some((surface, spec_pos_text(grammar, m.pos_id))),
        }
    }
}

/// Whether the part of speech a dump shows for node `n` exists.
pub open spec fn spec_node_pos_ok(grammar: Grammar, lexicon: LexiconSet, n: Node) -> bool {
    let w = n.spec_word_id();
    let count = grammar.spec_pos_vec().len();
    if w@ == u32::MAX - 1 {
        true
    } else if spec_dic_of(w@) == OOV_DIC as int {
        spec_word_of(w@) < count
    } else {
        match lexicon.spec_word_info(w, InfoSubset(POS_ID)) {
            None => true,
            Some(m) => m.pos_id < count,
        }
    }
}

/// Appends `parts` joined by `sep`.
fn push_joined(out: &mut String, parts: &[String], sep: &str)
    ensures
        final(out)@ == old(out)@ + spec_join(spec_strings(parts@), sep@),
{
    let ghost texts = spec_strings(parts@);
    let mut i: usize = 0;
    proof {
        assert(old(out)@ + spec_join(texts.take(0), sep@) =~= old(out)@);
    }
    while i < parts.len()
        invariant
            i <= parts@.len(),
            texts == spec_strings(parts@),
            out@ == old(out)@ + spec_join(texts.take(i as int), sep@),
        decreases parts@.len() - i,
    {
        let ghost before = out@;
        if i > 0 {
            out.append(sep);
        }
        out.append(parts[i].as_str());
        proof {
            assert(texts.take(i + 1).drop_last() =~= texts.take(i as int));
            assert(texts.take(i + 1).last() == parts@[i as int]@);
            if i == 0 {
                assert(texts.take(1) =~= seq![parts@[0]@]);
                assert(spec_join(texts.take(0), sep@) =~= Seq::<char>::empty());
                assert(before + parts@[0]@ =~= old(out)@ + spec_join(texts.take(1), sep@));
            } else {
                assert(before + sep@ + parts@[i as int]@ =~= old(out)@ + (spec_join(
                    texts.take(i as int),
                    sep@,
                ) + sep@ + parts@[i as int]@));
            }
        }
        i = i + 1;
    }
    proof {
        assert(texts.take(i as int) =~= texts);
    }
}

impl Lattice {
    /// Number of nodes stored at boundary `b` (none at boundary 0).
    pub closed spec fn spec_full_count(&self, b: int) -> int {
        self.ends_full@[b]@.len() as int
    }

    /// Connection ids of every stored node fall inside `conn`.
    pub closed spec fn spec_ids_fit(&self, conn: ConnectionMatrix) -> bool {
        &&& forall|b: int, k: int|
            0 <= b < self.size && 0 <= k < self.ends@[b]@.len() ==> (#[trigger] self.ends@[b]@[k]).right_id
                < conn.spec_num_left()
        &&& forall|b: int, k: int|
            1 <= b < self.size && 0 <= k < self.ends_full@[b]@.len() ==> (
            #[trigger] self.ends_full@[b]@[k]).spec_left_id() < conn.spec_num_right()
    }

    /// Costs of connecting each node ending where `n` starts to `n`.
    pub open spec fn spec_conn_costs(&self, conn: ConnectionMatrix, n: Node) -> Seq<i16> {
        let b = n.spec_begin() as int;
        Seq::new(
            self.spec_count(b) as nat,
            |i: int| conn.spec_cost(self.spec_rights(b)[i] as int, n.spec_left_id() as int),
        )
    }

    /// Dump line `idx`, for node `k` of boundary `b`.
    pub open spec fn spec_line_of(
        &self,
        text: Seq<char>,
        grammar: Grammar,
        lexicon: LexiconSet,
        b: int,
        k: int,
        idx: int,
    ) -> Seq<char> {
        let n = self.spec_node(b, k);
        let label = spec_node_label(text, grammar, lexicon, n)->0;
        spec_dump_line(
            idx,
            n,
            label.0,
            label.1,
            self.spec_conn_costs(grammar.spec_connection(), n),
        )
    }

    /// Dump lines of the first `k` nodes of boundary `b`, numbered from `idx`.
    pub open spec fn spec_block(
        &self,
        text: Seq<char>,
        grammar: Grammar,
        lexicon: LexiconSet,
        b: int,
        k: int,
        idx: int,
    ) -> Seq<char>
        decreases k,
    {
        if k <= 0 {
            Seq::empty()
        } else {
            self.spec_block(text, grammar, lexicon, b, k - 1, idx) + self.spec_line_of(
                text,
                grammar,
                lexicon,
                b,
                k - 1,
                idx + k - 1,
            )
        }
    }

    /// Number of nodes stored at boundaries `m` and after.
    pub open spec fn spec_above(&self, m: int) -> int
        decreases self.spec_size() - m,
    {
        if m >= self.spec_size() || m < 0 {
            0
        } else {
            self.spec_above(m + 1) + self.spec_full_count(m)
        }
    }

    /// Dump of boundaries from the last one down to `m`.
    pub open spec fn spec_tail(&self, text: Seq<char>, grammar: Grammar, lexicon: LexiconSet, m: int) -> Seq<
        char,
    >
        decreases self.spec_size() - m,
    {
        if m >= self.spec_size() || m < 0 {
            Seq::empty()
        } else {
            self.spec_tail(text, grammar, lexicon, m + 1) + self.spec_block(
                text,
                grammar,
                lexicon,
                m,
                self.spec_full_count(m),
                self.spec_above(m + 1),
            )
        }
    }

    /// Whether every node of boundaries `m` and after has a label.
    pub open spec fn spec_labels_ok(&self, text: Seq<char>, grammar: Grammar, lexicon: LexiconSet, m: int) -> bool {
        forall|b: int, k: int|
            m <= b < self.spec_size() && 0 <= k < self.spec_full_count(b) ==> (spec_node_label(
                text,
                grammar,
                lexicon,
                #[trigger] self.spec_node(b, k),
            ) is Some)
    }

    /// Whether the first `k` nodes of boundary `b` have labels.
    pub open spec fn spec_labeled_upto(
        &self,
        text: Seq<char>,
        grammar: Grammar,
        lexicon: LexiconSet,
        b: int,
        k: int,
    ) -> bool {
        forall|j: int| 0 <= j < k ==> spec_node_label(text, grammar, lexicon, #[trigger] self.spec_node(b, j)) is Some
    }

    /// Whether the part of speech of each node of boundary `b` exists when
    /// every node before it in the boundary has a label.
    pub open spec fn spec_boundary_pos_ok(
        &self,
        text: Seq<char>,
        grammar: Grammar,
        lexicon: LexiconSet,
        b: int,
    ) -> bool {
        forall|k: int|
            0 <= k < self.spec_full_count(b) && self.spec_labeled_upto(text, grammar, lexicon, b, k)
                ==> spec_node_pos_ok(grammar, lexicon, #[trigger] self.spec_node(b, k))
    }

    /// Whether the part of speech of every node the dump reaches exists:
    /// those before which every node of the dump has a label.
    pub open spec fn spec_dump_pos_ok(&self, text: Seq<char>, grammar: Grammar, lexicon: LexiconSet) -> bool {
        forall|b: int|
            0 <= b < self.spec_size() && #[trigger] self.spec_labels_ok(text, grammar, lexicon, b + 1)
                ==> self.spec_boundary_pos_ok(text, grammar, lexicon, b)
    }
}

impl Lattice {
    /// What a dump needs of the lattice and its companions.
    #[verifier::opaque]
    closed spec fn dump_ready(&self, input: InputBuffer, grammar: Grammar, lexicon: LexiconSet) -> bool {
        &&& self.wf()
        &&& self.spec_size() == input.spec_text().len() + 1
        &&& input.wf()
        &&& lexicon.wf()
        &&& grammar.spec_connection().wf()
        &&& self.spec_ids_fit(grammar.spec_connection())
    }

    /// Surface and part of speech text of node `k` of boundary `b`; an
    /// error when the word information of a dictionary word cannot be read.
    fn node_label(
        &self,
        input: &InputBuffer,
        grammar: &Grammar,
        lexicon: &LexiconSet,
        b: usize,
        k: usize,
    ) -> (r: SudachiResult<(String, String)>)
        requires
            self.wf(),
            1 <= b < self.spec_size(),
            k < self.spec_full_count(b as int),
            self.spec_size() == input.spec_text().len() + 1,
            input.wf(),
            lexicon.wf(),
            spec_node_pos_ok(*grammar, *lexicon, self.spec_node(b as int, k as int)),
        ensures
            match spec_node_label(input.spec_text(), *grammar, *lexicon, self.spec_node(b as int, k as int)) {
                None => r is Err,
                Some(label) => r matches Ok((s, p)) && s@ == label.0 && p@ == label.1,
            },
    {
        let node = &self.ends_full[b][k];
        proof {
            assert(Self::node_ok(
                self.ends_full@[b as int]@[k as int],
                self.ends@[b as int]@[k as int],
                self.indices@[b as int]@[k as int],
                b as int,
                self.ends@[self.ends_full@[b as int]@[k as int].spec_begin() as int]@.len() as int,
                self.frontier@,
            ));
            grammar.lemma_pos_vec();
        }
        let w = node.word_id();
        if node.is_special_node() {
            return Ok((String::from_str("(null)"), String::from_str("BOS/EOS")));
        }
        let pos_id = if node.is_oov() {
            w.word() as usize
        } else {
            let wi = lexicon.get_word_info_subset(w, InfoSubset(POS_ID))?;
            wi.pos_id() as usize
        };
        let surface = input.curr_slice_c(LatticeNode::begin(node), LatticeNode::end(node));
        let mut pos = String::new();
        push_joined(&mut pos, grammar.pos_list[pos_id].as_slice(), ", ");
        proof {
            assert(Seq::<char>::empty() + spec_pos_text(*grammar, pos_id as int) =~= spec_pos_text(
                *grammar,
                pos_id as int,
            ));
        }
        Ok((surface, pos))
    }

    /// Appends the costs of connecting each node ending where `n` starts to `n`.
    fn write_costs(&self, n: &Node, conn: &ConnectionMatrix, out: &mut String)
        requires
            self.wf(),
            conn.wf(),
            self.spec_ids_fit(*conn),
            n.spec_begin() < self.spec_size(),
            n.spec_left_id() < conn.spec_num_right(),
        ensures
            final(out)@ == old(out)@ + spec_costs_text(self.spec_conn_costs(*conn, *n)),
    {
        let bg = LatticeNode::begin(n);
        let count = self.ends[bg].len();
        let left = n.left_id();
        let ghost costs = self.spec_conn_costs(*conn, *n);
        let mut i: usize = 0;
        proof {
            assert(costs.take(0) =~= Seq::<i16>::empty());
            assert(old(out)@ + Seq::<char>::empty() =~= old(out)@);
        }
        while i < count
            invariant
                i <= count,
                bg < self.ends@.len(),
                count == self.ends@[bg as int]@.len(),
                bg < self.spec_size(),
                costs == self.spec_conn_costs(*conn, *n),
                costs.len() == count,
                conn.wf(),
                left == n.spec_left_id(),
                bg == n.spec_begin(),
                left < conn.spec_num_right(),
                self.spec_ids_fit(*conn),
                out@ == old(out)@ + spec_costs_text(costs.take(i as int)),
            decreases count - i,
        {
            let rid = self.ends[bg][i].right_id;
            let c = conn.cost(rid, left);
            out.append(" ");
            push_signed_decimal(out, c as i64);
            proof {
                assert(costs.take(i + 1).drop_last() =~= costs.take(i as int));
                assert(costs.take(i + 1).last() == c);
                assert(out@ =~= old(out)@ + spec_costs_text(costs.take(i + 1)));
            }
            i = i + 1;
        }
        proof {
            assert(costs.take(i as int) =~= costs);
        }
    }

    /// Appends the dump line of node `n`, numbered `idx`, with the given
    /// surface and part of speech text.
    #[verifier::spinoff_prover]
    #[verifier::rlimit(40)]
    fn write_line(
        &self,
        n: &Node,
        idx: u64,
        surface: &str,
        pos: &str,
        conn: &ConnectionMatrix,
        out: &mut String,
    )
        requires
            self.wf(),
            conn.wf(),
            self.spec_ids_fit(*conn),
            n.spec_begin() < self.spec_size(),
            n.spec_left_id() < conn.spec_num_right(),
        ensures
            final(out)@ == old(out)@ + spec_dump_line(
                idx as int,
                *n,
                surface@,
                pos@,
                self.spec_conn_costs(*conn, *n),
            ),
    {
        let w = n.word_id();
        let ghost start = out@;
        push_decimal(out, idx);
        out.append(": ");
        push_decimal(out, LatticeNode::begin(n) as u64);
        out.append(" ");
        push_decimal(out, LatticeNode::end(n) as u64);
        out.append(" ");
        out.append(surface);
        out.append("(");
        push_decimal(out, w.dic() as u64);
        out.append(", ");
        push_decimal(out, w.word() as u64);
        out.append(")");
        out.append(" ");
        out.append(pos);
        out.append(" ");
        push_decimal(out, n.left_id() as u64);
        out.append(" ");
        push_decimal(out, RightId::right_id(n) as u64);
        out.append(" ");
        push_signed_decimal(out, n.cost() as i64);
        out.append(":");
        let ghost before_costs = out@;
        self.write_costs(n, conn, out);
        out.append("\n");
        proof {
            assert(out@ =~= start + spec_dump_line(
                idx as int,
                *n,
                surface@,
                pos@,
                self.spec_conn_costs(*conn, *n),
            ));
        }
    }

    /// Appends the dump line of node `k` of boundary `b`, numbered `idx`;
    /// an error, with nothing written, when the word information of a
    /// dictionary word cannot be read.
    fn dump_node(
        &self,
        input: &InputBuffer,
        grammar: &Grammar,
        lexicon: &LexiconSet,
        b: usize,
        k: usize,
        idx: u64,
        out: &mut String,
    ) -> (r: SudachiResult<()>)
        requires
            self.dump_ready(*input, *grammar, *lexicon),
            1 <= b < self.spec_size(),
            k < self.spec_full_count(b as int),
            spec_node_pos_ok(*grammar, *lexicon, self.spec_node(b as int, k as int)),
        ensures
            r is Err <==> spec_node_label(
                input.spec_text(),
                *grammar,
                *lexicon,
                self.spec_node(b as int, k as int),
            ) is None,
            r is Err ==> final(out)@ == old(out)@,
            r is Ok ==> final(out)@ == old(out)@ + self.spec_line_of(
                input.spec_text(),
                *grammar,
                *lexicon,
                b as int,
                k as int,
                idx as int,
            ),
    {
        proof {
            reveal(Lattice::dump_ready);
        }
        let (surface, pos) = self.node_label(input, grammar, lexicon, b, k)?;
        let node = &self.ends_full[b][k];
        proof {
            assert(Self::node_ok(
                self.ends_full@[b as int]@[k as int],
                self.ends@[b as int]@[k as int],
                self.indices@[b as int]@[k as int],
                b as int,
                self.ends@[self.ends_full@[b as int]@[k as int].spec_begin() as int]@.len() as int,
                self.frontier@,
            ));
        }
        self.write_line(node, idx, surface.as_str(), pos.as_str(), grammar.conn_matrix(), out);
        Ok(())
    }
}

impl Lattice {
    /// A boundary holds at most as many nodes as one boundary may hold.
    proof fn lemma_above_bound(&self, m: int)
        requires
            self.wf(),
            0 <= m,
        ensures
            0 <= self.spec_above(m),
            m <= self.spec_size() ==> self.spec_above(m) <= (self.spec_size() - m) * 65535,
        decreases self.spec_size() - m,
    {
        if m < self.spec_size() {
            self.lemma_above_bound(m + 1);
            if m >= 1 {
                assert(self.ends@[m]@.len() == self.ends_full@[m]@.len());
            }
        }
    }

    /// What a dump knows of boundary `m`: its node count fits one boundary,
    /// and the nodes after it are few enough to number.
    proof fn lemma_dump_facts(&self, input: InputBuffer, grammar: Grammar, lexicon: LexiconSet, m: int)
        requires
            self.dump_ready(input, grammar, lexicon),
            0 <= m < self.spec_size(),
        ensures
            m < self.ends_full@.len(),
            self.spec_full_count(m) <= 65535,
            self.spec_above(m) <= (self.spec_size() - m) * 65535,
            self.spec_above(m) == self.spec_above(m + 1) + self.spec_full_count(m),
            self.spec_size() <= MAX_LATTICE_LENGTH + 1,
    {
        reveal(Lattice::dump_ready);
        self.lemma_above_bound(m);
        if m >= 1 {
            assert(self.ends@[m]@.len() == self.ends_full@[m]@.len());
        } else {
            assert(self.ends_full@[0]@.len() == 0);
        }
    }

    /// Appends the dump lines of the nodes of boundary `b`, numbered from
    /// `idx`; an error at the first node whose label cannot be made.
    #[verifier::spinoff_prover]
    #[verifier::rlimit(100)]
    fn dump_boundary(
        &self,
        input: &InputBuffer,
        grammar: &Grammar,
        lexicon: &LexiconSet,
        b: usize,
        idx: u64,
        out: &mut String,
    ) -> (r: SudachiResult<()>)
        requires
            self.dump_ready(*input, *grammar, *lexicon),
            b < self.spec_size(),
            idx + self.spec_full_count(b as int) <= u64::MAX,
            self.spec_boundary_pos_ok(input.spec_text(), *grammar, *lexicon, b as int),
        ensures
            r is Ok <==> self.spec_labeled_upto(
                input.spec_text(),
                *grammar,
                *lexicon,
                b as int,
                self.spec_full_count(b as int),
            ),
            r is Ok ==> final(out)@ == old(out)@ + self.spec_block(
                input.spec_text(),
                *grammar,
                *lexicon,
                b as int,
                self.spec_full_count(b as int),
                idx as int,
            ),
            r is Err ==> old(out)@.is_prefix_of(final(out)@),
    {
        proof {
            reveal(Lattice::dump_ready);
        }
        let count = self.ends_full[b].len();
        let ghost text = input.spec_text();
        let ghost zero_empty = self.ends_full@[0]@.len() == 0;
        let mut k: usize = 0;
        proof {
            assert(old(out)@ + Seq::<char>::empty() =~= old(out)@);
        }
        while k < count
            invariant
                k <= count,
                count == self.spec_full_count(b as int),
                b == 0 ==> count == 0,
                b < self.spec_size(),
                text == input.spec_text(),
                self.dump_ready(*input, *grammar, *lexicon),
                idx + count <= u64::MAX,
                self.spec_boundary_pos_ok(text, *grammar, *lexicon, b as int),
                self.spec_labeled_upto(text, *grammar, *lexicon, b as int, k as int),
                out@ == old(out)@ + self.spec_block(text, *grammar, *lexicon, b as int, k as int, idx as int),
            decreases count - k,
        {
            match self.dump_node(input, grammar, lexicon, b, k, idx + k as u64, out) {
                Ok(()) => {},
                Err(e) => {
                    proof {
                        assert(old(out)@.is_prefix_of(out@)) by {
                            assert(out@ =~= old(out)@ + self.spec_block(
                                text,
                                *grammar,
                                *lexicon,
                                b as int,
                                k as int,
                                idx as int,
                            ));
                        }
                        assert(!self.spec_labeled_upto(text, *grammar, *lexicon, b as int, count as int)) by {
                            assert(spec_node_label(text, *grammar, *lexicon, self.spec_node(b as int, k as int)) is None);
                        }
                    }
                    return Err(e);
                },
            }
            proof {
                assert(out@ =~= old(out)@ + self.spec_block(
                    text,
                    *grammar,
                    *lexicon,
                    b as int,
                    k + 1,
                    idx as int,
                ));
            }
            k = k + 1;
        }
        Ok(())
    }

    /// Appends the lines of boundary `m`, numbered from `idx`, the number of
    /// nodes above it, and gives the number of nodes from `m` on.
    #[verifier::spinoff_prover]
    #[verifier::rlimit(100)]
    fn dump_step(
        &self,
        input: &InputBuffer,
        grammar: &Grammar,
        lexicon: &LexiconSet,
        m: usize,
        idx: u64,
        out: &mut String,
    ) -> (r: SudachiResult<u64>)
        requires
            m < self.spec_size(),
            self.dump_ready(*input, *grammar, *lexicon),
            self.spec_dump_pos_ok(input.spec_text(), *grammar, *lexicon),
            idx == self.spec_above(m + 1),
            idx <= (self.spec_size() - (m + 1)) * 65535,
            self.spec_labels_ok(input.spec_text(), *grammar, *lexicon, m + 1),
        ensures
            r matches Ok(n) ==> {
                &&& n == self.spec_above(m as int)
                &&& n <= (self.spec_size() - m) * 65535
                &&& self.spec_labels_ok(input.spec_text(), *grammar, *lexicon, m as int)
                &&& final(out)@ == old(out)@ + self.spec_block(
                    input.spec_text(),
                    *grammar,
                    *lexicon,
                    m as int,
                    self.spec_full_count(m as int),
                    self.spec_above(m + 1),
                )
            },
            r is Err ==> !self.spec_labels_ok(input.spec_text(), *grammar, *lexicon, 0) && old(
                out,
            )@.is_prefix_of(final(out)@),
    {
        let ghost text = input.spec_text();
        proof {
            self.lemma_dump_facts(*input, *grammar, *lexicon, m as int);
            assert(self.spec_labels_ok(text, *grammar, *lexicon, m + 1));
            assert(self.spec_boundary_pos_ok(text, *grammar, *lexicon, m as int));
        }
        match self.dump_boundary(input, grammar, lexicon, m, idx, out) {
            Ok(()) => {},
            Err(e) => {
                proof {
                    let k = choose|k: int|
                        0 <= k < self.spec_full_count(m as int) && !(spec_node_label(
                            text,
                            *grammar,
                            *lexicon,
                            #[trigger] self.spec_node(m as int, k),
                        ) is Some);
                    assert(!self.spec_labels_ok(text, *grammar, *lexicon, 0));
                }
                return Err(e);
            },
        }
        proof {
            reveal(Lattice::dump_ready);
        }
        let add = self.ends_full[m].len() as u64;
        Ok(idx + add)
    }

    /// Appends a dump of the lattice: one line per node, from the last
    /// boundary down to the first and in insertion order inside a boundary,
    /// numbered from 0, each with its span, surface, word id, part of
    /// speech, connection ids and cost, and the costs of connecting each
    /// node ending where it starts to it. An error at the first node whose
    /// word information cannot be read.
    #[verifier::spinoff_prover]
    #[verifier::rlimit(100)]
    pub fn dump(
        &self,
        input: &InputBuffer,
        grammar: &Grammar,
        lexicon: &LexiconSet,
        out: &mut String,
    ) -> (r: SudachiResult<()>)
        requires
            self.wf(),
            self.spec_size() == input.spec_text().len() + 1,
            input.wf(),
            lexicon.wf(),
            grammar.spec_connection().wf(),
            self.spec_ids_fit(grammar.spec_connection()),
            self.spec_dump_pos_ok(input.spec_text(), *grammar, *lexicon),
        ensures
            r is Ok <==> self.spec_labels_ok(input.spec_text(), *grammar, *lexicon, 0),
            r is Ok ==> final(out)@ == old(out)@ + self.spec_tail(
                input.spec_text(),
                *grammar,
                *lexicon,
                0,
            ),
            r is Err ==> old(out)@.is_prefix_of(final(out)@),
    {
        proof {
            reveal(Lattice::dump_ready);
            self.lemma_above_bound(0);
        }
        let ghost text = input.spec_text();
        let ghost size = self.spec_size();
        let mut m = self.size;
        let mut idx: u64 = 0;
        proof {
            assert(old(out)@ + Seq::<char>::empty() =~= old(out)@);
        }
        while m > 0
            invariant
                m <= size,
                size == self.spec_size(),
                size <= MAX_LATTICE_LENGTH + 1,
                text == input.spec_text(),
                self.dump_ready(*input, *grammar, *lexicon),
                self.spec_dump_pos_ok(text, *grammar, *lexicon),
                idx == self.spec_above(m as int),
                idx <= (size - m) * 65535,
                self.spec_labels_ok(text, *grammar, *lexicon, m as int),
                out@ == old(out)@ + self.spec_tail(text, *grammar, *lexicon, m as int),
            decreases m,
        {
            let ghost before = out@;
            m = m - 1;
            match self.dump_step(input, grammar, lexicon, m, idx, out) {
                Ok(n) => {
                    idx = n;
                },
                Err(e) => {
                    proof {
                        assert forall|i: int| 0 <= i < old(out)@.len() implies old(out)@[i] == out@[i] by {
                            assert(before[i] == old(out)@[i]);
                        }
                    }
                    return Err(e);
                },
            }
            proof {
                assert(out@ =~= old(out)@ + self.spec_tail(text, *grammar, *lexicon, m as int));
            }
        }
        Ok(())
    }
}

} // verus!
