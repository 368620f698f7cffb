//! The computation graph: nodes reading and writing edges, its compiled
//! connectivity (a topological order, the readers and writer of each edge,
//! one alias per input slot), the backward search for what some edges
//! depend on, and helpers of the graph builders (einsum index letters,
//! constant matrices, tensor index flattening).
pub mod builder;
pub mod gnn;
pub mod llama;
pub mod predict;

use crate::util::field::Fe;
use vstd::prelude::*;

verus! {

/// A claimed evaluation: the polynomial on edge `edge_id` (part
/// `sparse_id` of a split sparse polynomial) takes the value `eval` at
/// `point`.
#[derive(Clone, Debug)]
pub struct Claim {
    pub edge_id: EdgeId,
    pub sparse_id: usize,
    pub point: Vec<Fe>,
    pub eval: Fe,
}

/// An edge as seen by one input slot of one consuming node.
#[derive(Copy, Clone, Debug, PartialEq, Eq, Structural, Hash)]
pub struct AliasId(pub usize);

/// What a tensor of the graph is for.
#[derive(Clone, Copy, Debug, PartialEq, Eq, Structural)]
pub enum Role {
    Auxiliary,
    Constant,
    Input,
    Output,
}

/// How the values of a tensor are read.
#[derive(Clone, Copy, Debug, PartialEq, Eq, Structural)]
pub enum DataType {
    Uint,
    Int,
    Bool,
    Float,
}

/// How a tensor's multilinear polynomial is stored.
#[derive(Clone, Copy, Debug, PartialEq, Eq, Structural)]
pub enum PolyType {
    Dense,
    Sparse,
}

pub type NodeId = usize;

pub type EdgeId = usize;

/// A node of the computation graph: the edges it reads and writes, and
/// whether its block is a non-negativity range check.
#[derive(Clone, Debug)]
pub struct Node {
    pub id: NodeId,
    pub nonneg: bool,
    pub inputs: Vec<EdgeId>,
    pub outputs: Vec<EdgeId>,
}

/// Number of occurrences of `x` in `s`.
pub open spec fn count_of(s: Seq<usize>, x: usize) -> nat
    decreases s.len(),
{
    if s.len() == 0 {
        0
    } else {
        count_of(s.drop_last(), x) + if s.last() == x {
            1nat
        } else {
            0nat
        }
    }
}

/// The nodes are numbered by position, their edges are below `num_edges`,
/// and no edge is written twice (by one node or by two).
pub open spec fn nodes_wf(nodes: Seq<Node>, num_edges: nat) -> bool {
    &&& forall|i: int| 0 <= i < nodes.len() ==> (#[trigger] nodes[i]).id == i
    &&& forall|i: int, s: int|
        0 <= i < nodes.len() && 0 <= s < nodes[i].inputs.len() ==> (#[trigger] nodes[i].inputs@[s])
            < num_edges
    &&& forall|i: int, a: int|
        0 <= i < nodes.len() && 0 <= a < nodes[i].outputs.len() ==> (
        #[trigger] nodes[i].outputs@[a]) < num_edges
    &&& forall|i: int, a: int, j: int, b: int|
        0 <= i < nodes.len() && 0 <= a < nodes[i].outputs.len() && 0 <= j < nodes.len() && 0 <= b
            < nodes[j].outputs.len() && #[trigger] nodes[i].outputs@[a]
            == #[trigger] nodes[j].outputs@[b] ==> i == j && a == b
}

/// Node `u` writes edge `e`.
pub open spec fn produces(nodes: Seq<Node>, u: int, e: usize) -> bool {
    0 <= u < nodes.len() && nodes[u].outputs@.contains(e)
}

/// Some node writes edge `e`.
pub open spec fn produced(nodes: Seq<Node>, e: usize) -> bool {
    exists|u: int| #[trigger] produces(nodes, u, e)
}

/// The node that writes `e`, if any.
pub open spec fn producer_of(nodes: Seq<Node>, e: usize) -> Option<NodeId> {
    if produced(nodes, e) {
        Some((choose|u: int| #[trigger] produces(nodes, u, e)) as usize)
    } else {
        None
    }
}

/// Node `v` reads an edge that node `u` writes.
pub open spec fn depends(nodes: Seq<Node>, u: int, v: int) -> bool {
    0 <= v < nodes.len() && exists|s: int|
        0 <= s < nodes[v].inputs.len() && #[trigger] produces(nodes, u, nodes[v].inputs@[s])
}

/// `order` lists every node once, each after the nodes whose edges it reads.
pub open spec fn is_topo_order(nodes: Seq<Node>, order: Seq<NodeId>) -> bool {
    &&& order.len() == nodes.len()
    &&& order.no_duplicates()
    &&& forall|k: int| 0 <= k < order.len() ==> #[trigger] order[k] < nodes.len()
    &&& forall|i: int, j: int|
        0 <= i <= j < order.len() ==> !depends(nodes, #[trigger] order[j] as int, #[trigger] order[i] as int)
}

/// The readers of edge `e` among the first `k` nodes, in node order, one
/// entry per input slot.
pub open spec fn consumers_of(nodes: Seq<Node>, k: nat, e: usize) -> Seq<NodeId>
    decreases k,
{
    if k == 0 {
        Seq::empty()
    } else {
        let i = k - 1;
        consumers_of(nodes, i as nat, e) + Seq::new(
            count_of(nodes[i].inputs@, e),
            |_x: int| i as usize,
        )
    }
}

/// The input slots of the first `k` nodes, in order: their edges.
pub open spec fn alias_edges(nodes: Seq<Node>, k: nat) -> Seq<EdgeId>
    decreases k,
{
    if k == 0 {
        Seq::empty()
    } else {
        alias_edges(nodes, (k - 1) as nat) + nodes[k - 1].inputs@
    }
}

/// The input slots of the first `k` nodes, in order: their nodes.
pub open spec fn alias_consumers(nodes: Seq<Node>, k: nat) -> Seq<NodeId>
    decreases k,
{
    if k == 0 {
        Seq::empty()
    } else {
        alias_consumers(nodes, (k - 1) as nat) + Seq::new(
            nodes[k - 1].inputs.len() as nat,
            |_x: int| (k - 1) as usize,
        )
    }
}

/// The input slots of the first `k` nodes, in order: their positions.
pub open spec fn alias_slots(nodes: Seq<Node>, k: nat) -> Seq<usize>
    decreases k,
{
    if k == 0 {
        Seq::empty()
    } else {
        alias_slots(nodes, (k - 1) as nat) + Seq::new(
            nodes[k - 1].inputs.len() as nat,
            |x: int| x as usize,
        )
    }
}

/// The aliases among the first `k` whose edge is `e`, in order.
pub open spec fn aliases_of(edges: Seq<EdgeId>, k: nat, e: usize) -> Seq<AliasId>
    decreases k,
{
    if k == 0 {
        Seq::empty()
    } else {
        let prev = aliases_of(edges, (k - 1) as nat, e);
        if edges[k - 1] == e {
            prev.push(AliasId((k - 1) as usize))
        } else {
            prev
        }
    }
}

/// A compiled computation graph: its nodes in a topological order, the
/// readers and the writer of each edge, its input and output edges, and
/// one alias per (edge, reading node, input slot).
#[derive(Debug)]
pub struct Dag {
    pub nodes: Vec<Node>,
    pub num_edges: usize,
    pub topo: Vec<NodeId>,
    pub range: Vec<NodeId>,
    pub two_pow: Vec<NodeId>,
    pub consumers: Vec<Vec<NodeId>>,
    pub producers: Vec<Option<NodeId>>,
    pub input_ports: Vec<EdgeId>,
    pub output_ports: Vec<EdgeId>,
    pub edge_aliases: Vec<Vec<AliasId>>,
    pub alias_to_edge: Vec<EdgeId>,
    pub alias_to_consumer: Vec<NodeId>,
    pub alias_input_slot: Vec<usize>,
}

impl Dag {
    /// The connectivity fields describe `nodes`.
    pub open spec fn wf(&self) -> bool {
        let nodes = self.nodes@;
        let n = nodes.len();
        let e = self.num_edges as nat;
        &&& nodes_wf(nodes, e)
        &&& is_topo_order(nodes, self.topo@)
        &&& self.consumers.len() == e
        &&& forall|x: int| 0 <= x < e ==> (#[trigger] self.consumers@[x])@ == consumers_of(nodes, n, x as usize)
        &&& self.producers.len() == e
        &&& forall|x: int| 0 <= x < e ==> #[trigger] self.producers@[x] == producer_of(nodes, x as usize)
        &&& self.alias_to_edge@ == alias_edges(nodes, n)
        &&& self.alias_to_consumer@ == alias_consumers(nodes, n)
        &&& self.alias_input_slot@ == alias_slots(nodes, n)
        &&& self.edge_aliases.len() == e
        &&& forall|x: int|
            0 <= x < e ==> (#[trigger] self.edge_aliases@[x])@ == aliases_of(
                alias_edges(nodes, n),
                alias_edges(nodes, n).len(),
                x as usize,
            )
    }
}

/// `need` marks the targets, and with every marked edge that a node writes,
/// all the input edges of that node.
pub open spec fn closed_needs(nodes: Seq<Node>, targets: Seq<EdgeId>, need: Seq<bool>) -> bool {
    &&& forall|k: int| 0 <= k < targets.len() ==> need[#[trigger] targets[k] as int]
    &&& forall|e: int, s: int|
        0 <= e < need.len() && need[e] && #[trigger] produced(nodes, e as usize) && 0 <= s
            < nodes[producer_of(nodes, e as usize).unwrap() as int].inputs.len() ==> need[#[trigger] nodes[producer_of(
            nodes,
            e as usize,
        ).unwrap() as int].inputs@[s] as int]
}

/// Unmarked entries.
pub open spec fn count_false(s: Seq<bool>) -> nat
    decreases s.len(),
{
    if s.len() == 0 {
        0
    } else {
        count_false(s.drop_last()) + if s.last() {
            0nat
        } else {
            1nat
        }
    }
}

proof fn lemma_count_false_mark(s: Seq<bool>, i: int)
    requires
        0 <= i < s.len(),
        !s[i],
    ensures
        count_false(s.update(i, true)) + 1 == count_false(s),
    decreases s.len(),
{
    let t = s.update(i, true);
    if i < s.len() - 1 {
        assert(t.drop_last() =~= s.drop_last().update(i, true));
        lemma_count_false_mark(s.drop_last(), i);
    } else {
        assert(t.drop_last() =~= s.drop_last());
    }
}

/// The aliases of `list` whose reading node is needed, each with edge `e`.
pub open spec fn needed_aliases(
    consumers_of_alias: Seq<NodeId>,
    need_node: Seq<bool>,
    e: EdgeId,
    list: Seq<AliasId>,
) -> Seq<(EdgeId, AliasId)>
    decreases list.len(),
{
    if list.len() == 0 {
        Seq::empty()
    } else {
        let prev = needed_aliases(consumers_of_alias, need_node, e, list.drop_last());
        let a = list.last();
        if need_node[consumers_of_alias[a.0 as int] as int] {
            prev.push((e, a))
        } else {
            prev
        }
    }
}

/// For the output edges `outs`, in order, their aliases read by needed nodes.
pub open spec fn needed_out_aliases(dag: Dag, need_node: Seq<bool>, outs: Seq<EdgeId>) -> Seq<
    (EdgeId, AliasId),
>
    decreases outs.len(),
{
    if outs.len() == 0 {
        Seq::empty()
    } else {
        let e = outs.last();
        needed_out_aliases(dag, need_node, outs.drop_last()) + needed_aliases(
            dag.alias_to_consumer@,
            need_node,
            e,
            dag.edge_aliases@[e as int]@,
        )
    }
}

/// An alias names an input slot.
pub proof fn lemma_alias_in_range(nodes: Seq<Node>, flat: Seq<EdgeId>, k: nat, e: usize, t: int)
    requires
        k <= flat.len(),
        flat.len() <= usize::MAX,
        0 <= t < aliases_of(flat, k, e).len(),
    ensures
        aliases_of(flat, k, e)[t].0 < k,
        flat[aliases_of(flat, k, e)[t].0 as int] == e,
    decreases k,
{
    if k > 0 {
        let prev = aliases_of(flat, (k - 1) as nat, e);
        if t < prev.len() {
            lemma_alias_in_range(nodes, flat, (k - 1) as nat, e, t);
        } else {
            assert(flat[k - 1] == e);
        }
    }
}

/// The input slots of the nodes are as many as their node indices.
pub proof fn lemma_alias_lens(nodes: Seq<Node>, k: nat)
    requires
        k <= nodes.len(),
    ensures
        alias_consumers(nodes, k).len() == alias_edges(nodes, k).len(),
        alias_slots(nodes, k).len() == alias_edges(nodes, k).len(),
        forall|a: int| 0 <= a < alias_consumers(nodes, k).len() ==> #[trigger] alias_consumers(nodes, k)[a] < k,
    decreases k,
{
    if k > 0 {
        lemma_alias_lens(nodes, (k - 1) as nat);
        let prev = alias_consumers(nodes, (k - 1) as nat);
        assert forall|a: int| 0 <= a < alias_consumers(nodes, k).len() implies #[trigger] alias_consumers(nodes, k)[a] < k by {
            if a < prev.len() {
                assert(alias_consumers(nodes, k)[a] == prev[a]);
            }
        }
    }
}

impl Dag {
    /// The number of edges.
    pub fn num_edges(&self) -> (r: usize)
        ensures
            r == self.num_edges,
    {
        self.num_edges
    }

    /// The edge, the reading node and the input slot of an alias.
    pub fn alias_info(&self, a: AliasId) -> (r: (EdgeId, NodeId, usize))
        requires
            self.wf(),
            a.0 < self.alias_to_edge.len(),
        ensures
            r == (self.alias_to_edge@[a.0 as int], self.alias_to_consumer@[a.0 as int], self.alias_input_slot@[a.0 as int]),
    {
        proof {
            lemma_alias_lens(self.nodes@, self.nodes.len() as nat);
        }
        (self.alias_to_edge[a.0], self.alias_to_consumer[a.0], self.alias_input_slot[a.0])
    }

    /// The edges and nodes that the `targets` depend on: the least marking
    /// of edges that holds the targets and, with every marked edge a node
    /// writes, that node's inputs; and the nodes that write a marked edge.
    pub fn backward_mark_needed(&self, targets: &[EdgeId]) -> (r: (Vec<bool>, Vec<bool>))
        requires
            self.wf(),
            forall|k: int| 0 <= k < targets.len() ==> #[trigger] targets@[k] < self.num_edges,
        ensures
            r.0.len() == self.num_edges,
            r.1.len() == self.nodes.len(),
            closed_needs(self.nodes@, targets@, r.0@),
            forall|other: Seq<bool>|
                other.len() == self.num_edges && #[trigger] closed_needs(self.nodes@, targets@, other) ==> forall|e: int|
                    0 <= e < self.num_edges && r.0@[e] ==> other[e],
            forall|v: int|
                0 <= v < self.nodes.len() ==> (#[trigger] r.1@[v] <==> exists|e: int|
                    0 <= e < self.num_edges && r.0@[e] && #[trigger] producer_of(self.nodes@, e as usize) == Some(v as usize)),
    {
        let ghost ns = self.nodes@;
        let ne = self.num_edges;
        let mut need_edge: Vec<bool> = Vec::new();
        let mut k: usize = 0;
        while k < ne
            invariant
                k <= ne,
                need_edge.len() == k,
                forall|x: int| 0 <= x < k ==> !#[trigger] need_edge@[x],
            decreases ne - k,
        {
            need_edge.push(false);
            k = k + 1;
        }
        let mut need_node: Vec<bool> = Vec::new();
        let mut k: usize = 0;
        while k < self.nodes.len()
            invariant
                k <= self.nodes.len(),
                need_node.len() == k,
                forall|x: int| 0 <= x < k ==> !#[trigger] need_node@[x],
            decreases self.nodes.len() - k,
        {
            need_node.push(false);
            k = k + 1;
        }
        let mut stack: Vec<EdgeId> = Vec::new();
        let mut t: usize = 0;
        while t < targets.len()
            invariant
                self.wf(),
                ns == self.nodes@,
                ne == self.num_edges,
                t <= targets.len(),
                forall|k: int| 0 <= k < targets.len() ==> #[trigger] targets@[k] < ne,
                need_edge.len() == ne,
                need_node.len() == ns.len(),
                forall|x: int| 0 <= x < ns.len() ==> !#[trigger] need_node@[x],
                forall|k: int| 0 <= k < t ==> need_edge@[#[trigger] targets@[k] as int],
                forall|x: int| 0 <= x < ne && #[trigger] need_edge@[x] ==> stack@.contains(x as usize),
                forall|k: int| 0 <= k < stack.len() ==> #[trigger] stack@[k] < ne && need_edge@[stack@[k] as int],
                forall|other: Seq<bool>|
                    other.len() == ne && #[trigger] closed_needs(ns, targets@, other) ==> forall|x: int|
                        0 <= x < ne && need_edge@[x] ==> other[x],
            decreases targets.len() - t,
        {
            let e = targets[t];
            if !need_edge[e] {
                let ghost before = stack@;
                need_edge.set(e, true);
                stack.push(e);
                proof {
                    assert forall|x: int| 0 <= x < ne && #[trigger] need_edge@[x] implies stack@.contains(x as usize) by {
                        vstd::seq_lib::lemma_seq_contains_after_push(before, e, x as usize);
                    }
                    assert forall|other: Seq<bool>|
                        other.len() == ne && #[trigger] closed_needs(ns, targets@, other) implies forall|x: int|
                            0 <= x < ne && need_edge@[x] ==> other[x] by {
                        assert(other[targets@[t as int] as int]);
                    }
                }
            }
            t = t + 1;
        }
        while stack.len() > 0
            invariant
                self.wf(),
                ns == self.nodes@,
                ne == self.num_edges,
                forall|k: int| 0 <= k < targets.len() ==> #[trigger] targets@[k] < ne,
                need_edge.len() == ne,
                need_node.len() == ns.len(),
                forall|k: int| 0 <= k < targets.len() ==> need_edge@[#[trigger] targets@[k] as int],
                forall|k: int| 0 <= k < stack.len() ==> #[trigger] stack@[k] < ne && need_edge@[stack@[k] as int],
                // marked edges off the stack have their writer needed
                forall|x: int|
                    0 <= x < ne && #[trigger] need_edge@[x] && !stack@.contains(x as usize) && produced(ns, x as usize)
                        ==> need_node@[producer_of(ns, x as usize).unwrap() as int],
                // needed nodes have their inputs marked and write a marked edge
                forall|v: int|
                    0 <= v < ns.len() && #[trigger] need_node@[v] ==> (forall|s: int|
                        0 <= s < ns[v].inputs.len() ==> need_edge@[#[trigger] ns[v].inputs@[s] as int]),
                forall|v: int|
                    0 <= v < ns.len() && #[trigger] need_node@[v] ==> exists|x: int|
                        0 <= x < ne && need_edge@[x] && #[trigger] producer_of(ns, x as usize) == Some(v as usize),
                forall|other: Seq<bool>|
                    other.len() == ne && #[trigger] closed_needs(ns, targets@, other) ==> forall|x: int|
                        0 <= x < ne && need_edge@[x] ==> other[x],
            decreases count_false(need_edge@), stack.len(),
        {
            let ghost old_stack = stack@;
            let e = stack.pop().unwrap();
            assert(e < ne);
            proof {
                assert(stack@.push(e) =~= old_stack);
                assert(old_stack[old_stack.len() - 1] == e);
                assert forall|x: int|
                    0 <= x < ne && #[trigger] need_edge@[x] && !stack@.contains(x as usize) && produced(ns, x as usize)
                        && x != e implies need_node@[producer_of(ns, x as usize).unwrap() as int] by {
                    vstd::seq_lib::lemma_seq_contains_after_push(stack@, e, x as usize);
                }
                assert forall|k: int| 0 <= k < stack.len() implies #[trigger] stack@[k] < ne && need_edge@[stack@[k] as int] by {
                    assert(stack@[k] == old_stack[k]);
                }
            }
            let ghost old_count = count_false(need_edge@);
            let ghost old_len = stack.len();
            match self.producers[e] {
                Some(nid) => {
                    proof {
                        assert(producer_of(ns, e) == Some(nid));
                        assert(produced(ns, e));
                        let w = choose|w: int| #[trigger] produces(ns, w, e);
                        assert(nid < ns.len());
                    }
                    if !need_node[nid] {
                        need_node.set(nid, true);
                        let mut s: usize = 0;
                        while s < self.nodes[nid].inputs.len()
                            invariant
                                self.wf(),
                                ns == self.nodes@,
                                ne == self.num_edges,
                                nid < ns.len(),
                                producer_of(ns, e) == Some(nid),
                                e < ne,
                                need_edge@[e as int],
                                s <= ns[nid as int].inputs.len(),
                                need_edge.len() == ne,
                                need_node.len() == ns.len(),
                                need_node@[nid as int],
                                forall|k: int| 0 <= k < targets.len() ==> #[trigger] targets@[k] < ne,
                                forall|k: int| 0 <= k < targets.len() ==> need_edge@[#[trigger] targets@[k] as int],
                                forall|k: int| 0 <= k < stack.len() ==> #[trigger] stack@[k] < ne && need_edge@[stack@[k] as int],
                                forall|x: int|
                                    0 <= x < ne && #[trigger] need_edge@[x] && !stack@.contains(x as usize) && produced(ns, x as usize)
                                        && x != e ==> need_node@[producer_of(ns, x as usize).unwrap() as int],
                                forall|q: int| 0 <= q < s ==> need_edge@[#[trigger] ns[nid as int].inputs@[q] as int],
                                forall|v: int|
                                    0 <= v < ns.len() && #[trigger] need_node@[v] && v != nid ==> (forall|s2: int|
                                        0 <= s2 < ns[v].inputs.len() ==> need_edge@[#[trigger] ns[v].inputs@[s2] as int]),
                                forall|v: int|
                                    0 <= v < ns.len() && #[trigger] need_node@[v] ==> exists|x: int|
                                        0 <= x < ne && need_edge@[x] && #[trigger] producer_of(ns, x as usize) == Some(v as usize),
                                forall|other: Seq<bool>|
                                    other.len() == ne && #[trigger] closed_needs(ns, targets@, other) ==> forall|x: int|
                                        0 <= x < ne && need_edge@[x] ==> other[x],
                                count_false(need_edge@) <= old_count,
                                stack.len() >= old_len,
                                stack.len() > old_len ==> count_false(need_edge@) < old_count,
                            decreases ns[nid as int].inputs.len() - s,
                        {
                            let ie = self.nodes[nid].inputs[s];
                            proof {
                                assert(ie < ne);
                            }
                            if !need_edge[ie] {
                                let ghost before = stack@;
                                let ghost marks = need_edge@;
                                need_edge.set(ie, true);
                                stack.push(ie);
                                proof {
                                    lemma_count_false_mark(marks, ie as int);
                                    assert forall|x: int|
                                        0 <= x < ne && #[trigger] need_edge@[x] && !stack@.contains(x as usize) && produced(ns, x as usize)
                                            && x != e implies need_node@[producer_of(ns, x as usize).unwrap() as int] by {
                                        vstd::seq_lib::lemma_seq_contains_after_push(before, ie, x as usize);
                                    }
                                    assert forall|other: Seq<bool>|
                                        other.len() == ne && #[trigger] closed_needs(ns, targets@, other) implies forall|x: int|
                                            0 <= x < ne && need_edge@[x] ==> other[x] by {
                                        assert(other[e as int]);
                                        assert(ns[producer_of(ns, e).unwrap() as int].inputs@[s as int] == ie);
                                    }
                                }
                            }
                            s = s + 1;
                        }
                    }
                },
                None => {},
            }
            proof {
                assert forall|x: int|
                    0 <= x < ne && #[trigger] need_edge@[x] && !stack@.contains(x as usize) && produced(ns, x as usize)
                        implies need_node@[producer_of(ns, x as usize).unwrap() as int] by {
                    if x == e {
                        assert(self.producers@[e as int] == producer_of(ns, e));
                    }
                }
            }
        }
        proof {
            assert forall|e: int, s: int|
                0 <= e < need_edge.len() && need_edge@[e] && #[trigger] produced(ns, e as usize) && 0 <= s
                    < ns[producer_of(ns, e as usize).unwrap() as int].inputs.len() implies need_edge@[#[trigger] ns[producer_of(
                ns,
                e as usize,
            ).unwrap() as int].inputs@[s] as int] by {
                let w = choose|w: int| #[trigger] produces(ns, w, e as usize);
            }
        }
        (need_edge, need_node)
    }

    /// For each needed node, the aliases of its output edges that a needed
    /// node reads, edge by edge.
    pub fn collect_needed_out_aliases(&self, need_node: &[bool]) -> (r: Vec<Vec<(EdgeId, AliasId)>>)
        requires
            self.wf(),
            need_node.len() == self.nodes.len(),
        ensures
            r.len() == self.nodes.len(),
            forall|v: int|
                0 <= v < self.nodes.len() ==> (#[trigger] r@[v])@ == if need_node@[v] {
                    needed_out_aliases(*self, need_node@, self.nodes@[v].outputs@)
                } else {
                    Seq::empty()
                },
    {
        let ghost ns = self.nodes@;
        let ghost flat = alias_edges(ns, ns.len());
        proof {
            lemma_alias_lens(ns, ns.len());
        }
        let mut res: Vec<Vec<(EdgeId, AliasId)>> = Vec::new();
        let mut v: usize = 0;
        while v < self.nodes.len()
            invariant
                self.wf(),
                ns == self.nodes@,
                flat == alias_edges(ns, ns.len()),
                need_node.len() == ns.len(),
                alias_consumers(ns, ns.len()).len() == flat.len(),
                forall|a: int| 0 <= a < flat.len() ==> #[trigger] alias_consumers(ns, ns.len())[a] < ns.len(),
                v <= ns.len(),
                res.len() == v,
                forall|w: int|
                    0 <= w < v ==> (#[trigger] res@[w])@ == if need_node@[w] {
                        needed_out_aliases(*self, need_node@, ns[w].outputs@)
                    } else {
                        Seq::empty()
                    },
            decreases ns.len() - v,
        {
            let mut list: Vec<(EdgeId, AliasId)> = Vec::new();
            if need_node[v] {
                let ghost outs = ns[v as int].outputs@;
                let mut a: usize = 0;
                while a < self.nodes[v].outputs.len()
                    invariant
                        self.wf(),
                        ns == self.nodes@,
                        flat == alias_edges(ns, ns.len()),
                        need_node.len() == ns.len(),
                        alias_consumers(ns, ns.len()).len() == flat.len(),
                        forall|x: int| 0 <= x < flat.len() ==> #[trigger] alias_consumers(ns, ns.len())[x] < ns.len(),
                        v < ns.len(),
                        outs == ns[v as int].outputs@,
                        a <= outs.len(),
                        list@ == needed_out_aliases(*self, need_node@, outs.take(a as int)),
                    decreases outs.len() - a,
                {
                    let e = self.nodes[v].outputs[a];
                    assert(e < self.num_edges);
                    let ghost list0 = list@;
                    let ghost al = self.edge_aliases@[e as int]@;
                    let mut k: usize = 0;
                    while k < self.edge_aliases[e].len()
                        invariant
                            self.wf(),
                            ns == self.nodes@,
                            flat == alias_edges(ns, ns.len()),
                            need_node.len() == ns.len(),
                            alias_consumers(ns, ns.len()).len() == flat.len(),
                            forall|x: int| 0 <= x < flat.len() ==> #[trigger] alias_consumers(ns, ns.len())[x] < ns.len(),
                            e < self.num_edges,
                            al == self.edge_aliases@[e as int]@,
                            al == aliases_of(flat, flat.len(), e),
                            k <= al.len(),
                            list@ == list0 + needed_aliases(self.alias_to_consumer@, need_node@, e, al.take(k as int)),
                        decreases al.len() - k,
                    {
                        let aid = self.edge_aliases[e][k];
                        proof {
                            assert(self.alias_to_edge@ == flat);
                            assert(flat.len() == self.alias_to_edge.len());
                            lemma_alias_in_range(ns, flat, flat.len(), e, k as int);
                            assert(al.take(k as int + 1).drop_last() =~= al.take(k as int));
                            assert(al.take(k as int + 1).last() == aid);
                        }
                        let (_pe, consumer, _slot) = self.alias_info(aid);
                        if need_node[consumer] {
                            list.push((e, aid));
                            proof {
                                assert(list0 + needed_aliases(self.alias_to_consumer@, need_node@, e, al.take(k as int + 1))
                                    =~= (list0 + needed_aliases(self.alias_to_consumer@, need_node@, e, al.take(k as int))).push((e, aid)));
                            }
                        }
                        k = k + 1;
                    }
                    proof {
                        assert(al.take(al.len() as int) =~= al);
                        assert(outs.take(a as int + 1).drop_last() =~= outs.take(a as int));
                        assert(outs.take(a as int + 1).last() == e);
                    }
                    a = a + 1;
                }
                proof {
                    assert(outs.take(outs.len() as int) =~= outs);
                }
            }
            res.push(list);
            v = v + 1;
        }
        res
    }
}

} // verus!
