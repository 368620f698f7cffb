//! Compiling a computation graph, and the einsum index letters of the
//! graph builder.
use crate::dag::{
    alias_consumers, alias_edges, alias_slots, aliases_of, consumers_of, count_of, depends,
    is_topo_order, nodes_wf, produced, producer_of, produces, AliasId, Dag, EdgeId, Node, NodeId,
    Role,
};
use vstd::prelude::*;

verus! {

/// The code of the letter `a`.
const LETTER_A: u8 = 97;

/// `String::push`: appends the character `c`.
#[verifier::external_body]
fn push_char(s: &mut String, c: char)
    ensures
        final(s)@ == old(s)@.push(c),
{
    s.push(c);
}

/// The `a` einsum index letters `"ab..."`: the characters with codes
/// `b'a' + i` for `i < a`.
pub fn letters(a: usize) -> (r: String)
    requires
        a <= 159,
    ensures
        r@ == Seq::new(a as nat, |i: int| ((97 + i) as u8) as char),
{
    let mut s = String::new();
    let mut i: usize = 0;
    while i < a
        invariant
            i <= a,
            a <= 159,
            s@ == Seq::new(i as nat, |k: int| ((97 + k) as u8) as char),
        decreases a - i,
    {
        let c = (LETTER_A + i as u8) as char;
        push_char(&mut s, c);
        i = i + 1;
        proof {
            assert(s@ =~= Seq::new(i as nat, |k: int| ((97 + k) as u8) as char));
        }
    }
    s
}

/// A computation graph under construction: its nodes, the number of edges
/// allocated so far, the role of each edge's initial value, and the nodes
/// that need a range check or a power-of-two lookup.
#[derive(Clone, Debug)]
pub struct DagBuilder {
    pub nodes: Vec<Node>,
    pub num_edges: usize,
    pub edge_roles: Vec<Role>,
    pub range: Vec<NodeId>,
    pub two_pow: Vec<NodeId>,
}

/// The edges below `k` that no node writes and whose value is an input.
pub open spec fn input_ports_of(nodes: Seq<Node>, roles: Seq<Role>, k: nat) -> Seq<EdgeId>
    decreases k,
{
    if k == 0 {
        Seq::empty()
    } else {
        let e = (k - 1) as usize;
        let prev = input_ports_of(nodes, roles, (k - 1) as nat);
        if !produced(nodes, e) && roles[k - 1] == Role::Input {
            prev.push(e)
        } else {
            prev
        }
    }
}

/// The edges below `k` that no node reads.
pub open spec fn unread_edges(nodes: Seq<Node>, k: nat) -> Seq<EdgeId>
    decreases k,
{
    if k == 0 {
        Seq::empty()
    } else {
        let e = (k - 1) as usize;
        let prev = unread_edges(nodes, (k - 1) as nat);
        if consumers_of(nodes, nodes.len(), e).len() == 0 {
            prev.push(e)
        } else {
            prev
        }
    }
}

/// The first inputs of the non-negativity checks among the first `k`
/// range nodes.
pub open spec fn checked_inputs(nodes: Seq<Node>, range: Seq<NodeId>, k: nat) -> Seq<EdgeId>
    decreases k,
{
    if k == 0 {
        Seq::empty()
    } else {
        let prev = checked_inputs(nodes, range, (k - 1) as nat);
        let node = nodes[range[k - 1] as int];
        if node.nonneg {
            prev.push(node.inputs@[0])
        } else {
            prev
        }
    }
}

/// The builder describes a graph that compiles: well-formed nodes, a role
/// for every edge, range nodes that exist (a non-negativity check having
/// an input), and a topological order.
pub open spec fn builder_ok(b: DagBuilder) -> bool {
    &&& nodes_wf(b.nodes@, b.num_edges as nat)
    &&& b.edge_roles.len() == b.num_edges
    &&& forall|k: int|
        0 <= k < b.range.len() ==> {
            &&& #[trigger] b.range@[k] < b.nodes.len()
            &&& b.nodes@[b.range@[k] as int].nonneg ==> b.nodes@[b.range@[k] as int].inputs.len() > 0
        }
    &&& exists|order: Seq<NodeId>| is_topo_order(b.nodes@, order)
}

/// `produces` names one node per edge.
pub proof fn lemma_producer_unique(nodes: Seq<Node>, num_edges: nat, u: int, v: int, e: usize)
    requires
        nodes_wf(nodes, num_edges),
        produces(nodes, u, e),
        produces(nodes, v, e),
    ensures
        u == v,
{
    let a = choose|a: int| 0 <= a < nodes[u].outputs.len() && nodes[u].outputs@[a] == e;
    let b = choose|b: int| 0 <= b < nodes[v].outputs.len() && nodes[v].outputs@[b] == e;
    assert(nodes[u].outputs@[a] == nodes[v].outputs@[b]);
}

/// No node before `i` writes `x`.
pub open spec fn none_before(nodes: Seq<Node>, x: usize, i: int) -> bool {
    forall|u: int| 0 <= u < i ==> !#[trigger] produces(nodes, u, x)
}

/// The readers of each edge, one entry per input slot.
fn build_consumers(nodes: &Vec<Node>, num_edges: usize) -> (c: Vec<Vec<NodeId>>)
    requires
        nodes_wf(nodes@, num_edges as nat),
    ensures
        c.len() == num_edges,
        forall|e: int| 0 <= e < num_edges ==> (#[trigger] c@[e])@ == consumers_of(nodes@, nodes.len() as nat, e as usize),
{
    let mut c: Vec<Vec<NodeId>> = Vec::new();
    let mut e: usize = 0;
    while e < num_edges
        invariant
            e <= num_edges,
            c.len() == e,
            forall|x: int| 0 <= x < e ==> (#[trigger] c@[x])@ == Seq::<NodeId>::empty(),
        decreases num_edges - e,
    {
        c.push(Vec::new());
        e = e + 1;
    }
    let mut i: usize = 0;
    while i < nodes.len()
        invariant
            i <= nodes.len(),
            nodes_wf(nodes@, num_edges as nat),
            c.len() == num_edges,
            forall|x: int| 0 <= x < num_edges ==> (#[trigger] c@[x])@ == consumers_of(nodes@, i as nat, x as usize),
        decreases nodes.len() - i,
    {
        let ghost base = c@;
        let mut s: usize = 0;
        while s < nodes[i].inputs.len()
            invariant
                i < nodes.len(),
                s <= nodes[i as int].inputs.len(),
                nodes_wf(nodes@, num_edges as nat),
                c.len() == num_edges,
                forall|x: int|
                    0 <= x < num_edges ==> (#[trigger] c@[x])@ == consumers_of(nodes@, i as nat, x as usize)
                        + Seq::new(
                        count_of(nodes@[i as int].inputs@.take(s as int), x as usize),
                        |_y: int| i as usize,
                    ),
            decreases nodes[i as int].inputs.len() - s,
        {
            let x = nodes[i].inputs[s];
            assert(x < num_edges);
            let ghost before = c@;
            c[x].push(i);
            proof {
                let ins = nodes@[i as int].inputs@;
                assert(ins.take(s as int + 1).drop_last() =~= ins.take(s as int));
                assert(ins.take(s as int + 1).last() == x);
                assert forall|y: int| 0 <= y < num_edges implies (#[trigger] c@[y])@ == consumers_of(
                    nodes@,
                    i as nat,
                    y as usize,
                ) + Seq::new(
                    count_of(nodes@[i as int].inputs@.take(s as int + 1), y as usize),
                    |_z: int| i as usize,
                ) by {
                    let pre = consumers_of(nodes@, i as nat, y as usize);
                    if y == x {
                        assert(pre + Seq::new(
                            count_of(ins.take(s as int + 1), y as usize),
                            |_z: int| i as usize,
                        ) =~= (pre + Seq::new(
                            count_of(ins.take(s as int), y as usize),
                            |_z: int| i as usize,
                        )).push(i));
                    } else {
                        assert(c@[y] == before[y]);
                    }
                }
            }
            s = s + 1;
        }
        proof {
            assert(nodes@[i as int].inputs@.take(nodes@[i as int].inputs.len() as int)
                =~= nodes@[i as int].inputs@);
        }
        i = i + 1;
    }
    c
}

/// The writer of each edge.
fn build_producers(nodes: &Vec<Node>, num_edges: usize) -> (p: Vec<Option<NodeId>>)
    requires
        nodes_wf(nodes@, num_edges as nat),
    ensures
        p.len() == num_edges,
        forall|e: int| 0 <= e < num_edges ==> #[trigger] p@[e] == producer_of(nodes@, e as usize),
{
    let mut p: Vec<Option<NodeId>> = Vec::new();
    let mut e: usize = 0;
    while e < num_edges
        invariant
            e <= num_edges,
            p.len() == e,
            forall|x: int| 0 <= x < e ==> #[trigger] p@[x] == None::<NodeId>,
        decreases num_edges - e,
    {
        p.push(None);
        e = e + 1;
    }
    let mut i: usize = 0;
    while i < nodes.len()
        invariant
            i <= nodes.len(),
            nodes_wf(nodes@, num_edges as nat),
            p.len() == num_edges,
            forall|x: int|
                0 <= x < num_edges ==> match #[trigger] p@[x] {
                    Some(u) => u < i && produces(nodes@, u as int, x as usize),
                    None => none_before(nodes@, x as usize, i as int),
                },
        decreases nodes.len() - i,
    {
        let mut a: usize = 0;
        while a < nodes[i].outputs.len()
            invariant
                i < nodes.len(),
                a <= nodes[i as int].outputs.len(),
                nodes_wf(nodes@, num_edges as nat),
                p.len() == num_edges,
                forall|x: int|
                    0 <= x < num_edges ==> match #[trigger] p@[x] {
                        Some(u) => u <= i && produces(nodes@, u as int, x as usize),
                        None => (none_before(nodes@, x as usize, i as int))
                            && !nodes@[i as int].outputs@.take(a as int).contains(x as usize),
                    },
            decreases nodes[i as int].outputs.len() - a,
        {
            let x = nodes[i].outputs[a];
            assert(x < num_edges);
            let ghost before = p@;
            p.set(x, Some(i));
            proof {
                let outs = nodes@[i as int].outputs@;
                assert(outs.take(a as int + 1) =~= outs.take(a as int).push(x));
                assert(produces(nodes@, i as int, x)) by {
                    assert(outs[a as int] == x);
                }
                assert forall|y: int| 0 <= y < num_edges implies match #[trigger] p@[y] {
                    Some(u) => u <= i && produces(nodes@, u as int, y as usize),
                    None => (none_before(nodes@, y as usize, i as int))
                        && !outs.take(a as int + 1).contains(y as usize),
                } by {
                    if y != x {
                        assert(p@[y] == before[y]);
                        if p@[y] is None {
                            vstd::seq_lib::lemma_seq_contains_after_push(
                                outs.take(a as int),
                                x,
                                y as usize,
                            );
                        }
                    }
                }
            }
            a = a + 1;
        }
        proof {
            let outs = nodes@[i as int].outputs@;
            assert(outs.take(outs.len() as int) =~= outs);
            assert forall|x: int| 0 <= x < num_edges implies match #[trigger] p@[x] {
                Some(u) => u < i + 1 && produces(nodes@, u as int, x as usize),
                None => none_before(nodes@, x as usize, i + 1),
            } by {
                if p@[x] is None {
                    assert forall|u: int| 0 <= u < i + 1 implies !#[trigger] produces(
                        nodes@,
                        u,
                        x as usize,
                    ) by {
                        if u == i {
                            assert(!outs.contains(x as usize));
                        }
                    }
                }
            }
        }
        i = i + 1;
    }
    proof {
        assert forall|x: int| 0 <= x < num_edges implies #[trigger] p@[x] == producer_of(nodes@, x as usize) by {
            match p@[x] {
                Some(u) => {
                    let w = choose|w: int| #[trigger] produces(nodes@, w, x as usize);
                    lemma_producer_unique(nodes@, num_edges as nat, u as int, w, x as usize);
                },
                None => {
                    if produced(nodes@, x as usize) {
                        let w = choose|w: int| #[trigger] produces(nodes@, w, x as usize);
                    }
                },
            }
        }
    }
    p
}

/// Input slots, among `ins`, whose edge is written by a node not in `done`.
pub open spec fn pending(nodes: Seq<Node>, ins: Seq<EdgeId>, done: Seq<NodeId>) -> nat
    decreases ins.len(),
{
    if ins.len() == 0 {
        0
    } else {
        let x = ins.last();
        pending(nodes, ins.drop_last(), done) + if produced(nodes, x) && !done.contains(
            producer_of(nodes, x).unwrap(),
        ) {
            1nat
        } else {
            0nat
        }
    }
}

/// Input slots, among `ins`, whose edge is in `outs`.
pub open spec fn count_in_set(ins: Seq<EdgeId>, outs: Seq<EdgeId>) -> nat
    decreases ins.len(),
{
    if ins.len() == 0 {
        0
    } else {
        count_in_set(ins.drop_last(), outs) + if outs.contains(ins.last()) {
            1nat
        } else {
            0nat
        }
    }
}

proof fn lemma_count_of_add(a: Seq<usize>, b: Seq<usize>, x: usize)
    ensures
        count_of(a + b, x) == count_of(a, x) + count_of(b, x),
    decreases b.len(),
{
    if b.len() > 0 {
        assert((a + b).drop_last() =~= a + b.drop_last());
        lemma_count_of_add(a, b.drop_last(), x);
    } else {
        assert(a + b =~= a);
    }
}

proof fn lemma_count_of_const(c: nat, y: usize, x: usize)
    ensures
        count_of(Seq::new(c, |_z: int| y), x) == if x == y {
            c
        } else {
            0
        },
    decreases c,
{
    if c > 0 {
        assert(Seq::new(c, |_z: int| y).drop_last() =~= Seq::new((c - 1) as nat, |_z: int| y));
        lemma_count_of_const((c - 1) as nat, y, x);
    }
}

/// Node `v` appears among the readers of `e` once per slot of `v` reading `e`.
proof fn lemma_count_consumers(nodes: Seq<Node>, k: nat, e: usize, v: usize)
    requires
        k <= nodes.len(),
        v < nodes.len(),
        nodes.len() <= usize::MAX,
    ensures
        count_of(consumers_of(nodes, k, e), v) == if v < k {
            count_of(nodes[v as int].inputs@, e)
        } else {
            0
        },
    decreases k,
{
    if k > 0 {
        let i = (k - 1) as int;
        lemma_count_consumers(nodes, (k - 1) as nat, e, v);
        lemma_count_of_add(
            consumers_of(nodes, (k - 1) as nat, e),
            Seq::new(count_of(nodes[i].inputs@, e), |_x: int| i as usize),
            v,
        );
        lemma_count_of_const(count_of(nodes[i].inputs@, e), i as usize, v);
    }
}

/// An empty set of edges counts no slot.
proof fn lemma_count_in_set_empty(ins: Seq<EdgeId>)
    ensures
        count_in_set(ins, Seq::empty()) == 0,
    decreases ins.len(),
{
    if ins.len() > 0 {
        lemma_count_in_set_empty(ins.drop_last());
    }
}

proof fn lemma_count_in_set_push(ins: Seq<EdgeId>, outs: Seq<EdgeId>, o: EdgeId)
    requires
        !outs.contains(o),
    ensures
        count_in_set(ins, outs.push(o)) == count_in_set(ins, outs) + count_of(ins, o),
    decreases ins.len(),
{
    if ins.len() > 0 {
        lemma_count_in_set_push(ins.drop_last(), outs, o);
        vstd::seq_lib::lemma_seq_contains_after_push(outs, o, ins.last());
    }
}

/// Slots whose writer is `u` are the slots reading an output of `u`; once
/// `u` is done they are no longer pending.
proof fn lemma_pending_step(nodes: Seq<Node>, num_edges: nat, ins: Seq<EdgeId>, done: Seq<NodeId>, u: int)
    requires
        nodes_wf(nodes, num_edges),
        0 <= u < nodes.len(),
        !done.contains(u as usize),
    ensures
        pending(nodes, ins, done.push(u as usize)) + count_in_set(ins, nodes[u].outputs@) == pending(
            nodes,
            ins,
            done,
        ),
    decreases ins.len(),
{
    if ins.len() > 0 {
        lemma_pending_step(nodes, num_edges, ins.drop_last(), done, u);
        let x = ins.last();
        vstd::seq_lib::lemma_seq_contains_after_push(done, u as usize, producer_of(nodes, x).unwrap());
        if nodes[u].outputs@.contains(x) {
            assert(produces(nodes, u, x));
            let w = choose|w: int| #[trigger] produces(nodes, w, x);
            lemma_producer_unique(nodes, num_edges, u, w, x);
        } else if produced(nodes, x) {
            let w = choose|w: int| #[trigger] produces(nodes, w, x);
            assert(w != u);
        }
    }
}

/// No pending slot: every written input edge has its writer done.
proof fn lemma_pending_zero(nodes: Seq<Node>, ins: Seq<EdgeId>, done: Seq<NodeId>, s: int)
    requires
        pending(nodes, ins, done) == 0,
        0 <= s < ins.len(),
        produced(nodes, ins[s]),
    ensures
        done.contains(producer_of(nodes, ins[s]).unwrap()),
    decreases ins.len(),
{
    if s < ins.len() - 1 {
        assert(ins.drop_last()[s] == ins[s]);
        lemma_pending_zero(nodes, ins.drop_last(), done, s);
    }
}

/// A pending slot has a writer that is not done.
proof fn lemma_pending_pos(nodes: Seq<Node>, ins: Seq<EdgeId>, done: Seq<NodeId>, s: int)
    requires
        0 <= s < ins.len(),
        produced(nodes, ins[s]),
        !done.contains(producer_of(nodes, ins[s]).unwrap()),
    ensures
        pending(nodes, ins, done) > 0,
    decreases ins.len(),
{
    if s < ins.len() - 1 {
        assert(ins.drop_last()[s] == ins[s]);
        lemma_pending_pos(nodes, ins.drop_last(), done, s);
    }
}

/// A list of distinct nodes has at most `n` entries; with fewer, some node is missing.
proof fn lemma_distinct_nodes(s: Seq<NodeId>, n: nat)
    requires
        n <= usize::MAX,
        s.no_duplicates(),
        forall|k: int| 0 <= k < s.len() ==> #[trigger] s[k] < n,
    ensures
        s.len() <= n,
        s.len() < n ==> exists|v: usize| v < n && !#[trigger] s.contains(v),
        s.len() == n ==> forall|v: usize| v < n ==> #[trigger] s.contains(v),
{
    let t = s.map_values(|x: NodeId| x as int);
    assert(t.no_duplicates()) by {
        assert forall|i: int, j: int| 0 <= i < t.len() && 0 <= j < t.len() && i != j implies t[i] != t[j] by {
            assert(s[i] != s[j]);
        }
    }
    t.unique_seq_to_set();
    let r = vstd::set_lib::set_int_range(0, n as int);
    vstd::set_lib::lemma_int_range(0, n as int);
    assert(t.to_set().subset_of(r)) by {
        assert forall|v: int| t.to_set().contains(v) implies r.contains(v) by {
            let k = choose|k: int| 0 <= k < t.len() && t[k] == v;
            assert(s[k] < n);
        }
    }
    vstd::set_lib::lemma_len_subset(t.to_set(), r);
    if s.len() < n {
        if forall|v: usize| v < n ==> #[trigger] s.contains(v) {
            assert(r.subset_of(t.to_set())) by {
                assert forall|v: int| r.contains(v) implies t.to_set().contains(v) by {
                    assert(s.contains(v as usize));
                    let k = choose|k: int| 0 <= k < s.len() && s[k] == v as usize;
                    assert(t[k] == v);
                }
            }
            vstd::set_lib::lemma_len_subset(r, t.to_set());
        }
    }
    if s.len() == n {
        vstd::set_lib::lemma_subset_equality(t.to_set(), r);
        assert forall|v: usize| v < n implies #[trigger] s.contains(v) by {
            assert(r.contains(v as int));
            assert(t.to_set().contains(v as int));
            let k = choose|k: int| 0 <= k < t.len() && t[k] == v as int;
            assert(s[k] == v);
        }
    }
}

/// A prefix holds no more copies of `x` than the whole.
proof fn lemma_count_prefix_le(s: Seq<usize>, j: int, x: usize)
    requires
        0 <= j <= s.len(),
    ensures
        count_of(s.take(j), x) <= count_of(s, x),
    decreases s.len() - j,
{
    if j < s.len() {
        lemma_count_prefix_le(s, j + 1, x);
        assert(s.take(j + 1).drop_last() =~= s.take(j));
    } else {
        assert(s.take(j) =~= s);
    }
}

/// A slot counted by `count_in_set`.
proof fn lemma_count_in_set_witness(ins: Seq<EdgeId>, outs: Seq<EdgeId>) -> (s: int)
    requires
        count_in_set(ins, outs) > 0,
    ensures
        0 <= s < ins.len(),
        outs.contains(ins[s]),
    decreases ins.len(),
{
    if outs.contains(ins.last()) {
        ins.len() - 1
    } else {
        let s = lemma_count_in_set_witness(ins.drop_last(), outs);
        assert(ins.drop_last()[s] == ins[s]);
        s
    }
}

/// A pending slot.
proof fn lemma_pending_witness(nodes: Seq<Node>, ins: Seq<EdgeId>, done: Seq<NodeId>) -> (s: int)
    requires
        pending(nodes, ins, done) > 0,
    ensures
        0 <= s < ins.len(),
        produced(nodes, ins[s]),
        !done.contains(producer_of(nodes, ins[s]).unwrap()),
    decreases ins.len(),
{
    let x = ins.last();
    if produced(nodes, x) && !done.contains(producer_of(nodes, x).unwrap()) {
        ins.len() - 1
    } else {
        let s = lemma_pending_witness(nodes, ins.drop_last(), done);
        assert(ins.drop_last()[s] == ins[s]);
        s
    }
}

/// The readers of an edge are nodes.
proof fn lemma_consumers_below(nodes: Seq<Node>, k: nat, e: usize, t: int)
    requires
        0 <= t < consumers_of(nodes, k, e).len(),
    ensures
        consumers_of(nodes, k, e)[t] < k,
    decreases k,
{
    if k > 0 {
        let prev = consumers_of(nodes, (k - 1) as nat, e);
        if t < prev.len() {
            lemma_consumers_below(nodes, (k - 1) as nat, e, t);
        }
    }
}

/// The first entry of `order` that `done` lacks, when `order` lists every
/// node and `done` lacks one.
proof fn lemma_first_missing(order: Seq<NodeId>, done: Seq<NodeId>, n: nat) -> (k: int)
    requires
        order.len() == n,
        forall|v: usize| v < n ==> #[trigger] order.contains(v),
        exists|v: usize| v < n && !#[trigger] done.contains(v),
    ensures
        0 <= k < order.len(),
        !done.contains(order[k]),
        forall|m: int| 0 <= m < k ==> done.contains(#[trigger] order[m]),
{
    let v = choose|v: usize| v < n && !#[trigger] done.contains(v);
    assert(order.contains(v));
    let m = choose|m: int| 0 <= m < order.len() && order[m] == v;
    assert(!done.contains(order[m]));
    lemma_first_missing_from(order, done, 0)
}

proof fn lemma_first_missing_from(order: Seq<NodeId>, done: Seq<NodeId>, i: int) -> (k: int)
    requires
        0 <= i <= order.len(),
        forall|m: int| 0 <= m < i ==> done.contains(#[trigger] order[m]),
        exists|m: int| i <= m < order.len() && !done.contains(#[trigger] order[m]),
    ensures
        i <= k < order.len(),
        !done.contains(order[k]),
        forall|m: int| 0 <= m < k ==> done.contains(#[trigger] order[m]),
    decreases order.len() - i,
{
    if !done.contains(order[i]) {
        i
    } else {
        lemma_first_missing_from(order, done, i + 1)
    }
}

/// For each node, its input slots whose edge some node writes.
fn in_degrees(nodes: &Vec<Node>, num_edges: usize, producers: &Vec<Option<NodeId>>) -> (indeg: Vec<usize>)
    requires
        nodes_wf(nodes@, num_edges as nat),
        producers.len() == num_edges,
        forall|e: int| 0 <= e < num_edges ==> #[trigger] producers@[e] == producer_of(nodes@, e as usize),
    ensures
        indeg.len() == nodes.len(),
        forall|w: int| 0 <= w < nodes.len() ==> #[trigger] indeg@[w] == pending(nodes@, nodes@[w].inputs@, Seq::empty()),
{
    let ghost ns = nodes@;
    let n = nodes.len();
    let mut indeg: Vec<usize> = Vec::new();
    let mut v: usize = 0;
    while v < n
        invariant
            v <= n,
            n == nodes.len(),
            ns == nodes@,
            nodes_wf(ns, num_edges as nat),
            producers.len() == num_edges,
            forall|e: int| 0 <= e < num_edges ==> #[trigger] producers@[e] == producer_of(ns, e as usize),
            indeg.len() == v,
            forall|w: int| 0 <= w < v ==> #[trigger] indeg@[w] == pending(ns, ns[w].inputs@, Seq::empty()),
        decreases n - v,
    {
        let mut d: usize = 0;
        let mut s: usize = 0;
        while s < nodes[v].inputs.len()
            invariant
                v < n,
                n == nodes.len(),
                ns == nodes@,
                nodes_wf(ns, num_edges as nat),
                producers.len() == num_edges,
                forall|e: int| 0 <= e < num_edges ==> #[trigger] producers@[e] == producer_of(ns, e as usize),
                s <= ns[v as int].inputs.len(),
                d == pending(ns, ns[v as int].inputs@.take(s as int), Seq::empty()),
                d <= s,
            decreases ns[v as int].inputs.len() - s,
        {
            let e = nodes[v].inputs[s];
            proof {
                let ins = ns[v as int].inputs@;
                assert(ins.take(s as int + 1).drop_last() =~= ins.take(s as int));
                assert(ins.take(s as int + 1).last() == e);
                assert(e < num_edges);
            }
            if producers[e].is_some() {
                d = d + 1;
            }
            s = s + 1;
        }
        proof {
            assert(ns[v as int].inputs@.take(s as int) =~= ns[v as int].inputs@);
        }
        indeg.push(d);
        v = v + 1;
    }
    indeg
}

/// The nodes downstream of `u`: for each output edge of `u`, its readers.
fn downstream_of(nodes: &Vec<Node>, num_edges: usize, consumers: &Vec<Vec<NodeId>>, u: usize) -> (og: Vec<NodeId>)
    requires
        nodes_wf(nodes@, num_edges as nat),
        u < nodes.len(),
        consumers.len() == num_edges,
        forall|e: int| 0 <= e < num_edges ==> (#[trigger] consumers@[e])@ == consumers_of(nodes@, nodes.len() as nat, e as usize),
    ensures
        forall|w: usize| w < nodes.len() ==> #[trigger] count_of(og@, w) == count_in_set(nodes@[w as int].inputs@, nodes@[u as int].outputs@),
        forall|k: int| 0 <= k < og.len() ==> #[trigger] og@[k] < nodes.len(),
{
    let ghost ns = nodes@;
    let ghost outs = ns[u as int].outputs@;
    let n = nodes.len();
    let mut og: Vec<NodeId> = Vec::new();
    proof {
        assert forall|w: usize| w < n implies #[trigger] count_of(og@, w) == count_in_set(ns[w as int].inputs@, outs.take(0)) by {
            assert(outs.take(0) =~= Seq::<EdgeId>::empty());
            lemma_count_in_set_empty(ns[w as int].inputs@);
        }
    }
    let mut a: usize = 0;
    while a < nodes[u].outputs.len()
        invariant
            u < n,
            n == nodes.len(),
            ns == nodes@,
            outs == ns[u as int].outputs@,
            nodes_wf(ns, num_edges as nat),
            consumers.len() == num_edges,
            forall|e: int| 0 <= e < num_edges ==> (#[trigger] consumers@[e])@ == consumers_of(ns, n as nat, e as usize),
            a <= outs.len(),
            forall|w: usize| w < n ==> #[trigger] count_of(og@, w) == count_in_set(ns[w as int].inputs@, outs.take(a as int)),
            forall|k: int| 0 <= k < og.len() ==> #[trigger] og@[k] < n,
        decreases outs.len() - a,
    {
        let e = nodes[u].outputs[a];
        assert(e < num_edges);
        let ghost og0 = og@;
        let mut t: usize = 0;
        while t < consumers[e].len()
            invariant
                n == nodes.len(),
                ns == nodes@,
                e < num_edges,
                consumers.len() == num_edges,
                consumers@[e as int]@ == consumers_of(ns, n as nat, e),
                t <= consumers@[e as int].len(),
                og@ == og0 + consumers@[e as int]@.take(t as int),
                forall|k: int| 0 <= k < og.len() ==> #[trigger] og@[k] < n,
            decreases consumers@[e as int].len() - t,
        {
            let w = consumers[e][t];
            proof {
                lemma_consumers_below(ns, n as nat, e, t as int);
            }
            og.push(w);
            proof {
                let cs = consumers@[e as int]@;
                assert(og0 + cs.take(t as int + 1) =~= (og0 + cs.take(t as int)).push(w));
            }
            t = t + 1;
        }
        proof {
            let cs = consumers@[e as int]@;
            assert(cs.take(cs.len() as int) =~= cs);
            assert(outs.take(a as int + 1) =~= outs.take(a as int).push(e));
            assert(!outs.take(a as int).contains(e)) by {
                if outs.take(a as int).contains(e) {
                    let k = choose|k: int| 0 <= k < a && outs.take(a as int)[k] == e;
                    assert(outs[k] == outs[a as int]);
                }
            }
            assert forall|w: usize| w < n implies #[trigger] count_of(og@, w) == count_in_set(
                ns[w as int].inputs@,
                outs.take(a as int + 1),
            ) by {
                lemma_count_of_add(og0, cs, w);
                lemma_count_consumers(ns, n as nat, e, w);
                lemma_count_in_set_push(ns[w as int].inputs@, outs.take(a as int), e);
            }
        }
        a = a + 1;
    }
    proof {
        assert(outs.take(a as int) =~= outs);
    }
    og
}

/// The nodes with in-degree zero, in increasing order.
fn ready_nodes(indeg: &Vec<usize>) -> (q: Vec<NodeId>)
    ensures
        q@.no_duplicates(),
        forall|k: int| 0 <= k < q.len() ==> #[trigger] q@[k] < indeg.len(),
        forall|w: usize| w < indeg.len() ==> (#[trigger] q@.contains(w) <==> indeg@[w as int] == 0),
{
    let mut q: Vec<NodeId> = Vec::new();
    let mut i: usize = 0;
    while i < indeg.len()
        invariant
            i <= indeg.len(),
            q@.no_duplicates(),
            forall|k: int| 0 <= k < q.len() ==> #[trigger] q@[k] < i,
            forall|w: usize| w < i ==> (#[trigger] q@.contains(w) <==> indeg@[w as int] == 0),
        decreases indeg.len() - i,
    {
        if indeg[i] == 0 {
            let ghost q0 = q@;
            q.push(i);
            proof {
                assert forall|w: usize| w < i + 1 implies (#[trigger] q@.contains(w) <==> indeg@[w as int] == 0) by {
                    vstd::seq_lib::lemma_seq_contains_after_push(q0, i, w);
                }
            }
        } else {
            proof {
                assert(!q@.contains(i)) by {
                    if q@.contains(i) {
                        let k = choose|k: int| 0 <= k < q.len() && q@[k] == i;
                    }
                }
            }
        }
        i = i + 1;
    }
    q
}

/// Orders the nodes so that every node comes after the nodes whose edges it
/// reads (Kahn's algorithm, taking ready nodes from a stack).
fn topological_sort(
    nodes: &Vec<Node>,
    num_edges: usize,
    consumers: &Vec<Vec<NodeId>>,
    producers: &Vec<Option<NodeId>>,
) -> (topo: Vec<NodeId>)
    requires
        nodes_wf(nodes@, num_edges as nat),
        consumers.len() == num_edges,
        forall|e: int| 0 <= e < num_edges ==> (#[trigger] consumers@[e])@ == consumers_of(nodes@, nodes.len() as nat, e as usize),
        producers.len() == num_edges,
        forall|e: int| 0 <= e < num_edges ==> #[trigger] producers@[e] == producer_of(nodes@, e as usize),
        exists|order: Seq<NodeId>| is_topo_order(nodes@, order),
    ensures
        is_topo_order(nodes@, topo@),
{
    let ghost ns = nodes@;
    let ghost ne = num_edges as nat;
    let n = nodes.len();
    let mut indeg = in_degrees(nodes, num_edges, producers);
    let mut outgoing: Vec<Vec<NodeId>> = Vec::new();
    let mut u: usize = 0;
    while u < n
        invariant
            u <= n,
            n == nodes.len(),
            ns == nodes@,
            nodes_wf(ns, ne),
            ne == num_edges,
            consumers.len() == num_edges,
            forall|e: int| 0 <= e < num_edges ==> (#[trigger] consumers@[e])@ == consumers_of(ns, n as nat, e as usize),
            outgoing.len() == u,
            forall|uu: int, w: usize|
                0 <= uu < u && w < n ==> #[trigger] count_of(outgoing@[uu]@, w)
                    == count_in_set(ns[w as int].inputs@, ns[uu].outputs@),
            forall|uu: int, k: int|
                0 <= uu < u && 0 <= k < outgoing@[uu].len() ==> #[trigger] outgoing@[uu]@[k] < n,
        decreases n - u,
    {
        let og = downstream_of(nodes, num_edges, consumers, u);
        outgoing.push(og);
        u = u + 1;
    }
    let mut q = ready_nodes(&indeg);
    let mut topo: Vec<NodeId> = Vec::new();
    proof {
        lemma_distinct_nodes(q@, n as nat);
        assert forall|w: usize| w < n implies indeg@[w as int] == pending(ns, ns[w as int].inputs@, topo@) by {
            assert(topo@ =~= Seq::<NodeId>::empty());
        }
    }
    while q.len() > 0
        invariant
            n == nodes.len(),
            ns == nodes@,
            nodes_wf(ns, ne),
            ne == num_edges,
            indeg.len() == n,
            outgoing.len() == n,
            forall|uu: int, w: usize|
                0 <= uu < n && w < n ==> #[trigger] count_of(outgoing@[uu]@, w)
                    == count_in_set(ns[w as int].inputs@, ns[uu].outputs@),
            forall|uu: int, k: int|
                0 <= uu < n && 0 <= k < outgoing@[uu].len() ==> #[trigger] outgoing@[uu]@[k] < n,
            forall|w: usize| w < n ==> #[trigger] indeg@[w as int] == pending(ns, ns[w as int].inputs@, topo@),
            topo@.no_duplicates(),
            forall|k: int| 0 <= k < topo.len() ==> #[trigger] topo@[k] < n,
            forall|k: int|
                0 <= k < topo.len() ==> pending(ns, ns[topo@[k] as int].inputs@, #[trigger] topo@.take(k)) == 0,
            q@.no_duplicates(),
            forall|k: int| 0 <= k < q.len() ==> #[trigger] q@[k] < n,
            forall|k: int| 0 <= k < q.len() ==> !topo@.contains(#[trigger] q@[k]),
            forall|w: usize|
                w < n ==> (#[trigger] q@.contains(w) <==> (!topo@.contains(w) && indeg@[w as int] == 0)),
            topo.len() + q.len() <= n,
        decreases n - topo.len(),
    {
        let ghost old_q = q@;
        let u = q.pop().unwrap();
        let ghost done = topo@;
        proof {
            assert(q@.push(u) =~= old_q);
            assert(old_q[old_q.len() - 1] == u);
            assert(old_q.contains(u));
            assert(indeg@[u as int] == 0);
            assert(!done.contains(u));
            assert forall|k: int| 0 <= k < q.len() implies #[trigger] q@[k] != u by {
                assert(old_q[k] == q@[k]);
            }
            assert(!q@.contains(u));
        }
        topo.push(u);
        proof {
            assert(topo@.take(done.len() as int) =~= done);
            assert forall|k: int| 0 <= k < topo.len() implies pending(
                ns,
                ns[topo@[k] as int].inputs@,
                #[trigger] topo@.take(k),
            ) == 0 by {
                if k < done.len() {
                    assert(topo@.take(k) =~= done.take(k));
                    assert(topo@[k] == done[k]);
                }
            }
            assert(topo@.no_duplicates()) by {
                assert forall|a: int, b: int|
                    0 <= a < topo.len() && 0 <= b < topo.len() && a != b implies topo@[a]
                    != topo@[b] by {
                    if b == done.len() && a < done.len() {
                        assert(done[a] == topo@[a]);
                        assert(done.contains(topo@[a]));
                    }
                    if a == done.len() && b < done.len() {
                        assert(done[b] == topo@[b]);
                        assert(done.contains(topo@[b]));
                    }
                }
            }
            assert forall|w: usize|
                w < n implies (#[trigger] q@.contains(w) <==> (!topo@.contains(w) && indeg@[w as int] == 0)) by {
                vstd::seq_lib::lemma_seq_contains_after_push(done, u, w);
                vstd::seq_lib::lemma_seq_contains_after_push(q@, u, w);
            }
            assert forall|w: usize| w < n implies #[trigger] indeg@[w as int] + count_of(
                outgoing@[u as int]@.take(0),
                w,
            ) == pending(ns, ns[w as int].inputs@, done) by {
                assert(outgoing@[u as int]@.take(0) =~= Seq::<NodeId>::empty());
            }
        }
        let mut j: usize = 0;
        while j < outgoing[u].len()
            invariant
                n == nodes.len(),
                ns == nodes@,
                nodes_wf(ns, ne),
                ne == num_edges,
                u < n,
                indeg.len() == n,
                outgoing.len() == n,
                forall|uu: int, w: usize|
                    0 <= uu < n && w < n ==> #[trigger] count_of(outgoing@[uu]@, w)
                        == count_in_set(ns[w as int].inputs@, ns[uu].outputs@),
                forall|uu: int, k: int|
                    0 <= uu < n && 0 <= k < outgoing@[uu].len() ==> #[trigger] outgoing@[uu]@[k] < n,
                topo@ == done.push(u),
                !done.contains(u),
                pending(ns, ns[u as int].inputs@, done) == 0,
                topo@.no_duplicates(),
                forall|k: int| 0 <= k < topo.len() ==> #[trigger] topo@[k] < n,
                forall|k: int|
                    0 <= k < topo.len() ==> pending(ns, ns[topo@[k] as int].inputs@, #[trigger] topo@.take(k)) == 0,
                j <= outgoing@[u as int].len(),
                forall|w: usize|
                    w < n ==> #[trigger] indeg@[w as int] + count_of(outgoing@[u as int]@.take(j as int), w)
                        == pending(ns, ns[w as int].inputs@, done),
                q@.no_duplicates(),
                forall|k: int| 0 <= k < q.len() ==> #[trigger] q@[k] < n,
                forall|k: int| 0 <= k < q.len() ==> !topo@.contains(#[trigger] q@[k]),
                forall|w: usize|
                    w < n ==> (#[trigger] q@.contains(w) <==> (!topo@.contains(w) && indeg@[w as int] == 0)),
            decreases outgoing@[u as int].len() - j,
        {
            let w = outgoing[u][j];
            let ghost og = outgoing@[u as int]@;
            proof {
                assert(og.take(j as int + 1).drop_last() =~= og.take(j as int));
                assert(og.take(j as int + 1).last() == w);
                assert(w < n);
                lemma_pending_step(ns, ne, ns[w as int].inputs@, done, u as int);
                lemma_count_prefix_le(og, j as int + 1, w);
                assert(count_of(og, w) == count_in_set(ns[w as int].inputs@, ns[u as int].outputs@));
                assert(indeg@[w as int] >= 1);
                assert(!q@.contains(w));
            }
            let ghost indeg0 = indeg@;
            let d = indeg[w] - 1;
            indeg.set(w, d);
            if d == 0 {
                proof {
                    let cnt = count_in_set(ns[w as int].inputs@, ns[u as int].outputs@);
                    assert(cnt > 0);
                    let s = lemma_count_in_set_witness(ns[w as int].inputs@, ns[u as int].outputs@);
                    let x = ns[w as int].inputs@[s];
                    assert(produces(ns, u as int, x));
                    let p = choose|p: int| #[trigger] produces(ns, p, x);
                    lemma_producer_unique(ns, ne, u as int, p, x);
                    assert(producer_of(ns, x) == Some(u));
                    if w == u {
                        lemma_pending_pos(ns, ns[u as int].inputs@, done, s);
                    }
                    if done.contains(w) {
                        let k = choose|k: int| 0 <= k < done.len() && done[k] == w;
                        assert(topo@[k] == w);
                        assert(topo@.take(k) =~= done.take(k));
                        lemma_pending_zero(ns, ns[w as int].inputs@, done.take(k), s);
                        let m = choose|m: int| 0 <= m < k && done.take(k)[m] == u;
                        assert(done[m] == u);
                    }
                    vstd::seq_lib::lemma_seq_contains_after_push(done, u, w);
                    assert(!topo@.contains(w));
                }
                let ghost q0 = q@;
                q.push(w);
                proof {
                    assert forall|v2: usize|
                        v2 < n implies (#[trigger] q@.contains(v2) <==> (!topo@.contains(v2) && indeg@[v2 as int] == 0)) by {
                        vstd::seq_lib::lemma_seq_contains_after_push(q0, w, v2);
                    }
                }
            }
            j = j + 1;
        }
        proof {
            let og = outgoing@[u as int]@;
            assert(og.take(og.len() as int) =~= og);
            assert forall|w: usize| w < n implies #[trigger] indeg@[w as int] == pending(ns, ns[w as int].inputs@, topo@) by {
                lemma_pending_step(ns, ne, ns[w as int].inputs@, done, u as int);
            }
            let both = q@ + topo@;
            assert(both.no_duplicates()) by {
                assert forall|a: int, b: int|
                    0 <= a < both.len() && 0 <= b < both.len() && a != b implies both[a] != both[b] by {
                    if a < q.len() && b >= q.len() {
                        assert(topo@[b - q.len()] == both[b]);
                        assert(!topo@.contains(q@[a]));
                    }
                    if b < q.len() && a >= q.len() {
                        assert(topo@[a - q.len()] == both[a]);
                        assert(!topo@.contains(q@[b]));
                    }
                }
            }
            assert forall|k: int| 0 <= k < both.len() implies #[trigger] both[k] < n by {
                if k >= q.len() {
                    assert(both[k] == topo@[k - q.len()]);
                }
            }
            lemma_distinct_nodes(both, n as nat);
        }
    }
    proof {
        lemma_distinct_nodes(topo@, n as nat);
        if topo.len() < n {
            let order = choose|order: Seq<NodeId>| is_topo_order(ns, order);
            lemma_distinct_nodes(order, n as nat);
            let k = lemma_first_missing(order, topo@, n as nat);
            let w = order[k];
            if pending(ns, ns[w as int].inputs@, topo@) > 0 {
                let s = lemma_pending_witness(ns, ns[w as int].inputs@, topo@);
                let x = ns[w as int].inputs@[s];
                let p = choose|p: int| #[trigger] produces(ns, p, x);
                assert(producer_of(ns, x) == Some(p as usize));
                assert(order.contains(p as usize));
                let m = choose|m: int| 0 <= m < order.len() && order[m] == p as usize;
                assert(depends(ns, order[m] as int, order[k] as int));
                if m >= k {
                    assert(!depends(ns, order[m] as int, order[k] as int));
                }
                assert(topo@.contains(order[m]));
            }
            assert(indeg@[w as int] == 0);
            assert(q@.contains(w));
        }
        assert forall|i: int, j: int|
            0 <= i <= j < topo.len() implies !depends(ns, #[trigger] topo@[j] as int, #[trigger] topo@[i] as int) by {
            if depends(ns, topo@[j] as int, topo@[i] as int) {
                let s = choose|s: int|
                    0 <= s < ns[topo@[i] as int].inputs.len() && #[trigger] produces(
                        ns,
                        topo@[j] as int,
                        ns[topo@[i] as int].inputs@[s],
                    );
                let x = ns[topo@[i] as int].inputs@[s];
                let p = choose|p: int| #[trigger] produces(ns, p, x);
                lemma_producer_unique(ns, ne, topo@[j] as int, p, x);
                lemma_pending_zero(ns, ns[topo@[i] as int].inputs@, topo@.take(i), s);
                let m = choose|m: int| 0 <= m < i && topo@.take(i)[m] == topo@[j];
                assert(topo@[m] == topo@[j]);
            }
        }
    }
    topo
}

/// `aliases_of` reads only the first `k` entries.
proof fn lemma_aliases_of_prefix(a: Seq<EdgeId>, b: Seq<EdgeId>, k: nat, e: usize)
    requires
        k <= a.len(),
        k <= b.len(),
        a.take(k as int) == b.take(k as int),
    ensures
        aliases_of(a, k, e) == aliases_of(b, k, e),
    decreases k,
{
    if k > 0 {
        assert(a.take(k as int - 1) =~= a.take(k as int).take(k as int - 1));
        assert(b.take(k as int - 1) =~= b.take(k as int).take(k as int - 1));
        assert(a[k - 1] == a.take(k as int)[k - 1]);
        assert(b[k - 1] == b.take(k as int)[k - 1]);
        lemma_aliases_of_prefix(a, b, (k - 1) as nat, e);
    }
}

/// An element of a sequence is counted there.
proof fn lemma_count_of_contains(s: Seq<usize>, x: usize)
    requires
        s.contains(x),
    ensures
        count_of(s, x) > 0,
    decreases s.len(),
{
    if s.last() != x {
        let i = choose|i: int| 0 <= i < s.len() && s[i] == x;
        assert(s.drop_last()[i] == x);
        lemma_count_of_contains(s.drop_last(), x);
    }
}

/// An edge with no readers among the first `k` nodes is read by none of
/// them.
proof fn lemma_no_readers(nodes: Seq<Node>, k: nat, e: usize)
    requires
        k <= nodes.len(),
        consumers_of(nodes, k, e).len() == 0,
    ensures
        forall|i: int| 0 <= i < k ==> !(#[trigger] nodes[i].inputs@).contains(e),
    decreases k,
{
    if k > 0 {
        lemma_no_readers(nodes, (k - 1) as nat, e);
        if nodes[k - 1].inputs@.contains(e) {
            lemma_count_of_contains(nodes[k - 1].inputs@, e);
        }
    }
}

/// The unread edges below `k` are edges below `k` that no node reads, and
/// every such edge is among them.
proof fn lemma_unread_edges_members(nodes: Seq<Node>, k: nat)
    ensures
        forall|j: int|
            0 <= j < unread_edges(nodes, k).len() ==> {
                &&& (#[trigger] unread_edges(nodes, k)[j]) < k
                &&& consumers_of(nodes, nodes.len(), unread_edges(nodes, k)[j]).len() == 0
            },
        forall|e: usize| e < k && consumers_of(nodes, nodes.len(), e).len() == 0 ==> #[trigger] unread_edges(
            nodes,
            k,
        ).contains(e),
    decreases k,
{
    if k > 0 {
        lemma_unread_edges_members(nodes, (k - 1) as nat);
        let prev = unread_edges(nodes, (k - 1) as nat);
        assert forall|e: usize| e < k && consumers_of(nodes, nodes.len(), e).len() == 0 implies #[trigger] unread_edges(
            nodes,
            k,
        ).contains(e) by {
            if e < k - 1 {
                assert(prev.contains(e));
                let i = choose|i: int| 0 <= i < prev.len() && prev[i] == e;
                assert(unread_edges(nodes, k)[i] == e);
            } else {
                assert(unread_edges(nodes, k).last() == e);
            }
        }
    }
}

/// `e` is the first input of a non-negativity check among the first `k`
/// range nodes.
pub open spec fn checks_input(nodes: Seq<Node>, range: Seq<NodeId>, k: int, e: usize) -> bool {
    exists|m: int| 0 <= m < k && #[trigger] nodes[range[m] as int].nonneg && nodes[range[m] as int].inputs@[0] == e
}

/// The checked inputs of the first `k` range nodes are the first inputs of
/// the non-negativity checks among them, and each such input is there.
proof fn lemma_checked_inputs_members(nodes: Seq<Node>, range: Seq<NodeId>, k: nat)
    requires
        k <= range.len(),
    ensures
        forall|j: int|
            0 <= j < checked_inputs(nodes, range, k).len() ==> checks_input(
                nodes,
                range,
                k as int,
                #[trigger] checked_inputs(nodes, range, k)[j],
            ),
        forall|m: int|
            0 <= m < k && (#[trigger] nodes[range[m] as int]).nonneg ==> checked_inputs(nodes, range, k).contains(
                nodes[range[m] as int].inputs@[0],
            ),
    decreases k,
{
    if k > 0 {
        lemma_checked_inputs_members(nodes, range, (k - 1) as nat);
        let prev = checked_inputs(nodes, range, (k - 1) as nat);
        let cur = checked_inputs(nodes, range, k);
        assert forall|j: int| 0 <= j < cur.len() implies checks_input(nodes, range, k as int, #[trigger] cur[j]) by {
            if j < prev.len() {
                assert(cur[j] == prev[j]);
                assert(checks_input(nodes, range, k - 1, prev[j]));
                let m = choose|m: int|
                    0 <= m < k - 1 && #[trigger] nodes[range[m] as int].nonneg && nodes[range[m] as int].inputs@[0]
                        == prev[j];
                assert(nodes[range[m] as int].nonneg);
            } else {
                let m = k - 1;
                assert(nodes[range[m] as int].nonneg);
                assert(nodes[range[m] as int].inputs@[0] == cur[j]);
            }
        }
        assert forall|m: int| 0 <= m < k && (#[trigger] nodes[range[m] as int]).nonneg implies cur.contains(
            nodes[range[m] as int].inputs@[0],
        ) by {
            if m < k - 1 {
                let x = nodes[range[m] as int].inputs@[0];
                assert(prev.contains(x));
                let i = choose|i: int| 0 <= i < prev.len() && prev[i] == x;
                assert(cur[i] == x);
            } else {
                assert(cur.last() == nodes[range[m] as int].inputs@[0]);
            }
        }
    }
}

/// The output ports of a compiled graph: every port is either an edge that
/// no node reads or the first input of a range node that is a
/// non-negativity check; every unread edge and the first input of every
/// non-negativity check among the range nodes is a port.  A range node
/// that is not a non-negativity check (a rescaling or an exponential)
/// adds no port.
pub proof fn lemma_output_ports(nodes: Seq<Node>, range: Seq<NodeId>, num_edges: nat)
    ensures
        ({
            let ports = unread_edges(nodes, num_edges) + checked_inputs(nodes, range, range.len());
            &&& forall|j: int|
                0 <= j < ports.len() ==> {
                    ||| (ports[j] < num_edges && forall|i: int|
                        0 <= i < nodes.len() ==> !(#[trigger] nodes[i].inputs@).contains(ports[j]))
                    ||| checks_input(nodes, range, range.len() as int, ports[j])
                }
            &&& forall|e: usize|
                e < num_edges && (forall|i: int| 0 <= i < nodes.len() ==> !(#[trigger] nodes[i].inputs@).contains(e))
                    ==> #[trigger] ports.contains(e)
            &&& forall|m: int|
                0 <= m < range.len() && (#[trigger] nodes[range[m] as int]).nonneg ==> ports.contains(
                    nodes[range[m] as int].inputs@[0],
                )
        }),
{
    let u = unread_edges(nodes, num_edges);
    let c = checked_inputs(nodes, range, range.len());
    let ports = u + c;
    lemma_unread_edges_members(nodes, num_edges);
    lemma_checked_inputs_members(nodes, range, range.len());
    assert forall|j: int| 0 <= j < ports.len() implies {
        ||| (ports[j] < num_edges && forall|i: int|
            0 <= i < nodes.len() ==> !(#[trigger] nodes[i].inputs@).contains(ports[j]))
        ||| checks_input(nodes, range, range.len() as int, ports[j])
    } by {
        if j < u.len() {
            assert(ports[j] == u[j]);
            lemma_no_readers(nodes, nodes.len(), u[j]);
        } else {
            assert(ports[j] == c[j - u.len()]);
        }
    }
    assert forall|e: usize|
        e < num_edges && (forall|i: int| 0 <= i < nodes.len() ==> !(#[trigger] nodes[i].inputs@).contains(e)) implies #[trigger] ports.contains(
        e,
    ) by {
        lemma_readers_counted(nodes, nodes.len(), e);
        assert(u.contains(e));
        let i = choose|i: int| 0 <= i < u.len() && u[i] == e;
        assert(ports[i] == e);
    }
    assert forall|m: int| 0 <= m < range.len() && (#[trigger] nodes[range[m] as int]).nonneg implies ports.contains(
        nodes[range[m] as int].inputs@[0],
    ) by {
        let x = nodes[range[m] as int].inputs@[0];
        assert(c.contains(x));
        let i = choose|i: int| 0 <= i < c.len() && c[i] == x;
        assert(ports[u.len() + i] == x);
    }
}

/// The input ports of a compiled graph are exactly the edges that no node
/// writes and whose role is `Input`, in increasing order.
pub proof fn lemma_input_ports(nodes: Seq<Node>, roles: Seq<Role>, k: nat)
    requires
        k <= roles.len(),
        k <= usize::MAX,
    ensures
        forall|j: int|
            0 <= j < input_ports_of(nodes, roles, k).len() ==> {
                let e = #[trigger] input_ports_of(nodes, roles, k)[j];
                &&& e < k
                &&& roles[e as int] == Role::Input
                &&& forall|u: int| 0 <= u < nodes.len() ==> !(#[trigger] nodes[u].outputs@).contains(e)
            },
        forall|e: usize|
            e < k && roles[e as int] == Role::Input && (forall|u: int|
                0 <= u < nodes.len() ==> !(#[trigger] nodes[u].outputs@).contains(e)) ==> #[trigger] input_ports_of(
                nodes,
                roles,
                k,
            ).contains(e),
        forall|a: int, b: int|
            0 <= a < b < input_ports_of(nodes, roles, k).len() ==> input_ports_of(nodes, roles, k)[a]
                < input_ports_of(nodes, roles, k)[b],
    decreases k,
{
    if k > 0 {
        lemma_input_ports(nodes, roles, (k - 1) as nat);
        let prev = input_ports_of(nodes, roles, (k - 1) as nat);
        let cur = input_ports_of(nodes, roles, k);
        let e = (k - 1) as usize;
        assert forall|j: int| 0 <= j < cur.len() implies {
            let x = #[trigger] cur[j];
            &&& x < k
            &&& roles[x as int] == Role::Input
            &&& forall|u: int| 0 <= u < nodes.len() ==> !(#[trigger] nodes[u].outputs@).contains(x)
        } by {
            if j < prev.len() {
                assert(cur[j] == prev[j]);
            } else {
                assert(cur[j] == e);
                assert(!produced(nodes, e));
                assert forall|u: int| 0 <= u < nodes.len() implies !(#[trigger] nodes[u].outputs@).contains(e) by {
                    if nodes[u].outputs@.contains(e) {
                        assert(produces(nodes, u, e));
                    }
                }
            }
        }
        assert forall|x: usize|
            x < k && roles[x as int] == Role::Input && (forall|u: int|
                0 <= u < nodes.len() ==> !(#[trigger] nodes[u].outputs@).contains(x)) implies #[trigger] cur.contains(
            x,
        ) by {
            if x < k - 1 {
                assert(prev.contains(x));
                let i = choose|i: int| 0 <= i < prev.len() && prev[i] == x;
                assert(cur[i] == x);
            } else {
                assert(!produced(nodes, e)) by {
                    if produced(nodes, e) {
                        let u = choose|u: int| #[trigger] produces(nodes, u, e);
                        assert(nodes[u].outputs@.contains(e));
                    }
                }
                assert(cur.last() == x);
            }
        }
        assert forall|a: int, b: int| 0 <= a < b < cur.len() implies cur[a] < cur[b] by {
            if b < prev.len() {
                assert(cur[a] == prev[a] && cur[b] == prev[b]);
            } else {
                assert(cur[a] == prev[a]);
                assert(prev[a] < k - 1);
                assert(cur[b] == e);
            }
        }
    }
}

/// An edge that none of the first `k` nodes reads has no readers among
/// them.
proof fn lemma_readers_counted(nodes: Seq<Node>, k: nat, e: usize)
    requires
        k <= nodes.len(),
        forall|i: int| 0 <= i < k ==> !(#[trigger] nodes[i].inputs@).contains(e),
    ensures
        consumers_of(nodes, k, e).len() == 0,
    decreases k,
{
    if k > 0 {
        lemma_readers_counted(nodes, (k - 1) as nat, e);
        lemma_count_of_absent(nodes[k - 1].inputs@, e);
    }
}

/// An absent element is counted zero times.
proof fn lemma_count_of_absent(s: Seq<usize>, x: usize)
    requires
        !s.contains(x),
    ensures
        count_of(s, x) == 0,
    decreases s.len(),
{
    if s.len() > 0 {
        assert(!s.drop_last().contains(x)) by {
            if s.drop_last().contains(x) {
                let i = choose|i: int| 0 <= i < s.drop_last().len() && s.drop_last()[i] == x;
                assert(s[i] == x);
            }
        }
        lemma_count_of_absent(s.drop_last(), x);
        assert(s[s.len() - 1] != x);
    }
}

impl DagBuilder {
    /// An empty graph.
    pub fn new() -> (b: DagBuilder)
        ensures
            b.nodes@ == Seq::<Node>::empty(),
            b.num_edges == 0,
            b.edge_roles@ == Seq::<Role>::empty(),
            b.range@ == Seq::<NodeId>::empty(),
            b.two_pow@ == Seq::<NodeId>::empty(),
    {
        DagBuilder {
            nodes: Vec::new(),
            num_edges: 0,
            edge_roles: Vec::new(),
            range: Vec::new(),
            two_pow: Vec::new(),
        }
    }

    /// Compiles the graph: the readers and the writer of each edge, the
    /// input edges (written by no node, with an input value), the output
    /// edges (read by no node, then the inputs of the non-negativity
    /// checks), a topological order of the nodes, and one alias per input
    /// slot. The graph must have a topological order.
    pub fn compile(self) -> (dag: Dag)
        requires
            builder_ok(self),
        ensures
            dag.wf(),
            dag.nodes@ == self.nodes@,
            dag.num_edges == self.num_edges,
            dag.range@ == self.range@,
            dag.two_pow@ == self.two_pow@,
            dag.input_ports@ == input_ports_of(self.nodes@, self.edge_roles@, self.num_edges as nat),
            dag.output_ports@ == unread_edges(self.nodes@, self.num_edges as nat) + checked_inputs(
                self.nodes@,
                self.range@,
                self.range.len() as nat,
            ),
            forall|j: int|
                0 <= j < dag.output_ports.len() ==> {
                    ||| (dag.output_ports@[j] < self.num_edges && forall|i: int|
                        0 <= i < self.nodes.len() ==> !(#[trigger] self.nodes@[i].inputs@).contains(
                            dag.output_ports@[j],
                        ))
                    ||| checks_input(self.nodes@, self.range@, self.range.len() as int, dag.output_ports@[j])
                },
            forall|j: int|
                0 <= j < dag.input_ports.len() ==> {
                    let e = #[trigger] dag.input_ports@[j];
                    &&& e < self.num_edges
                    &&& self.edge_roles@[e as int] == Role::Input
                    &&& forall|u: int| 0 <= u < self.nodes.len() ==> !(#[trigger] self.nodes@[u].outputs@).contains(e)
                },
    {
        let ghost b = self;
        proof {
            lemma_output_ports(b.nodes@, b.range@, b.num_edges as nat);
            lemma_input_ports(b.nodes@, b.edge_roles@, b.num_edges as nat);
        }
        let DagBuilder { nodes, num_edges, edge_roles, range, two_pow } = self;
        let ghost ns = nodes@;
        let n = nodes.len();
        let consumers = build_consumers(&nodes, num_edges);
        let producers = build_producers(&nodes, num_edges);
        let mut input_ports: Vec<EdgeId> = Vec::new();
        let mut e: usize = 0;
        while e < num_edges
            invariant
                e <= num_edges,
                edge_roles.len() == num_edges,
                producers.len() == num_edges,
                forall|x: int| 0 <= x < num_edges ==> #[trigger] producers@[x] == producer_of(ns, x as usize),
                input_ports@ == input_ports_of(ns, edge_roles@, e as nat),
            decreases num_edges - e,
        {
            if producers[e].is_none() && edge_roles[e] == Role::Input {
                input_ports.push(e);
            }
            e = e + 1;
        }
        let mut output_ports: Vec<EdgeId> = Vec::new();
        let mut e: usize = 0;
        while e < num_edges
            invariant
                e <= num_edges,
                n == ns.len(),
                consumers.len() == num_edges,
                forall|x: int| 0 <= x < num_edges ==> (#[trigger] consumers@[x])@ == consumers_of(ns, n as nat, x as usize),
                output_ports@ == unread_edges(ns, e as nat),
            decreases num_edges - e,
        {
            if consumers[e].len() == 0 {
                output_ports.push(e);
            }
            e = e + 1;
        }
        let ghost unread = output_ports@;
        let mut r: usize = 0;
        while r < range.len()
            invariant
                r <= range.len(),
                ns == nodes@,
                forall|k: int|
                    0 <= k < range.len() ==> {
                        &&& #[trigger] range@[k] < nodes.len()
                        &&& ns[range@[k] as int].nonneg ==> ns[range@[k] as int].inputs.len() > 0
                    },
                output_ports@ == unread + checked_inputs(ns, range@, r as nat),
            decreases range.len() - r,
        {
            let id = range[r];
            assert(range@[r as int] < nodes.len());
            if nodes[id].nonneg {
                output_ports.push(nodes[id].inputs[0]);
                proof {
                    assert(unread + checked_inputs(ns, range@, r as nat + 1) =~= (unread
                        + checked_inputs(ns, range@, r as nat)).push(ns[id as int].inputs@[0]));
                }
            }
            r = r + 1;
        }
        let topo = topological_sort(&nodes, num_edges, &consumers, &producers);
        let mut alias_to_edge: Vec<EdgeId> = Vec::new();
        let mut alias_to_consumer: Vec<NodeId> = Vec::new();
        let mut alias_input_slot: Vec<usize> = Vec::new();
        let mut edge_aliases: Vec<Vec<AliasId>> = Vec::new();
        let mut e: usize = 0;
        while e < num_edges
            invariant
                e <= num_edges,
                edge_aliases.len() == e,
                forall|x: int| 0 <= x < e ==> (#[trigger] edge_aliases@[x])@ == Seq::<AliasId>::empty(),
            decreases num_edges - e,
        {
            edge_aliases.push(Vec::new());
            e = e + 1;
        }
        let mut i: usize = 0;
        while i < n
            invariant
                i <= n,
                n == nodes.len(),
                ns == nodes@,
                nodes_wf(ns, num_edges as nat),
                alias_to_edge@ == alias_edges(ns, i as nat),
                alias_to_consumer@ == alias_consumers(ns, i as nat),
                alias_input_slot@ == alias_slots(ns, i as nat),
                edge_aliases.len() == num_edges,
                forall|x: int|
                    0 <= x < num_edges ==> (#[trigger] edge_aliases@[x])@ == aliases_of(
                        alias_to_edge@,
                        alias_to_edge@.len(),
                        x as usize,
                    ),
            decreases n - i,
        {
            let ghost e0 = alias_to_edge@;
            let ghost c0 = alias_to_consumer@;
            let ghost s0 = alias_input_slot@;
            let ghost ins = ns[i as int].inputs@;
            let mut slot: usize = 0;
            while slot < nodes[i].inputs.len()
                invariant
                    i < n,
                    n == nodes.len(),
                    ns == nodes@,
                    nodes_wf(ns, num_edges as nat),
                    ins == ns[i as int].inputs@,
                    slot <= ins.len(),
                    alias_to_edge@ == e0 + ins.take(slot as int),
                    alias_to_consumer@ == c0 + Seq::new(slot as nat, |_x: int| i as usize),
                    alias_input_slot@ == s0 + Seq::new(slot as nat, |x: int| x as usize),
                    edge_aliases.len() == num_edges,
                    forall|x: int|
                        0 <= x < num_edges ==> (#[trigger] edge_aliases@[x])@ == aliases_of(
                            alias_to_edge@,
                            alias_to_edge@.len(),
                            x as usize,
                        ),
                decreases ins.len() - slot,
            {
                let x = nodes[i].inputs[slot];
                assert(x < num_edges);
                let aid = AliasId(alias_to_edge.len());
                let ghost flat0 = alias_to_edge@;
                let ghost before = edge_aliases@;
                alias_to_edge.push(x);
                alias_to_consumer.push(i);
                alias_input_slot.push(slot);
                edge_aliases[x].push(aid);
                proof {
                    assert(e0 + ins.take(slot as int + 1) =~= (e0 + ins.take(slot as int)).push(x));
                    assert(c0 + Seq::new(slot as nat + 1, |_x: int| i as usize) =~= (c0 + Seq::new(
                        slot as nat,
                        |_x: int| i as usize,
                    )).push(i));
                    assert(s0 + Seq::new(slot as nat + 1, |x: int| x as usize) =~= (s0 + Seq::new(
                        slot as nat,
                        |x: int| x as usize,
                    )).push(slot));
                    let flat = alias_to_edge@;
                    assert(flat.take(flat0.len() as int) =~= flat0.take(flat0.len() as int));
                    assert forall|y: int| 0 <= y < num_edges implies (#[trigger] edge_aliases@[y])@
                        == aliases_of(flat, flat.len(), y as usize) by {
                        lemma_aliases_of_prefix(flat, flat0, flat0.len(), y as usize);
                        if y != x {
                            assert(edge_aliases@[y] == before[y]);
                        }
                    }
                }
                slot = slot + 1;
            }
            proof {
                assert(ins.take(ins.len() as int) =~= ins);
            }
            i = i + 1;
        }
        Dag {
            nodes,
            num_edges,
            topo,
            range,
            two_pow,
            consumers,
            producers,
            input_ports,
            output_ports,
            edge_aliases,
            alias_to_edge,
            alias_to_consumer,
            alias_input_slot,
        }
    }
}

} // verus!
