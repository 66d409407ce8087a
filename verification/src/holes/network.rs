//! Minimum cuts of flow networks.
use vstd::prelude::*;
use petgraph::graph::{DiGraph, NodeIndex};

verus! {

/// A graph of the `petgraph` crate, taken as a whole.
#[verifier::external_type_specification]
#[verifier::external_body]
#[verifier::reject_recursive_types(N)]
#[verifier::reject_recursive_types(E)]
#[verifier::reject_recursive_types(Ty)]
#[verifier::reject_recursive_types(Ix)]
pub struct ExGraph<N, E, Ty, Ix>(petgraph::graph::Graph<N, E, Ty, Ix>);

/// The marker of a directed graph.
#[verifier::external_type_specification]
#[verifier::external_body]
pub struct ExDirected(petgraph::Directed);

/// An edge: where it begins, where it ends, and its capacity.
pub type Arc = (usize, usize, u32);

/// The number of nodes of a network.
pub uninterp spec fn node_total(g: DiGraph<(), u32>) -> nat;

/// The edges of a network, by their indices.
pub uninterp spec fn arcs_of(g: DiGraph<(), u32>) -> Seq<(usize, usize, u32)>;

/// The edges lie between nodes.
pub open spec fn network_ok(g: DiGraph<(), u32>) -> bool {
    &&& node_total(g) <= u32::MAX
    &&& arcs_of(g).len() <= u32::MAX
    &&& forall|e: int|
        0 <= e < arcs_of(g).len() ==> (#[trigger] arcs_of(g)[e]).0 < node_total(g) && arcs_of(
            g,
        )[e].1 < node_total(g)
}

/// [`DiGraph::new`]: a network without nodes.
#[verifier::external_body]
pub(crate) fn new_network() -> (g: DiGraph<(), u32>)
    ensures
        node_total(g) == 0,
        arcs_of(g).len() == 0,
{
    DiGraph::new()
}

/// [`DiGraph::add_node`]: one more node, with the next index.  The indices are 32
/// bits wide, and the last one is none.
#[verifier::external_body]
pub(crate) fn add_node(g: &mut DiGraph<(), u32>) -> (v: usize)
    requires
        node_total(*old(g)) < u32::MAX,
    ensures
        v == node_total(*old(g)),
        node_total(*final(g)) == node_total(*old(g)) + 1,
        arcs_of(*final(g)) == arcs_of(*old(g)),
{
    g.add_node(()).index()
}

/// [`DiGraph::add_edge`]: one more edge, with the next index.
#[verifier::external_body]
pub(crate) fn add_edge(g: &mut DiGraph<(), u32>, a: usize, b: usize, capacity: u32) -> (e: usize)
    requires
        a < node_total(*old(g)) <= u32::MAX,
        b < node_total(*old(g)),
        arcs_of(*old(g)).len() < u32::MAX,
    ensures
        e == arcs_of(*old(g)).len(),
        node_total(*final(g)) == node_total(*old(g)),
        arcs_of(*final(g)) == arcs_of(*old(g)).push((a, b, capacity)),
{
    g.add_edge(NodeIndex::new(a), NodeIndex::new(b), capacity).index()
}

/// [`DiGraph::node_count`]: the number of nodes.
#[verifier::external_body]
pub(crate) fn node_count(g: &DiGraph<(), u32>) -> (n: usize)
    ensures
        n == node_total(*g),
{
    g.node_count()
}

/// [`DiGraph::edge_count`]: the number of edges.
#[verifier::external_body]
pub(crate) fn edge_count(g: &DiGraph<(), u32>) -> (n: usize)
    ensures
        n == arcs_of(*g).len(),
{
    g.edge_count()
}

/// [`DiGraph::raw_edges`]: the edges, in the order in which they were added.
#[verifier::external_body]
pub(crate) fn edges(g: &DiGraph<(), u32>) -> (es: Vec<Arc>)
    ensures
        es@ == arcs_of(*g),
{
    g.raw_edges().iter().map(|e| (e.source().index(), e.target().index(), e.weight)).collect()
}

/// What leaves node `s` over the first `k` edges at most.
pub open spec fn outgoing(arcs: Seq<Arc>, s: usize, k: nat) -> nat
    decreases k,
{
    if k == 0 || k > arcs.len() {
        0
    } else {
        outgoing(arcs, s, (k - 1) as nat) + if arcs[k - 1].0 == s {
            arcs[k - 1].2 as nat
        } else {
            0
        }
    }
}

/// Nodes out of which nothing more can flow: an edge that leaves them is full, and
/// one that enters them is empty.
pub open spec fn stopped(
    arcs: Seq<Arc>,
    flows: Seq<u32>,
    r: spec_fn(usize) -> bool,
    s: usize,
    t: usize,
) -> bool {
    &&& r(s)
    &&& !r(t)
    &&& forall|e: int|
        0 <= e < arcs.len() ==> {
            &&& r((#[trigger] arcs[e]).0) && flows[e] < arcs[e].2 ==> r(arcs[e].1)
            &&& r(arcs[e].1) && flows[e] > 0 ==> r(arcs[e].0)
        }
}

/// What an edge takes out of the nodes `r`, or into them.
pub open spec fn share(flow: u32, r: spec_fn(usize) -> bool, a: Arc) -> int {
    if r(a.0) && !r(a.1) {
        flow as int
    } else if !r(a.0) && r(a.1) {
        -(flow as int)
    } else {
        0
    }
}

/// What flows out of the nodes `r` over the first `k` edges, less what flows in.
pub open spec fn net(arcs: Seq<Arc>, flows: Seq<u32>, r: spec_fn(usize) -> bool, k: nat) -> int
    decreases k,
{
    if k == 0 || k > arcs.len() {
        0
    } else {
        net(arcs, flows, r, (k - 1) as nat) + share(flows[k - 1], r, arcs[k - 1])
    }
}

/// One node.
pub open spec fn only(v: usize) -> spec_fn(usize) -> bool {
    |u: usize| u == v
}

/// The flow keeps to the capacities, loses nothing at the nodes in between, and cannot
/// be made larger: some nodes with `s` and without `t` let nothing more out.
pub open spec fn is_maximum(arcs: Seq<Arc>, flows: Seq<u32>, s: usize, t: usize) -> bool {
    &&& flows.len() == arcs.len()
    &&& forall|e: int| 0 <= e < flows.len() ==> #[trigger] flows[e] <= arcs[e].2
    &&& forall|v: usize|
        v != s && v != t ==> net(arcs, flows, #[trigger] only(v), arcs.len()) == 0
    &&& exists|r: spec_fn(usize) -> bool| #[trigger] stopped(arcs, flows, r, s, t)
}

/// [`petgraph::algo::dinics`]: a maximum flow from `s` to `t`, by edge.  What flows
/// into another node flows out of it.  It adds up in 32 bits what leaves `s`.  Which of
/// several maximum flows it finds is not claimed: that depends on the order in which the
/// graph lists the edges of a node.
#[verifier::external_body]
pub(crate) fn max_flow(g: &DiGraph<(), u32>, s: usize, t: usize) -> (flows: Vec<u32>)
    requires
        network_ok(*g),
        s < node_total(*g),
        t < node_total(*g),
        s != t,
        outgoing(arcs_of(*g), s, arcs_of(*g).len()) <= u32::MAX,
    ensures
        is_maximum(arcs_of(*g), flows@, s, t),
{
    petgraph::algo::dinics(g, NodeIndex::new(s), NodeIndex::new(t)).1
}

/// More can flow from `u` to `v` along edge `e`, one way or the other.
pub open spec fn residual(arcs: Seq<Arc>, flows: Seq<u32>, e: int, u: usize, v: usize) -> bool {
    &&& 0 <= e < arcs.len()
    &&& (arcs[e].0 == u && arcs[e].1 == v && flows[e] < arcs[e].2) || (arcs[e].1 == u
        && arcs[e].0 == v && flows[e] > 0)
}

/// A path along which more can flow from `s` to `v`.
pub open spec fn augments(
    arcs: Seq<Arc>,
    flows: Seq<u32>,
    path: Seq<usize>,
    s: usize,
    v: usize,
) -> bool {
    &&& path.len() >= 1
    &&& path[0] == s
    &&& path.last() == v
    &&& forall|i: int|
        0 <= i < path.len() - 1 ==> #[trigger] flows_on(arcs, flows, path[i], path[i + 1])
}

/// More can flow from `u` to `v` along some edge.
pub open spec fn flows_on(arcs: Seq<Arc>, flows: Seq<u32>, u: usize, v: usize) -> bool {
    exists|e: int| #[trigger] residual(arcs, flows, e, u, v)
}

/// More can flow from `s` to `v`.
pub open spec fn reaches(arcs: Seq<Arc>, flows: Seq<u32>, s: usize, v: usize) -> bool {
    exists|path: Seq<usize>| #[trigger] augments(arcs, flows, path, s, v)
}

proof fn lemma_reaches_next(
    arcs: Seq<Arc>,
    flows: Seq<u32>,
    s: usize,
    u: usize,
    v: usize,
    e: int,
)
    requires
        reaches(arcs, flows, s, u),
        residual(arcs, flows, e, u, v),
    ensures
        reaches(arcs, flows, s, v),
{
    let path = choose|path: Seq<usize>| #[trigger] augments(arcs, flows, path, s, u);
    let more = path.push(v);
    assert forall|i: int| 0 <= i < more.len() - 1 implies #[trigger] flows_on(
        arcs,
        flows,
        more[i],
        more[i + 1],
    ) by {
        if i < path.len() - 1 {
            assert(flows_on(arcs, flows, path[i], path[i + 1]));
        } else {
            assert(residual(arcs, flows, e, more[i], more[i + 1]));
        }
    }
    assert(augments(arcs, flows, more, s, v));
}

/// What can be reached stays within a set that nothing more can flow out of.
proof fn lemma_reaches_closed(
    arcs: Seq<Arc>,
    flows: Seq<u32>,
    r: spec_fn(usize) -> bool,
    path: Seq<usize>,
    s: usize,
    v: usize,
)
    requires
        r(s),
        forall|e: int, a: usize, b: usize| #[trigger]
            residual(arcs, flows, e, a, b) && r(a) ==> r(b),
        augments(arcs, flows, path, s, v),
    ensures
        r(v),
    decreases path.len(),
{
    if path.len() > 1 {
        let k = path.len() - 2;
        let p0 = path.drop_last();
        assert(flows_on(arcs, flows, path[k], path[k + 1]));
        assert forall|i: int| 0 <= i < p0.len() - 1 implies #[trigger] flows_on(
            arcs,
            flows,
            p0[i],
            p0[i + 1],
        ) by {
            assert(flows_on(arcs, flows, path[i], path[i + 1]));
        }
        lemma_reaches_closed(arcs, flows, r, p0, s, path[k]);
        let e = choose|e: int| #[trigger] residual(arcs, flows, e, path[k], path[k + 1]);
        assert(residual(arcs, flows, e, path[k], v));
    }
}

/// The nodes that more can flow to from `s`.
pub fn residual_reach(nodes: usize, arcs: &Vec<Arc>, flows: &Vec<u32>, s: usize) -> (seen: Vec<
    bool,
>)
    requires
        s < nodes,
        flows@.len() == arcs@.len(),
        forall|e: int|
            0 <= e < arcs@.len() ==> (#[trigger] arcs@[e]).0 < nodes && arcs@[e].1 < nodes,
    ensures
        seen@.len() == nodes,
        forall|v: usize| v < nodes ==> (#[trigger] seen@[v as int] <==> reaches(arcs@, flows@, s, v)),
{
    let mut seen: Vec<bool> = Vec::new();
    let mut i: usize = 0;
    while i < nodes
        invariant
            i <= nodes,
            seen@.len() == i,
            forall|v: int| 0 <= v < i ==> !(#[trigger] seen@[v]),
        decreases nodes - i,
    {
        seen.push(false);
        i = i + 1;
    }
    seen.set(s, true);
    let mut queue: Vec<usize> = Vec::new();
    queue.push(s);
    let mut done: usize = 0;
    proof {
        assert(augments(arcs@, flows@, seq![s], s, s));
    }
    while done < queue.len()
        invariant
            s < nodes,
            flows@.len() == arcs@.len(),
            forall|e: int|
                0 <= e < arcs@.len() ==> (#[trigger] arcs@[e]).0 < nodes && arcs@[e].1 < nodes,
            seen@.len() == nodes,
            seen@[s as int],
            done <= queue@.len(),
            forall|j: int| 0 <= j < queue@.len() ==> (#[trigger] queue@[j]) < nodes,
            forall|v: usize|
                v < nodes && #[trigger] seen@[v as int] ==> reaches(arcs@, flows@, s, v)
                    && queue@.contains(v),
            forall|j: int|
                0 <= j < queue@.len() ==> seen@[#[trigger] queue@[j] as int],
            forall|j: int, e: int, v: usize|
                0 <= j < done && #[trigger] residual(arcs@, flows@, e, queue@[j], v)
                    ==> seen@[v as int],
            forall|j: int, k: int|
                #![trigger queue@[j], queue@[k]]
                0 <= j < k < queue@.len() ==> queue@[j] != queue@[k],
        decreases nodes - done,
    {
        let u = queue[done];
        proof {
            lemma_distinct_bound(queue@, nodes as nat);
        }
        let mut e: usize = 0;
        let ghost q0 = queue@;
        while e < arcs.len()
            invariant
                s < nodes,
                flows@.len() == arcs@.len(),
                forall|e: int|
                    0 <= e < arcs@.len() ==> (#[trigger] arcs@[e]).0 < nodes && arcs@[e].1 < nodes,
                seen@.len() == nodes,
                seen@[s as int],
                e <= arcs@.len(),
                done < q0.len() <= queue@.len(),
                done < nodes,
                u == q0[done as int],
                u < nodes,
                reaches(arcs@, flows@, s, u),
                forall|j: int| 0 <= j < q0.len() ==> #[trigger] queue@[j] == q0[j],
                forall|j: int| 0 <= j < queue@.len() ==> (#[trigger] queue@[j]) < nodes,
                forall|v: usize|
                    v < nodes && #[trigger] seen@[v as int] ==> reaches(arcs@, flows@, s, v)
                        && queue@.contains(v),
                forall|j: int|
                    0 <= j < queue@.len() ==> seen@[#[trigger] queue@[j] as int],
                forall|j: int, d: int, v: usize|
                    0 <= j < done && #[trigger] residual(arcs@, flows@, d, q0[j], v)
                        ==> seen@[v as int],
                forall|d: int, v: usize|
                    d < e && #[trigger] residual(arcs@, flows@, d, u, v) ==> seen@[v as int],
                forall|j: int, k: int|
                    #![trigger queue@[j], queue@[k]]
                    0 <= j < k < queue@.len() ==> queue@[j] != queue@[k],
            decreases arcs.len() - e,
        {
            let (a, b, capacity) = arcs[e];
            assert(arcs@[e as int].0 < nodes);
            if a == u && flows[e] < capacity {
                proof {
                    assert(residual(arcs@, flows@, e as int, u, b));
                    lemma_reaches_next(arcs@, flows@, s, u, b, e as int);
                }
                mark(&mut seen, &mut queue, b);
            }
            if b == u && flows[e] > 0 {
                proof {
                    assert(residual(arcs@, flows@, e as int, u, a));
                    lemma_reaches_next(arcs@, flows@, s, u, a, e as int);
                }
                mark(&mut seen, &mut queue, a);
            }
            e = e + 1;
        }
        done = done + 1;
    }
    proof {
        let r = |v: usize| v < nodes && seen@[v as int];
        assert forall|e: int, a: usize, b: usize| #[trigger]
            residual(arcs@, flows@, e, a, b) && r(a) implies r(b) by {
            assert(queue@.contains(a));
            let j = choose|j: int| 0 <= j < queue@.len() && queue@[j] == a;
            assert(residual(arcs@, flows@, e, queue@[j], b));
            assert(arcs@[e].0 < nodes);
        }
        assert forall|v: usize| v < nodes && reaches(arcs@, flows@, s, v) implies
            #[trigger] seen@[v as int] by {
            let path = choose|path: Seq<usize>| #[trigger] augments(arcs@, flows@, path, s, v);
            lemma_reaches_closed(arcs@, flows@, r, path, s, v);
        }
    }
    seen
}

/// Marks a node, and puts it in the queue if it was not marked.
fn mark(seen: &mut Vec<bool>, queue: &mut Vec<usize>, v: usize)
    requires
        v < old(seen)@.len(),
        forall|j: int| 0 <= j < old(queue)@.len() ==> old(seen)@[#[trigger] old(queue)@[j] as int],
        forall|j: int| 0 <= j < old(queue)@.len() ==> #[trigger] old(queue)@[j] < old(seen)@.len(),
        forall|j: int, k: int|
            #![trigger old(queue)@[j], old(queue)@[k]]
            0 <= j < k < old(queue)@.len() ==> old(queue)@[j] != old(queue)@[k],
        forall|u: usize|
            u < old(seen)@.len() && #[trigger] old(seen)@[u as int] ==> old(queue)@.contains(u),
    ensures
        final(seen)@.len() == old(seen)@.len(),
        forall|u: usize|
            u < old(seen)@.len() ==> (#[trigger] final(seen)@[u as int] <==> old(seen)@[u as int]
                || u == v),
        final(queue)@.len() >= old(queue)@.len(),
        forall|j: int|
            0 <= j < old(queue)@.len() ==> #[trigger] final(queue)@[j] == old(queue)@[j],
        forall|j: int| 0 <= j < final(queue)@.len() ==> #[trigger] final(queue)@[j] < old(seen)@.len(),
        forall|j: int| 0 <= j < final(queue)@.len() ==> final(seen)@[#[trigger] final(queue)@[j] as int],
        forall|j: int, k: int|
            #![trigger final(queue)@[j], final(queue)@[k]]
            0 <= j < k < final(queue)@.len() ==> final(queue)@[j] != final(queue)@[k],
        forall|u: usize|
            u < old(seen)@.len() && #[trigger] final(seen)@[u as int] ==> final(queue)@.contains(u),
{
    let ghost s0 = seen@;
    let ghost q0 = queue@;
    if !seen[v] {
        seen.set(v, true);
        queue.push(v);
        proof {
            assert forall|u: usize| u < s0.len() && #[trigger] seen@[u as int] implies queue@.contains(
                u,
            ) by {
                if u == v {
                    assert(queue@[q0.len() as int] == v);
                } else {
                    assert(s0[u as int]);
                    let j = choose|j: int| 0 <= j < q0.len() && q0[j] == u;
                    assert(queue@[j] == u);
                }
            }
            assert forall|j: int, k: int|
                #![trigger queue@[j], queue@[k]]
                0 <= j < k < queue@.len() implies queue@[j] != queue@[k] by {
                if k == q0.len() {
                    assert(s0[q0[j] as int]);
                }
            }
        }
    }
}

/// Different numbers below a bound are no more than the bound.
proof fn lemma_distinct_bound(v: Seq<usize>, n: nat)
    requires
        forall|j: int| 0 <= j < v.len() ==> #[trigger] v[j] < n,
        forall|j: int, k: int| #![trigger v[j], v[k]] 0 <= j < k < v.len() ==> v[j] != v[k],
    ensures
        v.len() <= n,
{
    let s = v.map_values(|x: usize| x as int);
    assert(s.no_duplicates()) by {
        assert forall|j: int, k: int| 0 <= j < s.len() && 0 <= k < s.len() && j != k implies s[j]
            != s[k] by {
            if j < k {
                assert(v[j] != v[k]);
            } else {
                assert(v[k] != v[j]);
            }
        }
    }
    s.unique_seq_to_set();
    let all = vstd::set_lib::set_int_range(0, n as int);
    vstd::set_lib::lemma_int_range(0, n as int);
    assert(s.to_set().subset_of(all)) by {
        assert forall|x: int| s.to_set().contains(x) implies all.contains(x) by {
            let j = choose|j: int| 0 <= j < s.len() && s[j] == x;
            assert(v[j] < n);
        }
    }
    vstd::set_lib::lemma_len_subset(s.to_set(), all);
}

/// The nodes on the side of `s` of a minimum cut between `s` and `t`: those that
/// more can flow to from `s`, under a maximum flow.  They hold `s` and not `t`.
/// An edge that leaves them is full.
pub fn min_cut_side(g: &DiGraph<(), u32>, s: usize, t: usize) -> (side: Vec<bool>)
    requires
        network_ok(*g),
        s < node_total(*g),
        t < node_total(*g),
        s != t,
        outgoing(arcs_of(*g), s, arcs_of(*g).len()) <= u32::MAX,
    ensures
        side@.len() == node_total(*g),
        side@[s as int],
        !side@[t as int],
        exists|flows: Seq<u32>| #[trigger]
            is_maximum(arcs_of(*g), flows, s, t) && forall|v: usize|
                v < node_total(*g) ==> (#[trigger] side@[v as int] <==> reaches(
                    arcs_of(*g),
                    flows,
                    s,
                    v,
                )),
{
    let flows = max_flow(g, s, t);
    let arcs = edges(g);
    let nodes = node_count(g);
    let side = residual_reach(nodes, &arcs, &flows, s);
    proof {
        assert(augments(arcs@, flows@, seq![s], s, s));
        let r = choose|r: spec_fn(usize) -> bool| #[trigger] stopped(arcs@, flows@, r, s, t);
        if side@[t as int] {
            let path = choose|path: Seq<usize>| #[trigger] augments(arcs@, flows@, path, s, t);
            assert forall|e: int, a: usize, b: usize| #[trigger]
                residual(arcs@, flows@, e, a, b) && r(a) implies r(b) by {
                assert(r(arcs@[e].0) && flows@[e] < arcs@[e].2 ==> r(arcs@[e].1));
            }
            lemma_reaches_closed(arcs@, flows@, r, path, s, t);
        }
        assert(reaches(arcs@, flows@, s, s));
    }
    side
}

/// The nodes of `r` below `m`.
spec fn below(r: spec_fn(usize) -> bool, m: int) -> spec_fn(usize) -> bool {
    |u: usize| u < m && r(u)
}

/// One more node adds what flows out of it.
proof fn lemma_net_node(
    arcs: Seq<Arc>,
    flows: Seq<u32>,
    r: spec_fn(usize) -> bool,
    m: usize,
    k: nat,
)
    requires
        k <= arcs.len(),
    ensures
        net(arcs, flows, below(r, m + 1), k) == net(arcs, flows, below(r, m as int), k) + if r(m) {
            net(arcs, flows, only(m), k)
        } else {
            0
        },
    decreases k,
{
    if k > 0 {
        lemma_net_node(arcs, flows, r, m, (k - 1) as nat);
        let a = arcs[k - 1];
        let f = flows[k - 1];
        assert(share(f, below(r, m + 1), a) == share(f, below(r, m as int), a) + if r(m) {
            share(f, only(m), a)
        } else {
            0
        });
    }
}

/// What flows out of nodes with `s` and without `t` is what flows out of `s`.
proof fn lemma_net_side(
    arcs: Seq<Arc>,
    flows: Seq<u32>,
    r: spec_fn(usize) -> bool,
    s: usize,
    t: usize,
    m: nat,
)
    requires
        is_maximum(arcs, flows, s, t),
        r(s),
        !r(t),
        m <= usize::MAX,
    ensures
        net(arcs, flows, below(r, m as int), arcs.len()) == if s < m {
            net(arcs, flows, only(s), arcs.len())
        } else {
            0
        },
    decreases m,
{
    if m == 0 {
        lemma_net_none(arcs, flows, below(r, 0), arcs.len());
    } else {
        let v = (m - 1) as usize;
        lemma_net_side(arcs, flows, r, s, t, (m - 1) as nat);
        lemma_net_node(arcs, flows, r, v, arcs.len());
        if v != s && v != t {
            assert(net(arcs, flows, only(v), arcs.len()) == 0);
        }
    }
}

proof fn lemma_net_none(arcs: Seq<Arc>, flows: Seq<u32>, r: spec_fn(usize) -> bool, k: nat)
    requires
        k <= arcs.len(),
        forall|u: usize| !(#[trigger] r(u)),
    ensures
        net(arcs, flows, r, k) == 0,
    decreases k,
{
    if k > 0 {
        lemma_net_none(arcs, flows, r, (k - 1) as nat);
    }
}

/// The capacity of the edges that leave the side, among the first `k`.
pub open spec fn cut_capacity(arcs: Seq<Arc>, r: spec_fn(usize) -> bool, k: nat) -> int
    decreases k,
{
    if k == 0 || k > arcs.len() {
        0
    } else {
        cut_capacity(arcs, r, (k - 1) as nat) + if r(arcs[k - 1].0) && !r(arcs[k - 1].1) {
            arcs[k - 1].2 as int
        } else {
            0
        }
    }
}

/// What flows over a side out of which nothing more can flow is its capacity.
proof fn lemma_cut_full(
    arcs: Seq<Arc>,
    flows: Seq<u32>,
    r: spec_fn(usize) -> bool,
    q: spec_fn(usize) -> bool,
    k: nat,
)
    requires
        k <= arcs.len(),
        flows.len() == arcs.len(),
        forall|e: int| 0 <= e < flows.len() ==> #[trigger] flows[e] <= arcs[e].2,
        forall|e: int, a: usize, b: usize| #[trigger]
            residual(arcs, flows, e, a, b) && r(a) ==> r(b),
        forall|e: int|
            0 <= e < arcs.len() ==> q((#[trigger] arcs[e]).0) == r(arcs[e].0) && q(arcs[e].1) == r(
                arcs[e].1,
            ),
    ensures
        net(arcs, flows, q, k) == cut_capacity(arcs, r, k),
    decreases k,
{
    if k > 0 {
        lemma_cut_full(arcs, flows, r, q, (k - 1) as nat);
        let e = k - 1;
        let a = arcs[e];
        assert(flows[e] <= a.2);
        assert(q(a.0) == r(a.0));
        if r(a.0) && !r(a.1) && flows[e] < a.2 {
            assert(residual(arcs, flows, e, a.0, a.1));
        }
        if !r(a.0) && r(a.1) && flows[e] > 0 {
            assert(residual(arcs, flows, e, a.1, a.0));
        }
    }
}

/// The capacity of the cut that a maximum flow gives is what flows out of `s`.
pub proof fn law_min_cut(arcs: Seq<Arc>, flows: Seq<u32>, s: usize, t: usize, nodes: nat)
    requires
        is_maximum(arcs, flows, s, t),
        s < nodes <= usize::MAX,
        forall|e: int|
            0 <= e < arcs.len() ==> (#[trigger] arcs[e]).0 < nodes && arcs[e].1 < nodes,
    ensures
        cut_capacity(arcs, |v: usize| reaches(arcs, flows, s, v), arcs.len()) == net(
            arcs,
            flows,
            only(s),
            arcs.len(),
        ),
{
    let r = |v: usize| reaches(arcs, flows, s, v);
    assert(augments(arcs, flows, seq![s], s, s));
    assert(r(s));
    if r(t) {
        let z = choose|z: spec_fn(usize) -> bool| #[trigger] stopped(arcs, flows, z, s, t);
        let path = choose|path: Seq<usize>| #[trigger] augments(arcs, flows, path, s, t);
        assert forall|e: int, a: usize, b: usize| #[trigger]
            residual(arcs, flows, e, a, b) && z(a) implies z(b) by {
            assert(z(arcs[e].0) && flows[e] < arcs[e].2 ==> z(arcs[e].1));
        }
        lemma_reaches_closed(arcs, flows, z, path, s, t);
    }
    assert forall|e: int, a: usize, b: usize| #[trigger]
        residual(arcs, flows, e, a, b) && r(a) implies r(b) by {
        lemma_reaches_next(arcs, flows, s, a, b, e);
    }
    lemma_net_side(arcs, flows, r, s, t, nodes);
    lemma_cut_full(arcs, flows, r, below(r, nodes as int), arcs.len());
}

/// No more flows over a side than the capacity of the edges that leave it.
proof fn lemma_cut_bound(
    arcs: Seq<Arc>,
    flows: Seq<u32>,
    r: spec_fn(usize) -> bool,
    q: spec_fn(usize) -> bool,
    k: nat,
)
    requires
        k <= arcs.len(),
        flows.len() == arcs.len(),
        forall|e: int| 0 <= e < flows.len() ==> #[trigger] flows[e] <= arcs[e].2,
        forall|e: int|
            0 <= e < arcs.len() ==> q((#[trigger] arcs[e]).0) == r(arcs[e].0) && q(arcs[e].1) == r(
                arcs[e].1,
            ),
    ensures
        net(arcs, flows, q, k) <= cut_capacity(arcs, r, k),
    decreases k,
{
    if k > 0 {
        lemma_cut_bound(arcs, flows, r, q, (k - 1) as nat);
        let e = k - 1;
        let a = arcs[e];
        assert(flows[e] <= a.2);
        assert(q(a.0) == r(a.0));
    }
}

/// No side with `s` and without `t` has a smaller capacity than that of a maximum flow.
pub proof fn law_cut_least(
    arcs: Seq<Arc>,
    flows: Seq<u32>,
    s: usize,
    t: usize,
    nodes: nat,
    r: spec_fn(usize) -> bool,
)
    requires
        is_maximum(arcs, flows, s, t),
        s < nodes <= usize::MAX,
        forall|e: int|
            0 <= e < arcs.len() ==> (#[trigger] arcs[e]).0 < nodes && arcs[e].1 < nodes,
        r(s),
        !r(t),
    ensures
        cut_capacity(arcs, |v: usize| reaches(arcs, flows, s, v), arcs.len()) <= cut_capacity(
            arcs,
            r,
            arcs.len(),
        ),
{
    law_min_cut(arcs, flows, s, t, nodes);
    lemma_net_side(arcs, flows, r, s, t, nodes);
    lemma_cut_bound(arcs, flows, r, below(r, nodes as int), arcs.len());
}

/// The edge leaves the side.
pub open spec fn leaves_side(arcs: Seq<Arc>, side: spec_fn(usize) -> bool, e: int) -> bool {
    0 <= e < arcs.len() && side(arcs[e].0) && !side(arcs[e].1)
}

/// The list has the edges, in order, that leave the nodes that more can flow to from `s`.
/// Each of them is full, and their capacity is what flows out of `s`.
pub open spec fn cut_by(arcs: Seq<Arc>, flows: Seq<u32>, s: usize, cut: Seq<usize>) -> bool {
    &&& forall|e: usize| #[trigger]
        cut.contains(e) <==> leaves_side(
            arcs,
            |v: usize| reaches(arcs, flows, s, v),
            e as int,
        )
    &&& forall|i: int, j: int|
        #![trigger cut[i], cut[j]]
        0 <= i < j < cut.len() ==> cut[i] < cut[j]
    &&& forall|i: int|
        0 <= i < cut.len() ==> flows[#[trigger] cut[i] as int] == arcs[cut[i] as int].2
    &&& cut_capacity(arcs, |v: usize| reaches(arcs, flows, s, v), arcs.len()) == net(
        arcs,
        flows,
        only(s),
        arcs.len(),
    )
}

/// The edges of a minimum cut between `s` and `t`, in order: those that leave the
/// nodes that more can flow to under a maximum flow.  Each of them is full, and their
/// capacity is what flows out of `s`.
pub fn min_cut_edges(g: &DiGraph<(), u32>, s: usize, t: usize) -> (cut: Vec<usize>)
    requires
        network_ok(*g),
        s < node_total(*g),
        t < node_total(*g),
        s != t,
        outgoing(arcs_of(*g), s, arcs_of(*g).len()) <= u32::MAX,
    ensures
        exists|flows: Seq<u32>| #[trigger]
            is_maximum(arcs_of(*g), flows, s, t) && cut_by(arcs_of(*g), flows, s, cut@),
{
    let ghost nodes = node_total(*g);
    let side = min_cut_side(g, s, t);
    let ghost flows = choose|flows: Seq<u32>| #[trigger]
        is_maximum(arcs_of(*g), flows, s, t) && forall|v: usize|
            v < nodes ==> (#[trigger] side@[v as int] <==> reaches(arcs_of(*g), flows, s, v));
    let ghost r = |v: usize| reaches(arcs_of(*g), flows, s, v);
    let arcs = edges(g);
    let mut cut: Vec<usize> = Vec::new();
    let mut e: usize = 0;
    while e < arcs.len()
        invariant
            arcs@ == arcs_of(*g),
            network_ok(*g),
            nodes == node_total(*g),
            side@.len() == nodes,
            is_maximum(arcs_of(*g), flows, s, t),
            r == (|v: usize| reaches(arcs_of(*g), flows, s, v)),
            forall|v: usize| v < nodes ==> (#[trigger] side@[v as int] <==> r(v)),
            e <= arcs@.len(),
            forall|d: usize| #[trigger]
                cut@.contains(d) <==> d < e && leaves_side(arcs_of(*g), r, d as int),
            forall|i: int| 0 <= i < cut@.len() ==> #[trigger] cut@[i] < e,
            forall|i: int, j: int|
                #![trigger cut@[i], cut@[j]]
                0 <= i < j < cut@.len() ==> cut@[i] < cut@[j],
        decreases arcs.len() - e,
    {
        let (a, b, _) = arcs[e];
        assert(arcs_of(*g)[e as int].0 < nodes);
        let ghost c0 = cut@;
        if side[a] && !side[b] {
            cut.push(e);
            proof {
                assert forall|d: usize| #[trigger] cut@.contains(d) <==> c0.contains(d) || d == e by {
                    if c0.contains(d) {
                        let i = choose|i: int| 0 <= i < c0.len() && c0[i] == d;
                        assert(cut@[i] == d);
                    }
                    if d == e {
                        assert(cut@[c0.len() as int] == e);
                    }
                }
            }
        }
        e = e + 1;
    }
    proof {
        law_min_cut(arcs_of(*g), flows, s, t, nodes);
        assert forall|i: int| 0 <= i < cut@.len() implies flows[#[trigger] cut@[i] as int]
            == arcs_of(*g)[cut@[i] as int].2 by {
            assert(cut@.contains(cut@[i]));
            let d = cut@[i] as int;
            let arc = arcs_of(*g)[d];
            assert(flows[d] <= arc.2);
            if flows[d] < arc.2 {
                lemma_reaches_next(arcs_of(*g), flows, s, arc.0, arc.1, d);
            }
        }
        assert(cut_by(arcs_of(*g), flows, s, cut@));
    }
    cut
}

} // verus!
