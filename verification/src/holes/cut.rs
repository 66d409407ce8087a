//! The clause of a missing word, by a minimum cut.
//!
//! The places that a run on the word can be at, a state, a position and a packet,
//! fall into three regions: those that are reached now, those from which the rest of
//! the word goes on now, and those between.  A run with other fillings goes from the
//! first to the second.  Holes are what it can go through, so a cut that takes out
//! only holes meets it.
use vstd::prelude::*;
use petgraph::graph::DiGraph;
use crate::holes::aut::{enfa_lang, lemma_first, onward, Place, ENFA};
use crate::holes::candidate::{everything, span_word, Candidate};
use crate::holes::cegis::{
    admitted, any_claim, assert_some, bank_span, banked, bridged, demands, guess_fill, has_word,
    hole_clause, honest, leaves_by, lemma_bank_empty, lemma_bank_store, lemma_concrete_end,
    lemma_concrete_step, lemma_end_word, lemma_not_both, lemma_one_step, lemma_reach_ext,
    lemma_refines_less, lemma_start, missing_word, outer_states, packets_at, part_of, refines,
    slot_has, vars_ok, Claim,
};
use crate::holes::escape::{
    breach, breach_end, breaches, goes, lands, lemma_escape, outside, placed_at, reached, stays,
    Places,
};
use crate::holes::explicit::ExplicitDFA;
use crate::holes::inst::{graph_row, targets, Filling, Instantiate, LowerBoundCounterexample, State};
use crate::holes::network::{
    add_edge, add_node, arcs_of, cut_capacity, edge_count, edges, is_maximum, law_cut_least,
    min_cut_side, network_ok, new_network, node_total, outgoing, reaches, Arc,
};
use crate::holes::nk_with_holes::{label_lang, label_ok, EdgeLabel, Hole};
use crate::holes::reach::{
    backward_reachable, completes, follows, forward_reachable, lemma_word_from, word_from, Reach,
};
use crate::holes::search::singleton_sp;
use crate::holes::smt::{Guess, Literal, SmtLearner};
use crate::lang::packets;
use crate::sp::{Pkt, SP};
use crate::spp::{SPPstore, SPP};

verus! {

/// The regions of the places of a run.
#[derive(Clone, Copy, Debug)]
pub enum Region {
    /// Reached now.
    Fwd,
    /// Neither.
    Int,
    /// The rest of the word goes on from here now.
    Bwd,
}

/// A way through a hole: along edge `k` of state `a`, from position `i` over the packets up
/// to position `j`, or to the end of the word at end `k`, and between which regions.
pub struct Span {
    pub end: bool,
    pub a: usize,
    pub k: int,
    pub i: int,
    pub j: int,
    pub src: Region,
    pub tgt: Region,
}

/// A way along an edge.
pub open spec fn hole_span(
    a: usize,
    k: int,
    i: int,
    j: int,
    src: Region,
    tgt: Region,
) -> Span {
    Span { end: false, a, k, i, j, src, tgt }
}

/// A way to the end of the word.
pub open spec fn end_span(a: usize, k: int, i: int, src: Region) -> Span {
    Span { end: true, a, k, i, j: i, src, tgt: Region::Bwd }
}

/// The region of a place.
pub open spec fn region_of<C: ENFA>(
    x: &Instantiate<C>,
    st: SPPstore,
    t: Seq<Pkt>,
    out: Pkt,
    a: usize,
    i: int,
    p: Pkt,
) -> Region {
    if follows(x, st, t, State::<Place<C>>::Outer(a), i, p) {
        Region::Fwd
    } else if completes(x, st, t, out, State::<Place<C>>::Outer(a), i, p) {
        Region::Bwd
    } else {
        Region::Int
    }
}

/// No way along the edge, or to the end, is among them.
pub open spec fn untried(spans: Seq<Span>, end: bool, a: usize, k: int) -> bool {
    forall|l: int|
        0 <= l < spans.len() ==> !((#[trigger] spans[l]).end == end && spans[l].a == a && spans[l].k
            == k)
}

/// One more way, or none.
pub open spec fn more_by(spans: Seq<Span>, o: Seq<Span>, s: Span) -> bool {
    spans == o || spans == o.push(s)
}

proof fn lemma_more_by(spans: Seq<Span>, o: Seq<Span>, s: Span, z: Span)
    requires
        more_by(spans, o, s),
        !o.contains(z),
        z != s,
    ensures
        !spans.contains(z),
{
    if spans.contains(z) {
        let l = choose|l: int| 0 <= l < spans.len() && spans[l] == z;
        if l < o.len() {
            assert(o[l] == z);
        }
    }
}

/// The most nodes that a network has.
pub const MAX_NODES: usize = 4_294_967_294;

/// The most edges that a network has.
pub const MAX_ARCS: usize = 4_294_967_295;

/// More than any cut of holes can have.
pub const INF: u32 = 4_294_967_295;

/// An automaton, a word that it does not have, and what is reached along it, from
/// the start and from the end.
pub struct Around<'c, C: ENFA> {
    pub inst: &'c Instantiate<C>,
    pub trace: &'c [Vec<bool>],
    pub output: &'c [bool],
    pub forward: &'c Reach<State<C::State>>,
    pub backward: &'c Reach<State<C::State>>,
}

impl<'c, C: ENFA> Around<'c, C> {
    pub open spec fn t(&self) -> Seq<Pkt> {
        packets(self.trace@)
    }

    /// The place is reached now.
    pub open spec fn fwd(&self, s0: SPPstore, a: usize, i: int, p: Pkt) -> bool {
        follows(self.inst, s0, self.t(), State::<Place<C>>::Outer(a), i, p)
    }

    /// The rest of the word goes on from the place now.
    pub open spec fn bwd(&self, s0: SPPstore, a: usize, i: int, p: Pkt) -> bool {
        completes(self.inst, s0, self.t(), self.output@, State::<Place<C>>::Outer(a), i, p)
    }

    /// The place is in the region.
    pub open spec fn within(&self, s0: SPPstore, r: Region, a: usize, i: int, p: Pkt) -> bool {
        match r {
            Region::Fwd => self.fwd(s0, a, i, p),
            Region::Bwd => self.bwd(s0, a, i, p),
            Region::Int => !self.fwd(s0, a, i, p) && !self.bwd(s0, a, i, p),
        }
    }

    /// The region of the place.
    pub open spec fn region(&self, s0: SPPstore, a: usize, i: int, p: Pkt) -> Region {
        region_of(self.inst, s0, self.t(), self.output@, a, i, p)
    }

    /// The tables say what is reached.
    pub open spec fn ok(&self, s0: SPPstore, st: SPPstore) -> bool {
        &&& s0.wf()
        &&& st.wf()
        &&& st.extends(&s0)
        &&& self.inst.valid(s0)
        &&& self.t().len() >= 1
        &&& forall|i: int|
            0 <= i < self.trace@.len() ==> (#[trigger] self.trace@[i])@.len() == s0.n()
        &&& self.output@.len() == s0.n()
        &&& self.forward.wf(st, self.trace@.len())
        &&& self.backward.wf(st, self.trace@.len())
        &&& forall|a: usize, i: int, p: Pkt|
            a < self.inst.graph.states@.len() && 0 <= i < self.t().len() && p.len() == s0.n() ==> (
            #[trigger] self.forward.lists(st, State::<Place<C>>::Outer(a), i, p) <==> self.fwd(
                s0,
                a,
                i,
                p,
            ))
        &&& forall|a: usize, i: int, p: Pkt|
            a < self.inst.graph.states@.len() && 0 <= i < self.t().len() && p.len() == s0.n() ==> (
            #[trigger] self.backward.lists(st, State::<Place<C>>::Outer(a), i, p) <==> self.bwd(
                s0,
                a,
                i,
                p,
            ))
    }

    proof fn lemma_ok(&self, s0: SPPstore, st: SPPstore, s1: SPPstore)
        requires
            self.ok(s0, s1),
            st.wf(),
            st.extends(&s1),
        ensures
            self.ok(s0, st),
    {
        lemma_reach_ext::<C>(self.forward, st, s1, self.trace@.len());
        lemma_reach_ext::<C>(self.backward, st, s1, self.trace@.len());
        assert forall|a: usize, i: int, p: Pkt|
            a < self.inst.graph.states@.len() && 0 <= i < self.t().len() && p.len() == s0.n()
            implies (#[trigger] self.forward.lists(st, State::<Place<C>>::Outer(a), i, p)
            <==> self.fwd(s0, a, i, p)) by {
            assert(self.forward.lists(s1, State::<Place<C>>::Outer(a), i, p) <==> self.fwd(
                s0,
                a,
                i,
                p,
            ));
        }
        assert forall|a: usize, i: int, p: Pkt|
            a < self.inst.graph.states@.len() && 0 <= i < self.t().len() && p.len() == s0.n()
            implies (#[trigger] self.backward.lists(st, State::<Place<C>>::Outer(a), i, p)
            <==> self.bwd(s0, a, i, p)) by {
            assert(self.backward.lists(s1, State::<Place<C>>::Outer(a), i, p) <==> self.bwd(
                s0,
                a,
                i,
                p,
            ));
        }
    }

    /// The packets of a region for a state of the expression and a position.
    fn region_sp(
        &self,
        store: &mut SPPstore,
        q: usize,
        i: usize,
        region: Region,
        Ghost(s0): Ghost<SPPstore>,
    ) -> (r: SP)
        requires
            self.ok(s0, *old(store)),
            q < self.inst.graph.states@.len(),
            i < self.trace@.len(),
        ensures
            final(store).wf(),
            final(store).extends(old(store)),
            self.ok(s0, *final(store)),
            final(store).sp.has(r),
            forall|p: Pkt|
                #![trigger final(store).sp.mem(r, p)]
                p.len() == s0.n() ==> (final(store).sp.mem(r, p) <==> self.within(
                    s0,
                    region,
                    q,
                    i as int,
                    p,
                )),
    {
        let ghost o = *store;
        let n: usize = self.trace.len();
        let fwd = packets_at::<C>(self.forward, store, q, i, n);
        let bwd = packets_at::<C>(self.backward, store, q, i, n);
        proof {
            o.lemma_wf();
            o.lemma_sets_n();
            self.lemma_ok(s0, o, o);
        }
        match region {
            Region::Fwd => fwd,
            Region::Bwd => bwd,
            Region::Int => {
                let live = store.sp.union(fwd, bwd);
                let ghost s1 = *store;
                let r = store.sp.complement(live);
                proof {
                    store.lemma_sets(&o);
                    self.lemma_ok(s0, *store, o);
                    let st = *store;
                    assert forall|p: Pkt|
                        #![trigger st.sp.mem(r, p)]
                        p.len() == s0.n() implies (st.sp.mem(r, p) <==> self.within(
                        s0,
                        region,
                        q,
                        i as int,
                        p,
                    )) by {
                        assert(s1.sp.mem(live, p) == (o.sp.mem(fwd, p) || o.sp.mem(bwd, p)));
                        assert(o.sp.mem(fwd, p) == self.forward.lists(
                            o,
                            State::<Place<C>>::Outer(q),
                            i as int,
                            p,
                        ));
                        assert(o.sp.mem(bwd, p) == self.backward.lists(
                            o,
                            State::<Place<C>>::Outer(q),
                            i as int,
                            p,
                        ));
                    }
                }
                r
            },
        }
    }
}

/// The network of the places: node 0 is all that is reached, node 1 all from which
/// the word goes on, and every state and position has a node for what is between.
/// An edge of capacity 1 goes through a hole, and has a literal.
pub struct CutGraph {
    pub net: DiGraph<(), u32>,
    pub ids: Vec<Vec<usize>>,
    pub lits: Vec<Literal>,
    pub spots: Vec<usize>,
    pub claims: Ghost<Seq<Claim>>,
    pub spans: Ghost<Seq<Span>>,
}

impl CutGraph {
    pub open spec fn arcs(&self) -> Seq<Arc> {
        arcs_of(self.net)
    }

    /// The edge of a literal.
    pub open spec fn arc(&self, l: int) -> Arc {
        self.arcs()[self.spots@[l] as int]
    }

    pub open spec fn ok(&self, k: nat, n: nat) -> bool {
        &&& network_ok(self.net)
        &&& node_total(self.net) >= 2
        &&& self.ids@.len() == k
        &&& forall|a: int, i: int|
            0 <= a < k && 0 <= i < n ==> 2 <= #[trigger] self.ids@[a]@[i] < node_total(self.net)
        &&& forall|a: int| 0 <= a < k ==> (#[trigger] self.ids@[a])@.len() == n
        &&& self.spots@.len() == self.lits@.len()
        &&& self.claims@.len() == self.lits@.len()
        &&& self.spans@.len() == self.lits@.len()
        &&& self.spans@.no_duplicates()
        &&& forall|l: int, m: int|
            #![trigger self.spots@[l], self.spots@[m]]
            0 <= l < m < self.spots@.len() ==> self.spots@[l] < self.spots@[m]
        &&& forall|l: int| 0 <= l < self.spots@.len() ==> #[trigger] self.spots@[l] < self.arcs().len()
        &&& forall|e: int|
            0 <= e < self.arcs().len() && (#[trigger] self.arcs()[e]).0 == 0 ==> self.arcs()[e].2
                == 1
        &&& self.arcs().len() <= MAX_ARCS
        &&& forall|e: int|
            0 <= e < self.arcs().len() ==> (#[trigger] self.arcs()[e]).2 == 1 || self.arcs()[e].2
                == INF
        &&& forall|e: int|
            0 <= e < self.arcs().len() && (#[trigger] self.arcs()[e]).2 == 1 ==> self.spotted(e)
        &&& forall|l: int| 0 <= l < self.spots@.len() ==> (#[trigger] self.arc(l)).2 == 1
        &&& forall|l: int|
            0 <= l < self.claims@.len() ==> (#[trigger] self.claims@[l])(everything())
    }

    /// The edge has a literal.
    pub open spec fn spotted(&self, e: int) -> bool {
        exists|l: int| 0 <= l < self.spots@.len() && #[trigger] self.spots@[l] == e
    }

    /// `self` is `o` with edges added.
    pub open spec fn grows(&self, o: CutGraph) -> bool {
        &&& self.ids == o.ids
        &&& node_total(self.net) == node_total(o.net)
        &&& o.arcs().len() <= self.arcs().len()
        &&& forall|e: int| 0 <= e < o.arcs().len() ==> #[trigger] self.arcs()[e] == o.arcs()[e]
        &&& o.spots@.len() <= self.spots@.len()
        &&& forall|l: int| 0 <= l < o.spots@.len() ==> #[trigger] self.spots@[l] == o.spots@[l]
        &&& o.claims@.len() <= self.claims@.len()
        &&& forall|l: int| 0 <= l < o.claims@.len() ==> #[trigger] self.claims@[l] == o.claims@[l]
        &&& o.spans@.len() <= self.spans@.len()
        &&& forall|l: int| 0 <= l < o.spans@.len() ==> #[trigger] self.spans@[l] == o.spans@[l]
    }

    /// An edge that no cut of holes takes out goes from `u` to `v`.
    pub open spec fn linked(&self, u: usize, v: usize) -> bool {
        u == v || exists|e: int|
            0 <= e < self.arcs().len() && (#[trigger] self.arcs()[e]).0 == u && self.arcs()[e].1
                == v && self.arcs()[e].2 != 1
    }

    /// The claim of the literal of the way from `u` to `v` holds for the guess.
    pub open spec fn joined(&self, u: usize, v: usize, g: Guess, s: Span) -> bool {
        u == v || exists|l: int| #[trigger] self.joins(l, u, v, g) && self.spans@[l] == s
    }

    pub open spec fn joins(&self, l: int, u: usize, v: usize, g: Guess) -> bool {
        &&& 0 <= l < self.claims@.len()
        &&& self.claims@[l](g)
        &&& self.arcs()[self.spots@[l] as int].0 == u
        &&& self.arcs()[self.spots@[l] as int].1 == v
    }

    proof fn lemma_grows(&self, o: CutGraph, k: nat, n: nat)
        requires
            o.ok(k, n),
            self.grows(o),
        ensures
            forall|u: usize, v: usize| o.linked(u, v) ==> #[trigger] self.linked(u, v),
            forall|u: usize, v: usize, g: Guess, s: Span|
                o.joined(u, v, g, s) ==> #[trigger] self.joined(u, v, g, s),
    {
        assert forall|u: usize, v: usize| o.linked(u, v) implies #[trigger] self.linked(u, v) by {
            if u != v {
                let e = choose|e: int|
                    0 <= e < o.arcs().len() && (#[trigger] o.arcs()[e]).0 == u && o.arcs()[e].1 == v
                        && o.arcs()[e].2 != 1;
                assert(self.arcs()[e] == o.arcs()[e]);
            }
        }
        assert forall|u: usize, v: usize, g: Guess, s: Span| o.joined(u, v, g, s) implies
            #[trigger] self.joined(u, v, g, s) by {
            if u != v {
                let l = choose|l: int| #[trigger] o.joins(l, u, v, g) && o.spans@[l] == s;
                assert(self.spans@[l] == o.spans@[l]);
                assert(self.spots@[l] == o.spots@[l]);
                assert(self.claims@[l] == o.claims@[l]);
                assert(self.arcs()[o.spots@[l] as int] == o.arcs()[o.spots@[l] as int]);
                assert(self.joins(l, u, v, g));
            }
        }
    }

    /// A network with a node for each of `k` states and `n` positions and without
    /// edges, if that is not too many nodes.
    fn new(k: usize, n: usize) -> (r: Option<CutGraph>)
        ensures
            r is Some <==> 2 + k * n <= MAX_NODES,
            r matches Some(c) ==> c.ok(k as nat, n as nat) && node_total(c.net) == 2 + k * n
                && c.lits@.len() == 0 && c.arcs().len() == 0 && forall|a: int, i: int|
                0 <= a < k && 0 <= i < n ==> #[trigger] c.ids@[a]@[i] == 2 + a * n + i,
    {
        let mut net = new_network();
        let _ = add_node(&mut net);
        let _ = add_node(&mut net);
        let mut total: usize = 2;
        let mut ids: Vec<Vec<usize>> = Vec::new();
        let mut a: usize = 0;
        while a < k
            invariant
                a <= k,
                total == node_total(net) <= MAX_NODES,
                total == 2 + a * n,
                arcs_of(net).len() == 0,
                ids@.len() == a,
                forall|b: int, i: int|
                    0 <= b < a && 0 <= i < n ==> #[trigger] ids@[b]@[i] == 2 + b * n + i,
                forall|b: int| 0 <= b < a ==> (#[trigger] ids@[b])@.len() == n,
            decreases k - a,
        {
            let ghost ids0 = ids@;
            let mut row: Vec<usize> = Vec::new();
            let mut i: usize = 0;
            while i < n
                invariant
                    i <= n,
                    a < k,
                    ids@ == ids0,
                    total == node_total(net) <= MAX_NODES,
                    total == 2 + a * n + i,
                    arcs_of(net).len() == 0,
                    row@.len() == i,
                    forall|j: int| 0 <= j < i ==> #[trigger] row@[j] == 2 + a * n + j,
                decreases n - i,
            {
                if total >= MAX_NODES {
                    proof {
                        assert(a * n + n <= k * n) by (nonlinear_arith)
                            requires
                                a < k,
                        ;
                    }
                    return None;
                }
                let v = add_node(&mut net);
                row.push(v);
                total = total + 1;
                i = i + 1;
            }
            ids.push(row);
            proof {
                assert((a + 1) * n == a * n + n) by (nonlinear_arith);
                assert forall|b: int, i: int| 0 <= b < a + 1 && 0 <= i < n implies
                    #[trigger] ids@[b]@[i] == 2 + b * n + i by {
                    if b < a {
                        assert(ids0[b]@[i] == 2 + b * n + i);
                    }
                }
            }
            a = a + 1;
        }
        proof {
            assert forall|b: int, i: int| 0 <= b < k && 0 <= i < n implies 2
                <= #[trigger] ids@[b]@[i] < total by {
                assert(ids@[b]@[i] == 2 + b * n + i);
                assert(b * n + n <= k * n && b * n >= 0) by (nonlinear_arith)
                    requires
                        0 <= b < k,
                        0 <= n,
                ;
            }
        }
        let claims: Ghost<Seq<Claim>> = Ghost(Seq::empty());
        let spans: Ghost<Seq<Span>> = Ghost(Seq::empty());
        Some(CutGraph { net, ids, lits: Vec::new(), spots: Vec::new(), claims, spans })
    }

    /// Adds an edge that no cut of holes takes out.
    fn add_link(&mut self, u: usize, v: usize, Ghost(k): Ghost<nat>, Ghost(n): Ghost<nat>) -> (b:
        bool)
        requires
            old(self).ok(k, n),
            u < node_total(old(self).net),
            v < node_total(old(self).net),
            u != 0,
        ensures
            final(self).ok(k, n),
            final(self).grows(*old(self)),
            final(self).lits == old(self).lits,
            final(self).claims == old(self).claims,
            final(self).spans == old(self).spans,
            final(self).spots == old(self).spots,
            final(self).arcs().len() <= old(self).arcs().len() + 1,
            forall|e: int|
                old(self).arcs().len() <= e < final(self).arcs().len()
                    ==> #[trigger] final(self).arcs()[e] == (u, v, INF),
            b ==> final(self).linked(u, v),
            !b ==> old(self).arcs().len() >= MAX_ARCS,
    {
        let ghost o = *self;
        if u == v {
            return true;
        }
        let count = edge_count(&self.net);
        if count >= MAX_ARCS {
            return false;
        }
        let e = add_edge(&mut self.net, u, v, INF);
        proof {
            assert(self.arcs()[e as int] == (u, v, INF));
            assert forall|d: int| 0 <= d < o.arcs().len() implies #[trigger] self.arcs()[d]
                == o.arcs()[d] by {}
            assert forall|d: int|
                0 <= d < self.arcs().len() && (#[trigger] self.arcs()[d]).2 == 1
                implies self.spotted(d) by {
                assert(self.arcs()[d] == o.arcs()[d]);
                assert(o.spotted(d));
            }
            assert forall|l: int| 0 <= l < self.spots@.len() implies (#[trigger] self.arc(l)).2
                == 1 by {
                assert(o.arc(l).2 == 1);
                assert(o.spots@[l] < o.arcs().len());
            }
        }
        true
    }
}


/// Adds an edge through a hole, with the literal that its slot has a word between
/// the two sets.  There is none if no guess has such a word.
fn add_span<'a, C: Candidate<'a>, L: SmtLearner<'a>>(
    cut: &mut CutGraph,
    var: C::Var,
    learner: &mut L,
    store: &mut SPPstore,
    dfa: &'a ExplicitDFA,
    in_sp: SP,
    out_sp: SP,
    part: &[Vec<bool>],
    u: usize,
    v: usize,
    Ghost(o): Ghost<L>,
    Ghost(so): Ghost<SPPstore>,
    Ghost(k): Ghost<nat>,
    Ghost(n): Ghost<nat>,
    Ghost(s): Ghost<Span>,
) -> (b: bool)
    requires
        old(cut).ok(k, n),
        u < node_total(old(cut).net),
        v < node_total(old(cut).net),
        so.wf(),
        dfa.valid(so),
        old(store).wf(),
        old(store).extends(&so),
        so.n() == o.n(),
        banked(*old(learner), o, old(store).sp, old(cut).lits@, old(cut).claims@),
        C::placed(var, o.slots(), o.automata(), dfa),
        old(store).sp.has(in_sp),
        old(store).sp.has(out_sp),
        in_sp != old(store).sp.zero,
        out_sp != old(store).sp.zero,
        forall|i: int| 0 <= i < part@.len() ==> (#[trigger] part@[i])@.len() == so.n(),
        !old(cut).spans@.contains(s),
    ensures
        more_by(final(cut).spans@, old(cut).spans@, s),
        final(store).wf(),
        final(store).extends(old(store)),
        final(cut).ok(k, n),
        final(cut).grows(*old(cut)),
        banked(*final(learner), o, final(store).sp, final(cut).lits@, final(cut).claims@),
        b ==> forall|g: Guess, p: Pkt, q: Pkt|
            p.len() == so.n() && q.len() == so.n() && old(store).sp.mem(in_sp, p) && old(store).sp.mem(out_sp, q) && #[trigger] slot_has::<C>(var, so, dfa, g, p, packets(part@), q)
                ==> final(cut).joined(u, v, g, s),
        final(cut).arcs().len() <= old(cut).arcs().len() + 1,
        forall|e: int|
            old(cut).arcs().len() <= e < final(cut).arcs().len() ==> (
            #[trigger] final(cut).arcs()[e]).2 == 1,
        !b ==> old(cut).arcs().len() >= MAX_ARCS,
        forall|l: int, g: Guess|
            old(cut).claims@.len() <= l < final(cut).claims@.len()
                && #[trigger] final(cut).claims@[l](g) ==> final(cut).arc(l).0 == u
                && final(cut).arc(l).1 == v && bridged::<C>(
                var,
                so,
                dfa,
                g,
                old(store).sp,
                in_sp,
                out_sp,
                packets(part@),
            ),
{
    let ghost c0 = *cut;
    if u == v {
        return true;
    }
    let count = edge_count(&cut.net);
    if count >= MAX_ARCS {
        return false;
    }
    let (added, c2) = bank_span::<C, L>(
        var,
        learner,
        store,
        dfa,
        in_sp,
        out_sp,
        part,
        &mut cut.lits,
        Ghost(o),
        Ghost(so),
        Ghost(cut.claims@),
    );
    if added {
        let e = add_edge(&mut cut.net, u, v, 1);
        cut.spots.push(e);
        cut.claims = c2;
        cut.spans = Ghost(cut.spans@.push(s));
        proof {
            assert(cut.arcs()[e as int] == (u, v, 1u32));
            assert forall|l: int| 0 <= l < c0.claims@.len() implies #[trigger] cut.claims@[l]
                == c0.claims@[l] by {
                assert(cut.claims@.drop_last()[l] == c0.claims@[l]);
            }
            assert forall|g: Guess| #[trigger] cut.claims@.last()(g) implies cut.joined(
                u,
                v,
                g,
                s,
            ) by {
                let l = cut.claims@.len() - 1;
                assert(cut.claims@[l](g));
                assert(cut.joins(l, u, v, g));
            }
            assert forall|l: int, g: Guess|
                c0.claims@.len() <= l < cut.claims@.len() && #[trigger] cut.claims@[l](g)
                implies cut.claims@.last()(g) && cut.arc(l) == (u, v, 1u32) by {
                assert(l == cut.claims@.len() - 1);
            }
        }
    }
    proof {
        assert(cut.claims@.len() == cut.lits@.len());
        assert(cut.spots@.len() == cut.lits@.len());
        assert(cut.spans@.no_duplicates()) by {
            assert forall|l: int, m: int| 0 <= l < m < cut.spans@.len() implies cut.spans@[l]
                != cut.spans@[m] by {
                assert(cut.spans@[l] == c0.spans@[l]);
                if m < c0.spans@.len() {
                    assert(cut.spans@[m] == c0.spans@[m]);
                }
            }
        }
        assert forall|l: int, m: int|
            #![trigger cut.spots@[l], cut.spots@[m]]
            0 <= l < m < cut.spots@.len() implies cut.spots@[l] < cut.spots@[m] by {
            assert(cut.spots@[l] == c0.spots@[l]);
            assert(c0.spots@[l] < c0.arcs().len());
            if m < c0.spots@.len() {
                assert(cut.spots@[m] == c0.spots@[m]);
            }
        }
        assert(cut.ids == c0.ids);
        assert forall|l: int| 0 <= l < cut.spots@.len() implies #[trigger] cut.spots@[l]
            < cut.arcs().len() by {
            if l < c0.spots@.len() {
                assert(c0.spots@[l] < c0.arcs().len());
            }
        }
        assert forall|e: int| 0 <= e < cut.arcs().len() && (#[trigger] cut.arcs()[e]).0 == 0
            implies cut.arcs()[e].2 == 1 by {
            if e < c0.arcs().len() {
                assert(cut.arcs()[e] == c0.arcs()[e]);
            }
        }
        assert forall|e: int| 0 <= e < cut.arcs().len() && (#[trigger] cut.arcs()[e]).2 == 1
            implies cut.spotted(e) by {
            if e < c0.arcs().len() {
                assert(cut.arcs()[e] == c0.arcs()[e]);
                assert(c0.spotted(e));
                let l = choose|l: int| 0 <= l < c0.spots@.len() && #[trigger] c0.spots@[l] == e;
                assert(cut.spots@[l] == e);
            } else {
                assert(cut.spots@[cut.spots@.len() - 1] == e);
            }
        }
        assert forall|l: int| 0 <= l < cut.spots@.len() implies (#[trigger] cut.arc(l)).2 == 1 by {
            if l < c0.spots@.len() {
                assert(c0.arc(l).2 == 1);
                assert(c0.spots@[l] < c0.arcs().len());
                assert(cut.arcs()[c0.spots@[l] as int] == c0.arcs()[c0.spots@[l] as int]);
            }
        }
        assert forall|l: int| 0 <= l < cut.claims@.len() implies (#[trigger] cut.claims@[l])(
            everything(),
        ) by {
            if l < c0.claims@.len() {
                assert(cut.claims@[l] == c0.claims@[l]);
            } else {
                assert(cut.claims@[l] == cut.claims@.last());
            }
        }
        assert(network_ok(cut.net)) by {
            assert forall|e: int| 0 <= e < cut.arcs().len() implies (#[trigger] arcs_of(
                cut.net,
            )[e]).0 < node_total(cut.net) && arcs_of(cut.net)[e].1 < node_total(cut.net) by {
                if e < c0.arcs().len() {
                    assert(arcs_of(cut.net)[e] == arcs_of(c0.net)[e]);
                }
            }
        }
    }
    true
}

/// A run goes from one place to another through a hole.
pub open spec fn through<'a, 'c, C: Candidate<'a>>(
    w: &Around<'c, C>,
    s0: SPPstore,
    vars: Filling<C::Var>,
    dfa: &'a ExplicitDFA,
    h: Hole,
    a: usize,
    i: int,
    b: usize,
    j: int,
    jt: int,
    p: Pkt,
    m: Pkt,
    g: Guess,
) -> bool {
    &&& p.len() == s0.n()
    &&& m.len() == s0.n()
    &&& slot_has::<C>(vars.val(h), s0, dfa, g, p, w.t().subrange(i + 1, j + 1), m)
    &&& !w.bwd(s0, a, i, p)
    &&& !w.fwd(s0, b, jt, m)
}

/// The node of a place.
pub open spec fn node_of<'c, C: ENFA>(
    w: &Around<'c, C>,
    s0: SPPstore,
    ids: Seq<Vec<usize>>,
    a: usize,
    i: int,
    p: Pkt,
) -> usize {
    if w.fwd(s0, a, i, p) {
        0
    } else if w.bwd(s0, a, i, p) {
        1
    } else {
        ids[a as int]@[i]
    }
}

/// A step of a relation from a place between to another.
pub open spec fn passes_by<'c, C: ENFA>(
    w: &Around<'c, C>,
    s0: SPPstore,
    s: SPP,
    a: usize,
    i: int,
    b: usize,
    jt: int,
    p: Pkt,
    m: Pkt,
) -> bool {
    &&& p.len() == s0.n()
    &&& m.len() == s0.n()
    &&& s0.rel(s, p, m)
    &&& w.within(s0, Region::Int, a, i, p)
    &&& w.within(s0, Region::Int, b, jt, m)
}

/// The network has edges for what a run can do along edge `k` of state `a` between
/// positions `i` and `j`.
pub open spec fn covers<'a, 'c, C: Candidate<'a>>(
    w: &Around<'c, C>,
    s0: SPPstore,
    vars: Filling<C::Var>,
    dfa: &'a ExplicitDFA,
    cut: CutGraph,
    a: usize,
    k: int,
    i: int,
    j: int,
) -> bool {
    let e = w.inst.graph.edges@[a as int]@[k];
    let jt = lands(w.inst, e.1, j);
    0 <= i <= j && jt < w.t().len() ==> match e.0 {
        EdgeLabel::Concrete(s) => i == j ==> forall|p: Pkt, m: Pkt| #[trigger]
            passes_by(w, s0, s, a, i, e.1, jt, p, m) ==> cut.linked(
                cut.ids@[a as int]@[i],
                cut.ids@[e.1 as int]@[jt],
            ),
        EdgeLabel::Abstract(h) => forall|p: Pkt, m: Pkt, g: Guess| #[trigger]
            through::<C>(w, s0, vars, dfa, h, a, i, e.1, j, jt, p, m, g) ==> cut.joined(
                node_of(w, s0, cut.ids@, a, i, p),
                node_of(w, s0, cut.ids@, e.1, jt, m),
                g,
                hole_span(a, k, i, j, w.region(s0, a, i, p), w.region(s0, e.1, jt, m)),
            ),
    }
}

/// A run ends in a hole.
pub open spec fn stops_in<'a, 'c, C: Candidate<'a>>(
    w: &Around<'c, C>,
    s0: SPPstore,
    vars: Filling<C::Var>,
    dfa: &'a ExplicitDFA,
    h: Hole,
    a: usize,
    i: int,
    p: Pkt,
    g: Guess,
) -> bool {
    &&& p.len() == s0.n()
    &&& slot_has::<C>(
        vars.val(h),
        s0,
        dfa,
        g,
        p,
        w.t().subrange(i + 1, w.t().len() as int),
        w.output@,
    )
    &&& !w.bwd(s0, a, i, p)
}

/// The network has edges for the runs that end in the hole at end `k` of state `a`,
/// from position `i` on.
pub open spec fn covers_end<'a, 'c, C: Candidate<'a>>(
    w: &Around<'c, C>,
    s0: SPPstore,
    vars: Filling<C::Var>,
    dfa: &'a ExplicitDFA,
    cut: CutGraph,
    a: usize,
    k: int,
    i: int,
) -> bool {
    0 <= i < w.t().len() ==> match w.inst.graph.ends@[a as int]@[k] {
        EdgeLabel::Concrete(s) => true,
        EdgeLabel::Abstract(h) => forall|p: Pkt, g: Guess| #[trigger]
            stops_in::<C>(w, s0, vars, dfa, h, a, i, p, g) ==> cut.joined(
                node_of(w, s0, cut.ids@, a, i, p),
                1,
                g,
                end_span(a, k, i, w.region(s0, a, i, p)),
            ),
    }
}

/// What a network covers stays covered when it grows.
proof fn lemma_covers<'a, 'c, C: Candidate<'a>>(
    w: &Around<'c, C>,
    s0: SPPstore,
    vars: Filling<C::Var>,
    dfa: &'a ExplicitDFA,
    cut: CutGraph,
    c0: CutGraph,
    k: nat,
    n: nat,
)
    requires
        c0.ok(k, n),
        cut.grows(c0),
    ensures
        forall|a: usize, k: int, i: int, j: int|
            covers::<C>(w, s0, vars, dfa, c0, a, k, i, j) ==> #[trigger] covers::<C>(
                w,
                s0,
                vars,
                dfa,
                cut,
                a,
                k,
                i,
                j,
            ),
        forall|a: usize, k: int, i: int|
            covers_end::<C>(w, s0, vars, dfa, c0, a, k, i) ==> #[trigger] covers_end::<C>(
                w,
                s0,
                vars,
                dfa,
                cut,
                a,
                k,
                i,
            ),
{
    cut.lemma_grows(c0, k, n);
    assert forall|a: usize, k: int, i: int, j: int|
        covers::<C>(w, s0, vars, dfa, c0, a, k, i, j) implies #[trigger] covers::<C>(
        w,
        s0,
        vars,
        dfa,
        cut,
        a,
        k,
        i,
        j,
    ) by {
        let e = w.inst.graph.edges@[a as int]@[k];
        let jt = lands(w.inst, e.1, j);
        if 0 <= i <= j && jt < w.t().len() {
            match e.0 {
                EdgeLabel::Concrete(s) => {
                    if i == j {
                        assert forall|p: Pkt, m: Pkt| #[trigger]
                            passes_by(w, s0, s, a, i, e.1, jt, p, m) implies cut.linked(
                            cut.ids@[a as int]@[i],
                            cut.ids@[e.1 as int]@[jt],
                        ) by {
                            assert(c0.linked(c0.ids@[a as int]@[i], c0.ids@[e.1 as int]@[jt]));
                        }
                    }
                },
                EdgeLabel::Abstract(h) => {
                    assert forall|p: Pkt, m: Pkt, g: Guess| #[trigger]
                        through::<C>(w, s0, vars, dfa, h, a, i, e.1, j, jt, p, m, g)
                        implies cut.joined(
                        node_of(w, s0, cut.ids@, a, i, p),
                        node_of(w, s0, cut.ids@, e.1, jt, m),
                        g,
                        hole_span(a, k, i, j, w.region(s0, a, i, p), w.region(s0, e.1, jt, m)),
                    ) by {
                        assert(c0.joined(
                            node_of(w, s0, c0.ids@, a, i, p),
                            node_of(w, s0, c0.ids@, e.1, jt, m),
                            g,
                            hole_span(a, k, i, j, w.region(s0, a, i, p), w.region(s0, e.1, jt, m)),
                        ));
                    }
                },
            }
        }
    }
    assert forall|a: usize, k: int, i: int|
        covers_end::<C>(w, s0, vars, dfa, c0, a, k, i) implies #[trigger] covers_end::<C>(
        w,
        s0,
        vars,
        dfa,
        cut,
        a,
        k,
        i,
    ) by {
        if 0 <= i < w.t().len() {
            match w.inst.graph.ends@[a as int]@[k] {
                EdgeLabel::Concrete(s) => {},
                EdgeLabel::Abstract(h) => {
                    assert forall|p: Pkt, g: Guess| #[trigger]
                        stops_in::<C>(w, s0, vars, dfa, h, a, i, p, g) implies cut.joined(
                        node_of(w, s0, cut.ids@, a, i, p),
                        1,
                        g,
                        end_span(a, k, i, w.region(s0, a, i, p)),
                    ) by {
                        assert(c0.joined(
                            node_of(w, s0, c0.ids@, a, i, p),
                            1,
                            g,
                            end_span(a, k, i, w.region(s0, a, i, p)),
                        ));
                    }
                },
            }
        }
    }
}


/// The literal is on a hole at edge `k` that leads from the one node of its edge to
/// the other.
pub open spec fn carried<'a, 'c, C: Candidate<'a>>(
    w: &Around<'c, C>,
    s0: SPPstore,
    vars: Filling<C::Var>,
    dfa: &'a ExplicitDFA,
    ids: Seq<Vec<usize>>,
    u: usize,
    v: usize,
    g: Guess,
    a: usize,
    k: int,
    i: int,
    j: int,
    p: Pkt,
    m: Pkt,
) -> bool {
    &&& a < w.inst.graph.states@.len()
    &&& 0 <= k < w.inst.graph.edges@[a as int]@.len()
    &&& w.inst.graph.edges@[a as int]@[k].0 is Abstract
    &&& 0 <= i <= j
    &&& lands(w.inst, w.inst.graph.edges@[a as int]@[k].1, j) < w.t().len()
    &&& p.len() == s0.n()
    &&& m.len() == s0.n()
    &&& label_lang(
        s0,
        guess_fill::<C>(vars, s0, dfa, g),
        w.inst.graph.edges@[a as int]@[k].0,
    )(span_word(p, w.t().subrange(i + 1, j + 1), m))
    &&& node_of(w, s0, ids, a, i, p) == u
    &&& node_of(
        w,
        s0,
        ids,
        w.inst.graph.edges@[a as int]@[k].1,
        lands(w.inst, w.inst.graph.edges@[a as int]@[k].1, j),
        m,
    ) == v
}

/// The literal is on a hole at end `k` that has the rest of the word from the node.
pub open spec fn carried_end<'a, 'c, C: Candidate<'a>>(
    w: &Around<'c, C>,
    s0: SPPstore,
    vars: Filling<C::Var>,
    dfa: &'a ExplicitDFA,
    ids: Seq<Vec<usize>>,
    u: usize,
    g: Guess,
    a: usize,
    k: int,
    i: int,
    p: Pkt,
) -> bool {
    &&& a < w.inst.graph.states@.len()
    &&& 0 <= k < w.inst.graph.ends@[a as int]@.len()
    &&& w.inst.graph.ends@[a as int]@[k] is Abstract
    &&& 0 <= i < w.t().len()
    &&& p.len() == s0.n()
    &&& label_lang(s0, guess_fill::<C>(vars, s0, dfa, g), w.inst.graph.ends@[a as int]@[k])(
        span_word(p, w.t().subrange(i + 1, w.t().len() as int), w.output@),
    )
    &&& node_of(w, s0, ids, a, i, p) == u
}

/// The hole of the way leads from the one node to the other, with what the guess puts in it.
pub open spec fn passes<'a, 'c, C: Candidate<'a>>(
    w: &Around<'c, C>,
    s0: SPPstore,
    vars: Filling<C::Var>,
    dfa: &'a ExplicitDFA,
    ids: Seq<Vec<usize>>,
    u: usize,
    v: usize,
    g: Guess,
    s: Span,
) -> bool {
    if s.end {
        &&& v == 1
        &&& s == end_span(s.a, s.k, s.i, s.src)
        &&& exists|p: Pkt| #[trigger]
            carried_end::<C>(w, s0, vars, dfa, ids, u, g, s.a, s.k, s.i, p) && w.region(
                s0,
                s.a,
                s.i,
                p,
            ) == s.src
    } else {
        exists|p: Pkt, m: Pkt| #[trigger]
            carried::<C>(w, s0, vars, dfa, ids, u, v, g, s.a, s.k, s.i, s.j, p, m) && w.region(
                s0,
                s.a,
                s.i,
                p,
            ) == s.src && w.region(
                s0,
                w.inst.graph.edges@[s.a as int]@[s.k].1,
                lands(w.inst, w.inst.graph.edges@[s.a as int]@[s.k].1, s.j),
                m,
            ) == s.tgt
    }
}

/// What the literals claim: a hole leads along their edges.
#[verifier::opaque]
pub open spec fn meant<'a, 'c, C: Candidate<'a>>(
    w: &Around<'c, C>,
    s0: SPPstore,
    vars: Filling<C::Var>,
    dfa: &'a ExplicitDFA,
    cut: CutGraph,
) -> bool {
    forall|l: int, g: Guess|
        0 <= l < cut.claims@.len() && #[trigger] cut.claims@[l](g) ==> passes::<C>(
            w,
            s0,
            vars,
            dfa,
            cut.ids@,
            cut.arc(l).0,
            cut.arc(l).1,
            g,
            cut.spans@[l],
        )
}

/// More edges, whose literals claim that a hole leads along them.
proof fn lemma_meant<'a, 'c, C: Candidate<'a>>(
    w: &Around<'c, C>,
    s0: SPPstore,
    vars: Filling<C::Var>,
    dfa: &'a ExplicitDFA,
    cut: CutGraph,
    c0: CutGraph,
    k: nat,
    n: nat,
)
    requires
        c0.ok(k, n),
        cut.grows(c0),
        meant::<C>(w, s0, vars, dfa, c0),
        forall|l: int, g: Guess|
            c0.claims@.len() <= l < cut.claims@.len() && #[trigger] cut.claims@[l](g)
                ==> passes::<C>(
                w,
                s0,
                vars,
                dfa,
                cut.ids@,
                cut.arc(l).0,
                cut.arc(l).1,
                g,
                cut.spans@[l],
            ),
    ensures
        meant::<C>(w, s0, vars, dfa, cut),
{
    reveal(meant);
    assert forall|l: int, g: Guess|
        0 <= l < cut.claims@.len() && #[trigger] cut.claims@[l](g) implies passes::<C>(
        w,
        s0,
        vars,
        dfa,
        cut.ids@,
        cut.arc(l).0,
        cut.arc(l).1,
        g,
        cut.spans@[l],
    ) by {
        if l < c0.claims@.len() {
            assert(cut.spans@[l] == c0.spans@[l]);
            assert(cut.claims@[l] == c0.claims@[l]);
            assert(cut.spots@[l] == c0.spots@[l]);
            assert(c0.claims@[l](g));
            assert(c0.spots@[l] < c0.arcs().len());
            assert(cut.arcs()[c0.spots@[l] as int] == c0.arcs()[c0.spots@[l] as int]);
        }
    }
}

/// A step of a relation along edge `k` leads from a place between, at the one node, to
/// another, at the other node.
pub open spec fn steps_by<'c, C: ENFA>(
    w: &Around<'c, C>,
    s0: SPPstore,
    ids: Seq<Vec<usize>>,
    u: usize,
    v: usize,
    a: usize,
    k: int,
    i: int,
    p: Pkt,
    m: Pkt,
) -> bool {
    let e = w.inst.graph.edges@[a as int]@[k];
    let jt = lands(w.inst, e.1, i);
    &&& has_edge(w.inst, a, k)
    &&& 0 <= i
    &&& jt < w.t().len()
    &&& e.0 matches EdgeLabel::Concrete(s) && passes_by(w, s0, s, a, i, e.1, jt, p, m)
    &&& u == ids[a as int]@[i]
    &&& v == ids[e.1 as int]@[jt]
}

/// Steps of a relation lead from the one node to the other.
pub open spec fn stepped<'c, C: ENFA>(
    w: &Around<'c, C>,
    s0: SPPstore,
    ids: Seq<Vec<usize>>,
    u: usize,
    v: usize,
) -> bool {
    exists|a: usize, k: int, i: int, p: Pkt, m: Pkt| #[trigger]
        steps_by(w, s0, ids, u, v, a, k, i, p, m)
}

/// The edges that no cut of holes takes out stand for steps of relations.
#[verifier::opaque]
pub open spec fn grounded<'c, C: ENFA>(w: &Around<'c, C>, s0: SPPstore, cut: CutGraph) -> bool {
    forall|e: int|
        0 <= e < cut.arcs().len() && (#[trigger] cut.arcs()[e]).2 != 1 ==> stepped(
            w,
            s0,
            cut.ids@,
            cut.arcs()[e].0,
            cut.arcs()[e].1,
        )
}

/// More edges, for holes or for steps of relations.
proof fn lemma_real<'c, C: ENFA>(
    w: &Around<'c, C>,
    s0: SPPstore,
    cut: CutGraph,
    c0: CutGraph,
)
    requires
        cut.grows(c0),
        grounded(w, s0, c0),
        forall|e: int|
            c0.arcs().len() <= e < cut.arcs().len() && (#[trigger] cut.arcs()[e]).2 != 1
                ==> stepped(w, s0, cut.ids@, cut.arcs()[e].0, cut.arcs()[e].1),
    ensures
        grounded(w, s0, cut),
{
    reveal(grounded);
    assert forall|e: int| 0 <= e < cut.arcs().len() && (#[trigger] cut.arcs()[e]).2 != 1
        implies stepped(w, s0, cut.ids@, cut.arcs()[e].0, cut.arcs()[e].1) by {
        if e < c0.arcs().len() {
            assert(cut.arcs()[e] == c0.arcs()[e]);
        }
    }
}

/// What holds while the network is built.
pub open spec fn building<'a, 'c, C: Candidate<'a>, L: SmtLearner<'a>>(
    w: &Around<'c, C>,
    s0: SPPstore,
    st: SPPstore,
    cut: CutGraph,
    l: L,
    o: L,
    vars: Filling<C::Var>,
    dfa: &'a ExplicitDFA,
) -> bool {
    &&& w.ok(s0, st)
    &&& cut.ok(w.inst.graph.states@.len(), w.trace@.len())
    &&& banked(l, o, st.sp, cut.lits@, cut.claims@)
    &&& dfa.valid(s0)
    &&& s0.n() == o.n()
    &&& vars_ok::<C, L>(vars, o, dfa)
    &&& forall|h: Hole| #[trigger] w.inst.aut.uses(h) ==> vars.has(h)
    &&& !enfa_lang(w.inst, s0)(w.t().push(w.output@))
    &&& meant::<C>(w, s0, vars, dfa, cut)
    &&& grounded(w, s0, cut)
}

/// What is reached and what goes on have no place in common.
proof fn lemma_apart<'c, C: ENFA>(w: &Around<'c, C>, s0: SPPstore, st: SPPstore, a: usize, i: int, p: Pkt)
    requires
        w.ok(s0, st),
        !enfa_lang(w.inst, s0)(w.t().push(w.output@)),
        0 <= i < w.t().len(),
        w.fwd(s0, a, i, p),
    ensures
        !w.bwd(s0, a, i, p),
{
    let t = w.t();
    assert forall|j: int| 0 <= j < t.len() implies (#[trigger] t[j]).len() == s0.n() by {
        assert(t[j] == w.trace@[j]@);
    }
    lemma_not_both(w.inst, s0, t, w.output@, a, i, p);
}

/// The edge lies in the automaton.
pub open spec fn has_edge<C: ENFA>(x: &Instantiate<C>, a: usize, k: int) -> bool {
    &&& a < x.graph.states@.len()
    &&& x.graph.edges@.len() == x.graph.states@.len()
    &&& 0 <= k < x.graph.edges@[a as int]@.len()
    &&& x.graph.edges@[a as int]@[k].1 < x.graph.states@.len()
}

proof fn lemma_building<'a, 'c, C: Candidate<'a>, L: SmtLearner<'a>>(
    w: &Around<'c, C>,
    s0: SPPstore,
    st: SPPstore,
    s1: SPPstore,
    cut: CutGraph,
    l: L,
    o: L,
    vars: Filling<C::Var>,
    dfa: &'a ExplicitDFA,
)
    requires
        building::<C, L>(w, s0, s1, cut, l, o, vars, dfa),
        st.wf(),
        st.extends(&s1),
    ensures
        building::<C, L>(w, s0, st, cut, l, o, vars, dfa),
{
    w.lemma_ok(s0, st, s1);
    lemma_bank_store(l, o, st.sp, s1.sp, cut.lits@, cut.claims@);
}

/// The node of a region of a state and position.
fn node_for(region: Region, q: usize, i: usize, ids: &Vec<Vec<usize>>) -> (v: usize)
    requires
        q < ids@.len(),
        i < ids@[q as int]@.len(),
    ensures
        v == (match region {
            Region::Fwd => 0,
            Region::Bwd => 1,
            Region::Int => ids@[q as int]@[i as int],
        }),
{
    match region {
        Region::Fwd => 0,
        Region::Bwd => 1,
        Region::Int => ids[q][i],
    }
}

/// The edges of the network for a concrete edge of the automaton.
fn concrete_arcs<'a, 'c, C: Candidate<'a>, L: SmtLearner<'a>>(
    w: &Around<'c, C>,
    store: &mut SPPstore,
    cut: &mut CutGraph,
    a: usize,
    k: usize,
    s: SPP,
    Ghost(s0): Ghost<SPPstore>,
    Ghost(l): Ghost<L>,
    Ghost(o): Ghost<L>,
    Ghost(vars): Ghost<Filling<C::Var>>,
    Ghost(dfa): Ghost<&'a ExplicitDFA>,
) -> (b: bool)
    requires
        building::<C, L>(w, s0, *old(store), *old(cut), l, o, vars, dfa),
        has_edge(w.inst, a, k as int),
        w.inst.graph.edges@[a as int]@[k as int].0 == EdgeLabel::Concrete(s),
        s0.has(s),
    ensures
        building::<C, L>(w, s0, *final(store), *final(cut), l, o, vars, dfa),
        final(store).extends(old(store)),
        final(cut).grows(*old(cut)),
        final(cut).spans == old(cut).spans,
        b ==> forall|i: int, j: int| #[trigger]
            covers::<C>(w, s0, vars, dfa, *final(cut), a, k as int, i, j),
        final(cut).arcs().len() <= old(cut).arcs().len() + w.trace@.len(),
        !b ==> final(cut).arcs().len() >= MAX_ARCS,
{
    let ghost c0 = *cut;
    let ghost so = *store;
    let n: usize = w.trace.len();
    let ghost kk = w.inst.graph.states@.len();
    let b: usize = w.inst.graph.edges[a][k].1;
    let shown: bool = w.inst.graph.states[b].visible;
    let mut i: usize = 0;
    proof {
        assert forall|y: int, j: int| y != j implies #[trigger] covers::<C>(
            w,
            s0,
            vars,
            dfa,
            *cut,
            a,
            k as int,
            y,
            j,
        ) by {}
    }
    while i < n
        invariant
            n == w.trace@.len(),
            kk == w.inst.graph.states@.len(),
            building::<C, L>(w, s0, *store, *cut, l, o, vars, dfa),
            so == *old(store),
            c0 == *old(cut),
            store.extends(&so),
            c0.ok(kk, n as nat),
            cut.grows(c0),
            cut.spans == c0.spans,
            cut.lits == c0.lits,
            cut.claims == c0.claims,
            cut.arcs().len() <= c0.arcs().len() + i,
            has_edge(w.inst, a, k as int),
            w.inst.graph.edges@[a as int]@[k as int].0 == EdgeLabel::Concrete(s),
            s0.has(s),
            b == w.inst.graph.edges@[a as int]@[k as int].1,
            shown == w.inst.graph.states@[b as int].visible,
            i <= n,
            forall|y: int, j: int|
                (y != j || y < i) ==> #[trigger] covers::<C>(
                    w,
                    s0,
                    vars,
                    dfa,
                    *cut,
                    a,
                    k as int,
                    y,
                    j,
                ),
        decreases n - i,
    {
        let ghost c1 = *cut;
        let ghost s1 = *store;
        if !(shown && i + 1 >= n) {
            let it: usize = if shown {
                i + 1
            } else {
                i
            };
            let src = w.region_sp(store, a, i, Region::Int, Ghost(s0));
            let ghost s2 = *store;
            let tgt = w.region_sp(store, b, it, Region::Int, Ghost(s0));
            let ghost s3 = *store;
            proof {
                s2.lemma_sets_n();
                s3.lemma_wf();
                s3.lemma_sets_n();
            }
            let pushed = store.push(src, s);
            let ghost s4 = *store;
            proof {
                s4.lemma_wf();
                s4.lemma_sets_n();
            }
            let img = store.sp.intersect(pushed, tgt);
            let ghost s5 = *store;
            proof {
                store.lemma_sets(&s4);
                store.lemma_sets_n();
                lemma_building::<C, L>(w, s0, s5, s1, c1, l, o, vars, dfa);
            }
            if !store.sp.is_zero(img) {
                let u: usize = cut.ids[a][i];
                let v: usize = cut.ids[b][it];
                let done = cut.add_link(u, v, Ghost(kk), Ghost(n as nat));
                proof {
                    lemma_covers::<C>(w, s0, vars, dfa, *cut, c1, kk, n as nat);
                    lemma_meant::<C>(w, s0, vars, dfa, *cut, c1, kk, n as nat);
                    s5.sp.lemma_nonzero(img);
                    let m = choose|m: Pkt| m.len() == s5.sp.n() && s5.sp.mem(img, m);
                    assert(s4.sp.mem(pushed, m));
                    assert(s4.sp.mem(tgt, m));
                    assert(s3.sp.mem(tgt, m));
                    let p = choose|p: Pkt|
                        #![trigger s3.sp.mem(src, p)]
                        p.len() == s3.n() && s3.sp.mem(src, p) && s3.rel(s, p, m);
                    assert(s2.sp.mem(src, p));
                    assert(s0.rel(s, p, m));
                    assert(passes_by(w, s0, s, a, i as int, b, it as int, p, m));
                    assert(steps_by(w, s0, cut.ids@, u, v, a, k as int, i as int, p, m));
                    lemma_real(w, s0, *cut, c1);
                }
                if !done {
                    return false;
                }
                proof {
                    assert(covers::<C>(w, s0, vars, dfa, *cut, a, k as int, i as int, i as int));
                }
            } else {
                proof {
                    assert forall|p: Pkt, m: Pkt|
                        !(#[trigger] passes_by(w, s0, s, a, i as int, b, it as int, p, m)) by {
                        if passes_by(w, s0, s, a, i as int, b, it as int, p, m) {
                            assert(s2.sp.mem(src, p));
                            assert(s3.sp.mem(src, p));
                            assert(s3.rel(s, p, m));
                            assert(s4.sp.mem(pushed, m));
                            assert(s3.sp.mem(tgt, m));
                            assert(s4.sp.mem(tgt, m));
                            assert(s5.sp.mem(img, m));
                        }
                    }
                    assert(covers::<C>(w, s0, vars, dfa, *cut, a, k as int, i as int, i as int));
                }
            }
        } else {
            proof {
                assert(covers::<C>(w, s0, vars, dfa, *cut, a, k as int, i as int, i as int));
            }
        }
        i = i + 1;
    }
    proof {
        assert forall|y: int, j: int| #[trigger] covers::<C>(
            w,
            s0,
            vars,
            dfa,
            *cut,
            a,
            k as int,
            y,
            j,
        ) by {
            if y == j && y >= n {
                assert(lands(w.inst, b, j) >= n);
            }
        }
    }
    true
}

/// The edge of the network for a hole between two regions.
fn hole_pair<'a, 'c, C: Candidate<'a>, L: SmtLearner<'a>>(
    w: &Around<'c, C>,
    store: &mut SPPstore,
    cut: &mut CutGraph,
    learner: &mut L,
    var: C::Var,
    dfa: &'a ExplicitDFA,
    a: usize,
    i: usize,
    b: usize,
    j: usize,
    jt: usize,
    src: Region,
    tgt: Region,
    h: Hole,
    Ghost(s0): Ghost<SPPstore>,
    Ghost(o): Ghost<L>,
    Ghost(vars): Ghost<Filling<C::Var>>,
    Ghost(k): Ghost<int>,
) -> (r: bool)
    requires
        building::<C, L>(w, s0, *old(store), *old(cut), *old(learner), o, vars, dfa),
        a < w.inst.graph.states@.len(),
        b < w.inst.graph.states@.len(),
        i <= j <= jt < w.trace@.len(),
        has_edge(w.inst, a, k),
        w.inst.graph.edges@[a as int]@[k].0 == EdgeLabel::Abstract(h),
        w.inst.graph.edges@[a as int]@[k].1 == b,
        jt == lands(w.inst, b, j as int),
        vars.has(h),
        var == vars.val(h),
        !(src is Bwd),
        !(tgt is Fwd),
        !old(cut).spans@.contains(hole_span(a, k, i as int, j as int, src, tgt)),
    ensures
        more_by(
            final(cut).spans@,
            old(cut).spans@,
            hole_span(a, k, i as int, j as int, src, tgt),
        ),
        building::<C, L>(w, s0, *final(store), *final(cut), *final(learner), o, vars, dfa),
        final(store).extends(old(store)),
        final(cut).grows(*old(cut)),
        r ==> forall|p: Pkt, m: Pkt, g: Guess| #[trigger]
            through::<C>(w, s0, vars, dfa, h, a, i as int, b, j as int, jt as int, p, m, g)
                && w.within(s0, src, a, i as int, p) && w.within(s0, tgt, b, jt as int, m)
                ==> final(cut).joined(
                node_of(w, s0, final(cut).ids@, a, i as int, p),
                node_of(w, s0, final(cut).ids@, b, jt as int, m),
                g,
                hole_span(a, k, i as int, j as int, src, tgt),
            ),
        final(cut).arcs().len() <= old(cut).arcs().len() + 1,
        !r ==> final(cut).arcs().len() >= MAX_ARCS,
{
    let ghost c0 = *cut;
    let ghost s1 = *store;
    let ghost l1 = *learner;
    let ghost kk = w.inst.graph.states@.len();
    let n: usize = w.trace.len();
    let in_sp = w.region_sp(store, a, i, src, Ghost(s0));
    let ghost s2 = *store;
    let out_sp = w.region_sp(store, b, jt, tgt, Ghost(s0));
    let ghost s3 = *store;
    proof {
        s2.lemma_sets_n();
        s2.lemma_wf();
        s3.lemma_wf();
        s3.lemma_sets_n();
        lemma_building::<C, L>(w, s0, s3, s1, c0, l1, o, vars, dfa);
    }
    if store.sp.is_zero(in_sp) || store.sp.is_zero(out_sp) {
        proof {
            assert forall|p: Pkt, m: Pkt, g: Guess|
                !(#[trigger] through::<C>(
                    w,
                    s0,
                    vars,
                    dfa,
                    h,
                    a,
                    i as int,
                    b,
                    j as int,
                    jt as int,
                    p,
                    m,
                    g,
                ) && w.within(s0, src, a, i as int, p) && w.within(s0, tgt, b, jt as int, m)) by {
                if p.len() == s0.n() && m.len() == s0.n() && w.within(s0, src, a, i as int, p)
                    && w.within(s0, tgt, b, jt as int, m) {
                    assert(s2.sp.mem(in_sp, p));
                    assert(s3.sp.mem(in_sp, p));
                    assert(s3.sp.mem(out_sp, m));
                }
            }
        }
        return true;
    }
    let part = part_of(w.trace, i, j);
    let u = node_for(src, a, i, &cut.ids);
    let v = node_for(tgt, b, jt, &cut.ids);
    proof {
        assert(cut.ids@[a as int]@[i as int] < node_total(cut.net));
        assert(cut.ids@[b as int]@[jt as int] < node_total(cut.net));
        assert(C::placed(vars.val(h), o.slots(), o.automata(), dfa));
    }
    let r = add_span::<C, L>(
        cut,
        var,
        learner,
        store,
        dfa,
        in_sp,
        out_sp,
        part,
        u,
        v,
        Ghost(o),
        Ghost(s0),
        Ghost(kk),
        Ghost(n as nat),
        Ghost(hole_span(a, k, i as int, j as int, src, tgt)),
    );
    proof {
        w.lemma_ok(s0, *store, s3);
        assert forall|l: int, g: Guess|
            c0.claims@.len() <= l < cut.claims@.len() && #[trigger] cut.claims@[l](g)
            implies passes::<C>(
            w,
            s0,
            vars,
            dfa,
            cut.ids@,
            cut.arc(l).0,
            cut.arc(l).1,
            g,
            cut.spans@[l],
        ) by {
            assert(cut.spans@[l] == hole_span(a, k, i as int, j as int, src, tgt));
            let ts = packets(part@);
            assert(bridged::<C>(var, s0, dfa, g, s3.sp, in_sp, out_sp, ts));
            let (p, m) = choose|p: Pkt, m: Pkt|
                p.len() == s0.n() && m.len() == s0.n() && s3.sp.mem(in_sp, p) && s3.sp.mem(
                    out_sp,
                    m,
                ) && #[trigger] slot_has::<C>(var, s0, dfa, g, p, ts, m);
            assert(s2.sp.mem(in_sp, p));
            assert(w.within(s0, src, a, i as int, p));
            assert(w.within(s0, tgt, b, jt as int, m));
            if w.fwd(s0, b, jt as int, m) {
                lemma_apart(w, s0, s3, b, jt as int, m);
            }
            assert(carried::<C>(
                w, s0, vars, dfa, cut.ids@, u, v, g, a, k, i as int, j as int, p, m,
            ));
        }
        lemma_meant::<C>(w, s0, vars, dfa, *cut, c0, kk, n as nat);
        lemma_real(w, s0, *cut, c0);
        if r {
            assert forall|p: Pkt, m: Pkt, g: Guess| #[trigger]
                through::<C>(w, s0, vars, dfa, h, a, i as int, b, j as int, jt as int, p, m, g)
                    && w.within(s0, src, a, i as int, p) && w.within(s0, tgt, b, jt as int, m)
                implies cut.joined(
                node_of(w, s0, cut.ids@, a, i as int, p),
                node_of(w, s0, cut.ids@, b, jt as int, m),
                g,
                hole_span(a, k, i as int, j as int, src, tgt),
            ) by {
                assert(s2.sp.mem(in_sp, p));
                assert(s3.sp.mem(in_sp, p));
                assert(s3.sp.mem(out_sp, m));
                assert(slot_has::<C>(var, s0, dfa, g, p, packets(part@), m));
            }
        }
    }
    r
}


/// One more row, and no more than all.
proof fn lemma_square(i: int, n: int)
    requires
        0 <= i < n,
    ensures
        i * n + n <= n * n,
        (i + 1) * n == i * n + n,
        i * n >= 0,
{
    assert(i * n + n <= n * n) by (nonlinear_arith)
        requires
            0 <= i < n,
    ;
    assert((i + 1) * n == i * n + n) by (nonlinear_arith);
    assert(i * n >= 0) by (nonlinear_arith)
        requires
            0 <= i < n,
    ;
}

/// The edges of the network for a hole that is the label of an edge.
fn hole_arcs<'a, 'c, C: Candidate<'a>, L: SmtLearner<'a>>(
    w: &Around<'c, C>,
    store: &mut SPPstore,
    cut: &mut CutGraph,
    learner: &mut L,
    vars: &Filling<C::Var>,
    dfa: &'a ExplicitDFA,
    a: usize,
    k: usize,
    h: Hole,
    Ghost(s0): Ghost<SPPstore>,
    Ghost(o): Ghost<L>,
) -> (r: bool)
    requires
        building::<C, L>(w, s0, *old(store), *old(cut), *old(learner), o, *vars, dfa),
        has_edge(w.inst, a, k as int),
        w.inst.graph.edges@[a as int]@[k as int].0 == EdgeLabel::Abstract(h),
        vars.has(h),
        untried(old(cut).spans@, false, a, k as int),
    ensures
        r ==> forall|l: int|
            old(cut).spans@.len() <= l < final(cut).spans@.len() ==> !(
            #[trigger] final(cut).spans@[l]).end && final(cut).spans@[l].a == a && final(cut).spans@[l].k == k,
        building::<C, L>(w, s0, *final(store), *final(cut), *final(learner), o, *vars, dfa),
        final(store).extends(old(store)),
        final(cut).grows(*old(cut)),
        r ==> forall|i: int, j: int| #[trigger]
            covers::<C>(w, s0, *vars, dfa, *final(cut), a, k as int, i, j),
        final(cut).arcs().len() <= old(cut).arcs().len() + 4 * (w.trace@.len() * w.trace@.len()),
        !r ==> final(cut).arcs().len() >= MAX_ARCS,
{
    let ghost c0 = *cut;
    let ghost so = *store;
    let n: usize = w.trace.len();
    let ghost kk = w.inst.graph.states@.len();
    let b: usize = w.inst.graph.edges[a][k].1;
    let shown: bool = w.inst.graph.states[b].visible;
    let var: C::Var = match vars.get(&h) {
        Some(v) => *v,
        None => {
            return false;
        },
    };
    let mut i: usize = 0;
    while i < n
        invariant
            so == *old(store),
            c0 == *old(cut),
            n == w.trace@.len(),
            kk == w.inst.graph.states@.len(),
            building::<C, L>(w, s0, *store, *cut, *learner, o, *vars, dfa),
            store.extends(&so),
            c0.ok(kk, n as nat),
            cut.grows(c0),
            has_edge(w.inst, a, k as int),
            w.inst.graph.edges@[a as int]@[k as int].0 == EdgeLabel::Abstract(h),
            vars.has(h),
            var == vars.val(h),
            b == w.inst.graph.edges@[a as int]@[k as int].1,
            shown == w.inst.graph.states@[b as int].visible,
            i <= n,
            untried(c0.spans@, false, a, k as int),
            forall|l: int|
                c0.spans@.len() <= l < cut.spans@.len() ==> !(#[trigger] cut.spans@[l]).end
                    && cut.spans@[l].a == a && cut.spans@[l].k == k && cut.spans@[l].i < i,
            cut.arcs().len() <= c0.arcs().len() + 4 * (i * n),
            forall|y: int, z: int|
                y < i ==> #[trigger] covers::<C>(w, s0, *vars, dfa, *cut, a, k as int, y, z),
        decreases n - i,
    {
        let mut j: usize = i;
        proof {
            assert forall|y: int, z: int| (y < i || (y == i && z < j)) implies #[trigger] covers::<
                C,
            >(w, s0, *vars, dfa, *cut, a, k as int, y, z) by {}
        }
        while j < n
            invariant
                so == *old(store),
                c0 == *old(cut),
                n == w.trace@.len(),
                kk == w.inst.graph.states@.len(),
                building::<C, L>(w, s0, *store, *cut, *learner, o, *vars, dfa),
                store.extends(&so),
                c0.ok(kk, n as nat),
                cut.grows(c0),
                has_edge(w.inst, a, k as int),
                w.inst.graph.edges@[a as int]@[k as int].0 == EdgeLabel::Abstract(h),
                vars.has(h),
                var == vars.val(h),
                b == w.inst.graph.edges@[a as int]@[k as int].1,
                shown == w.inst.graph.states@[b as int].visible,
                i < n,
                i <= j <= n,
                untried(c0.spans@, false, a, k as int),
                forall|l: int|
                    c0.spans@.len() <= l < cut.spans@.len() ==> !(#[trigger] cut.spans@[l]).end
                        && cut.spans@[l].a == a && cut.spans@[l].k == k && (cut.spans@[l].i < i || (
                    cut.spans@[l].i == i && cut.spans@[l].j < j)),
                cut.arcs().len() <= c0.arcs().len() + 4 * (i * n) + 4 * (j - i),
                forall|y: int, z: int|
                    (y < i || (y == i && z < j)) ==> #[trigger] covers::<C>(
                        w,
                        s0,
                        *vars,
                        dfa,
                        *cut,
                        a,
                        k as int,
                        y,
                        z,
                    ),
            decreases n - j,
        {
            if shown && j + 1 >= n {
                proof {
                    assert(covers::<C>(w, s0, *vars, dfa, *cut, a, k as int, i as int, j as int));
                }
            } else {
                let jt: usize = if shown {
                    j + 1
                } else {
                    j
                };
                let ghost c1 = *cut;
                let ghost e1 = hole_span(a, k as int, i as int, j as int, Region::Fwd, Region::Int);
                let ghost e2 = hole_span(a, k as int, i as int, j as int, Region::Fwd, Region::Bwd);
                let ghost e3 = hole_span(a, k as int, i as int, j as int, Region::Int, Region::Int);
                let ghost e4 = hole_span(a, k as int, i as int, j as int, Region::Int, Region::Bwd);
                proof {
                    assert forall|e: Span|
                        !e.end && e.a == a && e.k == k && e.i == i && e.j == j
                        implies !(#[trigger] c1.spans@.contains(e)) by {
                        if c1.spans@.contains(e) {
                            let l = choose|l: int| 0 <= l < c1.spans@.len() && c1.spans@[l] == e;
                            if l < c0.spans@.len() {
                                assert(c1.spans@[l] == c0.spans@[l]);
                            }
                        }
                    }
                }
                let r1 = hole_pair::<C, L>(
                    w, store, cut, learner, var, dfa, a, i, b, j, jt, Region::Fwd, Region::Int, h,
                    Ghost(s0), Ghost(o), Ghost(*vars), Ghost(k as int),
                );
                let ghost c2 = *cut;
                proof {
                    lemma_more_by(c2.spans@, c1.spans@, e1, e2);
                    lemma_more_by(c2.spans@, c1.spans@, e1, e3);
                    lemma_more_by(c2.spans@, c1.spans@, e1, e4);
                }
                let r2 = hole_pair::<C, L>(
                    w, store, cut, learner, var, dfa, a, i, b, j, jt, Region::Fwd, Region::Bwd, h,
                    Ghost(s0), Ghost(o), Ghost(*vars), Ghost(k as int),
                );
                let ghost c3 = *cut;
                proof {
                    lemma_more_by(c3.spans@, c2.spans@, e2, e3);
                    lemma_more_by(c3.spans@, c2.spans@, e2, e4);
                }
                let r3 = hole_pair::<C, L>(
                    w, store, cut, learner, var, dfa, a, i, b, j, jt, Region::Int, Region::Int, h,
                    Ghost(s0), Ghost(o), Ghost(*vars), Ghost(k as int),
                );
                let ghost c4 = *cut;
                proof {
                    lemma_more_by(c4.spans@, c3.spans@, e3, e4);
                }
                let r4 = hole_pair::<C, L>(
                    w, store, cut, learner, var, dfa, a, i, b, j, jt, Region::Int, Region::Bwd, h,
                    Ghost(s0), Ghost(o), Ghost(*vars), Ghost(k as int),
                );
                let ghost c5 = *cut;
                if !(r1 && r2 && r3 && r4) {
                    proof {
                        lemma_square(i as int, n as int);
                    }
                    return false;
                }
                proof {
                    assert forall|l: int| c0.spans@.len() <= l < c5.spans@.len() implies !(
                    #[trigger] c5.spans@[l]).end && c5.spans@[l].a == a && c5.spans@[l].k == k && (
                    c5.spans@[l].i < i || (c5.spans@[l].i == i && c5.spans@[l].j < j + 1)) by {
                        if l < c1.spans@.len() {
                            assert(c5.spans@[l] == c1.spans@[l]);
                        } else {
                            assert(c5.spans@[l] == e1 || c5.spans@[l] == e2 || c5.spans@[l] == e3
                                || c5.spans@[l] == e4);
                        }
                    }
                    c5.lemma_grows(c4, kk, n as nat);
                    c4.lemma_grows(c3, kk, n as nat);
                    c3.lemma_grows(c2, kk, n as nat);
                    assert forall|p: Pkt, m: Pkt, g: Guess| #[trigger]
                        through::<C>(
                            w,
                            s0,
                            *vars,
                            dfa,
                            h,
                            a,
                            i as int,
                            b,
                            j as int,
                            jt as int,
                            p,
                            m,
                            g,
                        ) implies c5.joined(
                        node_of(w, s0, c5.ids@, a, i as int, p),
                        node_of(w, s0, c5.ids@, b, jt as int, m),
                        g,
                        hole_span(
                            a,
                            k as int,
                            i as int,
                            j as int,
                            w.region(s0, a, i as int, p),
                            w.region(s0, b, jt as int, m),
                        ),
                    ) by {
                        let u = node_of(w, s0, c5.ids@, a, i as int, p);
                        let v = node_of(w, s0, c5.ids@, b, jt as int, m);
                        let fp = w.within(s0, Region::Fwd, a, i as int, p);
                        let bm = w.within(s0, Region::Bwd, b, jt as int, m);
                        assert(fp || w.within(s0, Region::Int, a, i as int, p));
                        assert(bm || w.within(s0, Region::Int, b, jt as int, m));
                        if fp && !bm {
                            assert(c2.joined(u, v, g, e1));
                            assert(c3.joined(u, v, g, e1));
                            assert(c4.joined(u, v, g, e1));
                            assert(c5.joined(u, v, g, e1));
                        } else if fp && bm {
                            assert(c3.joined(u, v, g, e2));
                            assert(c4.joined(u, v, g, e2));
                            assert(c5.joined(u, v, g, e2));
                        } else if !fp && !bm {
                            assert(c4.joined(u, v, g, e3));
                            assert(c5.joined(u, v, g, e3));
                        } else {
                            assert(c5.joined(u, v, g, e4));
                        }
                    }
                    lemma_covers::<C>(w, s0, *vars, dfa, c5, c1, kk, n as nat);
                    assert(covers::<C>(w, s0, *vars, dfa, c5, a, k as int, i as int, j as int));
                }
            }
            j = j + 1;
        }
        proof {
            assert forall|y: int, z: int| y < i + 1 implies #[trigger] covers::<C>(
                w,
                s0,
                *vars,
                dfa,
                *cut,
                a,
                k as int,
                y,
                z,
            ) by {
                if y == i && z >= n {
                    assert(lands(w.inst, b, z) >= n);
                }
            }
        }
        proof {
            lemma_square(i as int, n as int);
        }
        i = i + 1;
    }
    proof {
        assert forall|y: int, z: int| #[trigger] covers::<C>(
            w,
            s0,
            *vars,
            dfa,
            *cut,
            a,
            k as int,
            y,
            z,
        ) by {
            if y >= n && z >= y {
                assert(lands(w.inst, b, z) >= n);
            }
        }
    }
    true
}

/// The edge of the network from a region for a hole in which a run ends.
fn end_pair<'a, 'c, C: Candidate<'a>, L: SmtLearner<'a>>(
    w: &Around<'c, C>,
    store: &mut SPPstore,
    cut: &mut CutGraph,
    learner: &mut L,
    var: C::Var,
    dfa: &'a ExplicitDFA,
    a: usize,
    i: usize,
    src: Region,
    h: Hole,
    Ghost(s0): Ghost<SPPstore>,
    Ghost(o): Ghost<L>,
    Ghost(vars): Ghost<Filling<C::Var>>,
    Ghost(k): Ghost<int>,
) -> (r: bool)
    requires
        building::<C, L>(w, s0, *old(store), *old(cut), *old(learner), o, vars, dfa),
        a < w.inst.graph.states@.len(),
        i < w.trace@.len(),
        0 <= k < w.inst.graph.ends@[a as int]@.len(),
        w.inst.graph.ends@[a as int]@[k] == EdgeLabel::Abstract(h),
        vars.has(h),
        var == vars.val(h),
        !(src is Bwd),
        !old(cut).spans@.contains(end_span(a, k, i as int, src)),
    ensures
        more_by(final(cut).spans@, old(cut).spans@, end_span(a, k, i as int, src)),
        building::<C, L>(w, s0, *final(store), *final(cut), *final(learner), o, vars, dfa),
        final(store).extends(old(store)),
        final(cut).grows(*old(cut)),
        r ==> forall|p: Pkt, g: Guess| #[trigger]
            stops_in::<C>(w, s0, vars, dfa, h, a, i as int, p, g) && w.within(
                s0,
                src,
                a,
                i as int,
                p,
            ) ==> final(cut).joined(
                node_of(w, s0, final(cut).ids@, a, i as int, p),
                1,
                g,
                end_span(a, k, i as int, src),
            ),
        final(cut).arcs().len() <= old(cut).arcs().len() + 1,
        !r ==> final(cut).arcs().len() >= MAX_ARCS,
{
    let ghost c0 = *cut;
    let ghost s1 = *store;
    let ghost l1 = *learner;
    let ghost kk = w.inst.graph.states@.len();
    let n: usize = w.trace.len();
    let in_sp = w.region_sp(store, a, i, src, Ghost(s0));
    let ghost s2 = *store;
    let out_sp = singleton_sp(store, w.output);
    let ghost s3 = *store;
    proof {
        s2.lemma_sets_n();
        s2.lemma_wf();
        s3.lemma_wf();
        s3.lemma_sets_n();
        lemma_building::<C, L>(w, s0, s3, s1, c0, l1, o, vars, dfa);
        assert(s3.sp.mem(out_sp, w.output@));
        s3.sp.lemma_nonzero(out_sp);
    }
    if store.sp.is_zero(in_sp) {
        proof {
            assert forall|p: Pkt, g: Guess|
                !(#[trigger] stops_in::<C>(w, s0, vars, dfa, h, a, i as int, p, g) && w.within(
                    s0,
                    src,
                    a,
                    i as int,
                    p,
                )) by {
                if p.len() == s0.n() && w.within(s0, src, a, i as int, p) {
                    assert(s2.sp.mem(in_sp, p));
                    assert(s3.sp.mem(in_sp, p));
                }
            }
        }
        return true;
    }
    let part = part_of(w.trace, i, n - 1);
    let u = node_for(src, a, i, &cut.ids);
    proof {
        assert(cut.ids@[a as int]@[i as int] < node_total(cut.net));
        assert(C::placed(vars.val(h), o.slots(), o.automata(), dfa));
    }
    let r = add_span::<C, L>(
        cut,
        var,
        learner,
        store,
        dfa,
        in_sp,
        out_sp,
        part,
        u,
        1,
        Ghost(o),
        Ghost(s0),
        Ghost(kk),
        Ghost(n as nat),
        Ghost(end_span(a, k, i as int, src)),
    );
    proof {
        w.lemma_ok(s0, *store, s3);
        assert forall|l: int, g: Guess|
            c0.claims@.len() <= l < cut.claims@.len() && #[trigger] cut.claims@[l](g)
            implies passes::<C>(
            w,
            s0,
            vars,
            dfa,
            cut.ids@,
            cut.arc(l).0,
            cut.arc(l).1,
            g,
            cut.spans@[l],
        ) by {
            assert(cut.spans@[l] == end_span(a, k, i as int, src));
            let ts = packets(part@);
            assert(bridged::<C>(var, s0, dfa, g, s3.sp, in_sp, out_sp, ts));
            let (p, m) = choose|p: Pkt, m: Pkt|
                p.len() == s0.n() && m.len() == s0.n() && s3.sp.mem(in_sp, p) && s3.sp.mem(
                    out_sp,
                    m,
                ) && #[trigger] slot_has::<C>(var, s0, dfa, g, p, ts, m);
            assert(s2.sp.mem(in_sp, p));
            assert(w.within(s0, src, a, i as int, p));
            assert(m == w.output@);
            assert(carried_end::<C>(w, s0, vars, dfa, cut.ids@, u, g, a, k, i as int, p));
        }
        lemma_meant::<C>(w, s0, vars, dfa, *cut, c0, kk, n as nat);
        lemma_real(w, s0, *cut, c0);
        if r {
            assert forall|p: Pkt, g: Guess| #[trigger]
                stops_in::<C>(w, s0, vars, dfa, h, a, i as int, p, g) && w.within(
                    s0,
                    src,
                    a,
                    i as int,
                    p,
                ) implies cut.joined(
                node_of(w, s0, cut.ids@, a, i as int, p),
                1,
                g,
                end_span(a, k, i as int, src),
            ) by {
                assert(s2.sp.mem(in_sp, p));
                assert(s3.sp.mem(in_sp, p));
                assert(slot_has::<C>(var, s0, dfa, g, p, packets(part@), w.output@));
            }
        }
    }
    r
}

/// The edges of the network for a hole in which a run ends.
fn end_arcs<'a, 'c, C: Candidate<'a>, L: SmtLearner<'a>>(
    w: &Around<'c, C>,
    store: &mut SPPstore,
    cut: &mut CutGraph,
    learner: &mut L,
    vars: &Filling<C::Var>,
    dfa: &'a ExplicitDFA,
    a: usize,
    k: usize,
    h: Hole,
    Ghost(s0): Ghost<SPPstore>,
    Ghost(o): Ghost<L>,
) -> (r: bool)
    requires
        building::<C, L>(w, s0, *old(store), *old(cut), *old(learner), o, *vars, dfa),
        a < w.inst.graph.states@.len(),
        k < w.inst.graph.ends@[a as int]@.len(),
        w.inst.graph.ends@[a as int]@[k as int] == EdgeLabel::Abstract(h),
        vars.has(h),
        untried(old(cut).spans@, true, a, k as int),
    ensures
        r ==> forall|l: int|
            old(cut).spans@.len() <= l < final(cut).spans@.len() ==> (#[trigger] final(cut).spans@[l]).end && final(cut).spans@[l].a == a && final(cut).spans@[l].k == k,
        building::<C, L>(w, s0, *final(store), *final(cut), *final(learner), o, *vars, dfa),
        final(store).extends(old(store)),
        final(cut).grows(*old(cut)),
        r ==> forall|i: int| #[trigger]
            covers_end::<C>(w, s0, *vars, dfa, *final(cut), a, k as int, i),
        final(cut).arcs().len() <= old(cut).arcs().len() + 2 * w.trace@.len(),
        !r ==> final(cut).arcs().len() >= MAX_ARCS,
{
    let ghost c0 = *cut;
    let ghost so = *store;
    let n: usize = w.trace.len();
    let ghost kk = w.inst.graph.states@.len();
    let var: C::Var = match vars.get(&h) {
        Some(v) => *v,
        None => {
            return false;
        },
    };
    let mut i: usize = 0;
    while i < n
        invariant
            so == *old(store),
            c0 == *old(cut),
            n == w.trace@.len(),
            kk == w.inst.graph.states@.len(),
            building::<C, L>(w, s0, *store, *cut, *learner, o, *vars, dfa),
            store.extends(&so),
            c0.ok(kk, n as nat),
            cut.grows(c0),
            a < w.inst.graph.states@.len(),
            k < w.inst.graph.ends@[a as int]@.len(),
            w.inst.graph.ends@[a as int]@[k as int] == EdgeLabel::Abstract(h),
            vars.has(h),
            var == vars.val(h),
            untried(c0.spans@, true, a, k as int),
            forall|l: int|
                c0.spans@.len() <= l < cut.spans@.len() ==> (#[trigger] cut.spans@[l]).end
                    && cut.spans@[l].a == a && cut.spans@[l].k == k && cut.spans@[l].i < i,
            cut.arcs().len() <= c0.arcs().len() + 2 * i,
            i <= n,
            forall|y: int|
                y < i ==> #[trigger] covers_end::<C>(w, s0, *vars, dfa, *cut, a, k as int, y),
        decreases n - i,
    {
        let ghost c1 = *cut;
        let ghost e1 = end_span(a, k as int, i as int, Region::Fwd);
        let ghost e2 = end_span(a, k as int, i as int, Region::Int);
        proof {
            assert forall|e: Span| e.end && e.a == a && e.k == k && e.i == i implies !(
            #[trigger] c1.spans@.contains(e)) by {
                if c1.spans@.contains(e) {
                    let l = choose|l: int| 0 <= l < c1.spans@.len() && c1.spans@[l] == e;
                    if l < c0.spans@.len() {
                        assert(c1.spans@[l] == c0.spans@[l]);
                    }
                }
            }
        }
        let r1 = end_pair::<C, L>(
            w, store, cut, learner, var, dfa, a, i, Region::Fwd, h, Ghost(s0), Ghost(o),
            Ghost(*vars), Ghost(k as int),
        );
        let ghost c2 = *cut;
        proof {
            lemma_more_by(c2.spans@, c1.spans@, e1, e2);
        }
        let r2 = end_pair::<C, L>(
            w, store, cut, learner, var, dfa, a, i, Region::Int, h, Ghost(s0), Ghost(o),
            Ghost(*vars), Ghost(k as int),
        );
        let ghost c3 = *cut;
        if !(r1 && r2) {
            return false;
        }
        proof {
            assert forall|l: int| c0.spans@.len() <= l < c3.spans@.len() implies (
            #[trigger] c3.spans@[l]).end && c3.spans@[l].a == a && c3.spans@[l].k == k
                && c3.spans@[l].i < i + 1 by {
                if l < c1.spans@.len() {
                    assert(c3.spans@[l] == c1.spans@[l]);
                } else {
                    assert(c3.spans@[l] == e1 || c3.spans@[l] == e2);
                }
            }
            c3.lemma_grows(c2, kk, n as nat);
            assert forall|p: Pkt, g: Guess| #[trigger]
                stops_in::<C>(w, s0, *vars, dfa, h, a, i as int, p, g) implies c3.joined(
                node_of(w, s0, c3.ids@, a, i as int, p),
                1,
                g,
                end_span(a, k as int, i as int, w.region(s0, a, i as int, p)),
            ) by {
                let u = node_of(w, s0, c3.ids@, a, i as int, p);
                if w.within(s0, Region::Fwd, a, i as int, p) {
                    assert(c2.joined(u, 1, g, e1));
                    assert(c3.joined(u, 1, g, e1));
                } else {
                    assert(w.within(s0, Region::Int, a, i as int, p));
                    assert(c3.joined(u, 1, g, e2));
                }
            }
            lemma_covers::<C>(w, s0, *vars, dfa, c3, c1, kk, n as nat);
            assert(covers_end::<C>(w, s0, *vars, dfa, c3, a, k as int, i as int));
        }
        i = i + 1;
    }
    true
}


/// All edges of the states before `a`, and the first `k` of `a`, are covered.
spec fn edges_covered<'a, 'c, C: Candidate<'a>>(
    w: &Around<'c, C>,
    s0: SPPstore,
    vars: Filling<C::Var>,
    dfa: &'a ExplicitDFA,
    cut: CutGraph,
    a: int,
    ka: int,
) -> bool {
    forall|b: usize, k: int, i: int, j: int|
        (b < a || (b == a && k < ka)) && b < w.inst.graph.states@.len() && 0 <= k
            < w.inst.graph.edges@[b as int]@.len() ==> #[trigger] covers::<C>(
            w,
            s0,
            vars,
            dfa,
            cut,
            b,
            k,
            i,
            j,
        )
}

/// All ends of the states before `a`, and the first `k` of `a`, are covered.
spec fn ends_covered<'a, 'c, C: Candidate<'a>>(
    w: &Around<'c, C>,
    s0: SPPstore,
    vars: Filling<C::Var>,
    dfa: &'a ExplicitDFA,
    cut: CutGraph,
    a: int,
    ka: int,
) -> bool {
    forall|b: usize, k: int, i: int|
        (b < a || (b == a && k < ka)) && b < w.inst.graph.states@.len() && 0 <= k
            < w.inst.graph.ends@[b as int]@.len() ==> #[trigger] covers_end::<C>(
            w,
            s0,
            vars,
            dfa,
            cut,
            b,
            k,
            i,
        )
}

/// No more edges than this lie in the network of the first `a` states.
pub open spec fn arc_bound<C: ENFA>(x: &Instantiate<C>, n: nat, a: nat) -> nat
    decreases a,
{
    if a == 0 {
        0
    } else {
        arc_bound(x, n, (a - 1) as nat) + x.graph.edges@[a - 1]@.len() * (4 * (n * n))
            + x.graph.ends@[a - 1]@.len() * (2 * n)
    }
}

/// The network of the automaton along a word of `n` packets is too large.
pub open spec fn too_large<C: ENFA>(x: &Instantiate<C>, n: nat) -> bool {
    2 + x.graph.states@.len() * n > MAX_NODES || arc_bound(x, n, x.graph.states@.len()) >= MAX_ARCS
}

/// More states have no fewer edges.
proof fn lemma_bound_more<C: ENFA>(x: &Instantiate<C>, n: nat, a: nat, b: nat)
    requires
        a <= b,
    ensures
        arc_bound(x, n, a) <= arc_bound(x, n, b),
    decreases b - a,
{
    if a < b {
        lemma_bound_more(x, n, a, (b - 1) as nat);
        let e = x.graph.edges@[b - 1]@.len();
        let f = x.graph.ends@[b - 1]@.len();
        assert(e * (4 * (n * n)) >= 0 && f * (2 * n) >= 0) by (nonlinear_arith);
    }
}

/// Some of the edges and ends of a state, and the next one.
proof fn lemma_parts_bound<C: ENFA>(x: &Instantiate<C>, n: nat, a: usize, e: nat, f: nat)
    requires
        n >= 1,
        a < x.graph.states@.len(),
        e <= x.graph.edges@[a as int]@.len(),
        f <= x.graph.ends@[a as int]@.len(),
    ensures
        n <= 4 * (n * n),
        e * (4 * (n * n)) + 4 * (n * n) == (e + 1) * (4 * (n * n)),
        f * (2 * n) + 2 * n == (f + 1) * (2 * n),
        e < x.graph.edges@[a as int]@.len() ==> arc_bound(x, n, a as nat) + (e + 1) * (4 * (n * n))
            <= arc_bound(x, n, x.graph.states@.len()),
        f < x.graph.ends@[a as int]@.len() ==> arc_bound(x, n, a as nat)
            + x.graph.edges@[a as int]@.len() * (4 * (n * n)) + (f + 1) * (2 * n) <= arc_bound(
            x,
            n,
            x.graph.states@.len(),
        ),
{
    let ee = x.graph.edges@[a as int]@.len();
    let ff = x.graph.ends@[a as int]@.len();
    let q = 4 * (n * n);
    let d = 2 * n;
    lemma_bound_more(x, n, (a + 1) as nat, x.graph.states@.len());
    assert(n <= 4 * (n * n)) by (nonlinear_arith)
        requires
            n >= 1,
    ;
    assert(e * q + q == (e + 1) * q) by (nonlinear_arith);
    assert(f * d + d == (f + 1) * d) by (nonlinear_arith);
    if e < ee {
        assert((e + 1) * q <= ee * q) by (nonlinear_arith)
            requires
                e + 1 <= ee,
        ;
    }
    if f < ff {
        assert((f + 1) * d <= ff * d) by (nonlinear_arith)
            requires
                f + 1 <= ff,
        ;
    }
    assert(ff * d >= 0) by (nonlinear_arith);
}

/// Builds the network of the places.  `false` if it gets too large.
fn build_network<'a, 'c, C: Candidate<'a>, L: SmtLearner<'a>>(
    w: &Around<'c, C>,
    store: &mut SPPstore,
    cut: &mut CutGraph,
    learner: &mut L,
    vars: &Filling<C::Var>,
    dfa: &'a ExplicitDFA,
    Ghost(s0): Ghost<SPPstore>,
    Ghost(o): Ghost<L>,
) -> (r: bool)
    requires
        building::<C, L>(w, s0, *old(store), *old(cut), *old(learner), o, *vars, dfa),
        old(cut).spans@.len() == 0,
    ensures
        building::<C, L>(w, s0, *final(store), *final(cut), *final(learner), o, *vars, dfa),
        final(store).extends(old(store)),
        final(cut).ids == old(cut).ids,
        r ==> edges_covered::<C>(
            w,
            s0,
            *vars,
            dfa,
            *final(cut),
            w.inst.graph.states@.len() as int,
            0,
        ) && ends_covered::<C>(
            w,
            s0,
            *vars,
            dfa,
            *final(cut),
            w.inst.graph.states@.len() as int,
            0,
        ),
        !r ==> old(cut).arcs().len() + arc_bound(
            w.inst,
            w.trace@.len(),
            w.inst.graph.states@.len(),
        ) >= MAX_ARCS,
{
    let ghost c0 = *cut;
    let ghost so = *store;
    let ghost kk = w.inst.graph.states@.len();
    let ghost n = w.trace@.len();
    let mut a: usize = 0;
    while a < w.inst.graph.states.len()
        invariant
            so == *old(store),
            kk == w.inst.graph.states@.len(),
            n == w.trace@.len(),
            building::<C, L>(w, s0, *store, *cut, *learner, o, *vars, dfa),
            store.extends(&so),
            a <= kk,
            c0 == *old(cut),
            cut.ids == c0.ids,
            forall|l: int| 0 <= l < cut.spans@.len() ==> (#[trigger] cut.spans@[l]).a < a,
            cut.arcs().len() <= c0.arcs().len() + arc_bound(w.inst, n, a as nat),
            edges_covered::<C>(w, s0, *vars, dfa, *cut, a as int, 0),
            ends_covered::<C>(w, s0, *vars, dfa, *cut, a as int, 0),
        decreases w.inst.graph.states.len() - a,
    {
        proof {
            w.inst.lemma_row(s0, a as int);
            assert(graph_row(w.inst.aut, s0, w.inst.graph, a as int));
        }
        let mut k: usize = 0;
        while k < w.inst.graph.edges[a].len()
            invariant
                so == *old(store),
                kk == w.inst.graph.states@.len(),
                n == w.trace@.len(),
                building::<C, L>(w, s0, *store, *cut, *learner, o, *vars, dfa),
                store.extends(&so),
                a < kk,
                w.inst.graph.edges@.len() == kk,
                w.inst.graph.ends@.len() == kk,
                graph_row(w.inst.aut, s0, w.inst.graph, a as int),
                k <= w.inst.graph.edges@[a as int]@.len(),
                c0 == *old(cut),
                cut.ids == c0.ids,
                forall|l: int|
                    0 <= l < cut.spans@.len() ==> (#[trigger] cut.spans@[l]).a < a || (
                    cut.spans@[l].a == a && !cut.spans@[l].end && cut.spans@[l].k < k),
                cut.arcs().len() <= c0.arcs().len() + arc_bound(w.inst, n, a as nat) + k * (4 * (n
                    * n)),
                edges_covered::<C>(w, s0, *vars, dfa, *cut, a as int, k as int),
                ends_covered::<C>(w, s0, *vars, dfa, *cut, a as int, 0),
            decreases w.inst.graph.edges@[a as int]@.len() - k,
        {
            let ghost c1 = *cut;
            proof {
                let ts = targets(w.inst.graph.states@, w.inst.graph.edges@[a as int]@);
                assert(label_ok(w.inst.aut, s0, ts[k as int].0));
                assert(w.inst.graph.edges@[a as int]@[k as int].1 < kk);
            }
            let done = match w.inst.graph.edges[a][k].0 {
                EdgeLabel::Concrete(s) => concrete_arcs::<C, L>(
                    w, store, cut, a, k, s, Ghost(s0), Ghost(*learner), Ghost(o), Ghost(*vars),
                    Ghost(dfa),
                ),
                EdgeLabel::Abstract(h) => hole_arcs::<C, L>(
                    w, store, cut, learner, vars, dfa, a, k, h, Ghost(s0), Ghost(o),
                ),
            };
            proof {
                lemma_parts_bound(w.inst, n, a, k as nat, 0);
            }
            if !done {
                return false;
            }
            proof {
                lemma_covers::<C>(w, s0, *vars, dfa, *cut, c1, kk, n);
                assert forall|l: int| 0 <= l < cut.spans@.len() implies (
                #[trigger] cut.spans@[l]).a < a || (cut.spans@[l].a == a && !cut.spans@[l].end
                    && cut.spans@[l].k < k + 1) by {
                    if l < c1.spans@.len() {
                        assert(cut.spans@[l] == c1.spans@[l]);
                    }
                }
            }
            k = k + 1;
        }
        proof {
            assert(edges_covered::<C>(w, s0, *vars, dfa, *cut, a + 1, 0));
        }
        let mut k: usize = 0;
        while k < w.inst.graph.ends[a].len()
            invariant
                so == *old(store),
                kk == w.inst.graph.states@.len(),
                n == w.trace@.len(),
                building::<C, L>(w, s0, *store, *cut, *learner, o, *vars, dfa),
                store.extends(&so),
                a < kk,
                w.inst.graph.ends@.len() == kk,
                graph_row(w.inst.aut, s0, w.inst.graph, a as int),
                k <= w.inst.graph.ends@[a as int]@.len(),
                c0 == *old(cut),
                cut.ids == c0.ids,
                forall|l: int|
                    0 <= l < cut.spans@.len() ==> (#[trigger] cut.spans@[l]).a < a || (
                    cut.spans@[l].a == a && (!cut.spans@[l].end || cut.spans@[l].k < k)),
                cut.arcs().len() <= c0.arcs().len() + arc_bound(w.inst, n, a as nat)
                    + w.inst.graph.edges@[a as int]@.len() * (4 * (n * n)) + k * (2 * n),
                edges_covered::<C>(w, s0, *vars, dfa, *cut, a + 1, 0),
                ends_covered::<C>(w, s0, *vars, dfa, *cut, a as int, k as int),
            decreases w.inst.graph.ends@[a as int]@.len() - k,
        {
            let ghost c1 = *cut;
            assert(label_ok(w.inst.aut, s0, w.inst.graph.ends@[a as int]@[k as int]));
            match w.inst.graph.ends[a][k] {
                EdgeLabel::Concrete(_) => {
                    proof {
                        lemma_parts_bound(
                            w.inst,
                            n,
                            a,
                            w.inst.graph.edges@[a as int]@.len(),
                            k as nat,
                        );
                        assert forall|i: int| #[trigger] covers_end::<C>(
                            w,
                            s0,
                            *vars,
                            dfa,
                            *cut,
                            a,
                            k as int,
                            i,
                        ) by {}
                    }
                },
                EdgeLabel::Abstract(h) => {
                    let done = end_arcs::<C, L>(
                        w, store, cut, learner, vars, dfa, a, k, h, Ghost(s0), Ghost(o),
                    );
                    proof {
                        lemma_parts_bound(
                            w.inst,
                            n,
                            a,
                            w.inst.graph.edges@[a as int]@.len(),
                            k as nat,
                        );
                    }
                    if !done {
                        return false;
                    }
                    proof {
                        lemma_covers::<C>(w, s0, *vars, dfa, *cut, c1, kk, n);
                        assert forall|l: int| 0 <= l < cut.spans@.len() implies (
                        #[trigger] cut.spans@[l]).a < a || (cut.spans@[l].a == a && (
                        !cut.spans@[l].end || cut.spans@[l].k < k + 1)) by {
                            if l < c1.spans@.len() {
                                assert(cut.spans@[l] == c1.spans@[l]);
                            }
                        }
                    }
                },
            }
            k = k + 1;
        }
        proof {
            assert(ends_covered::<C>(w, s0, *vars, dfa, *cut, a + 1, 0));
        }
        a = a + 1;
    }
    true
}

/// Edges of capacity 1 let out no more than there are of them.
proof fn lemma_outgoing(arcs: Seq<Arc>, k: nat)
    requires
        k <= arcs.len(),
        forall|e: int| 0 <= e < arcs.len() && (#[trigger] arcs[e]).0 == 0 ==> arcs[e].2 == 1,
    ensures
        outgoing(arcs, 0, k) <= k,
    decreases k,
{
    if k > 0 {
        lemma_outgoing(arcs, (k - 1) as nat);
        let e = arcs[k - 1];
        assert(e.0 == 0 ==> e.2 == 1);
    }
}

/// The edges of a side that are no holes stay on it.
pub open spec fn holds_together(arcs: Seq<Arc>, side: Seq<bool>) -> bool {
    forall|e: int|
        0 <= e < arcs.len() && (#[trigger] arcs[e]).2 != 1 && side[arcs[e].0 as int]
            ==> side[arcs[e].1 as int]
}

/// How many edges of holes leave the side, among the first `k`.
pub open spec fn crossings(arcs: Seq<Arc>, side: Seq<bool>, k: nat) -> nat
    decreases k,
{
    if k == 0 || k > arcs.len() {
        0
    } else {
        let e = arcs[k - 1];
        crossings(arcs, side, (k - 1) as nat) + if e.2 == 1 && side[e.0 as int]
            && !side[e.1 as int] {
            1nat
        } else {
            0
        }
    }
}

/// The side has node 0 and not node 1, and is left by holes alone.
pub open spec fn is_side(nodes: nat, arcs: Seq<Arc>, side: Seq<bool>) -> bool {
    &&& side.len() == nodes
    &&& side[0]
    &&& !side[1]
    &&& holds_together(arcs, side)
}

/// The capacity of a side that is left by holes alone is their number.
proof fn lemma_crossings(arcs: Seq<Arc>, side: Seq<bool>, r: spec_fn(usize) -> bool, k: nat)
    requires
        k <= arcs.len(),
        holds_together(arcs, side),
        forall|e: int|
            0 <= e < arcs.len() ==> r((#[trigger] arcs[e]).0) == side[arcs[e].0 as int] && r(
                arcs[e].1,
            ) == side[arcs[e].1 as int],
    ensures
        cut_capacity(arcs, r, k) == crossings(arcs, side, k),
    decreases k,
{
    if k > 0 {
        lemma_crossings(arcs, side, r, (k - 1) as nat);
        let e = arcs[k - 1];
        assert(r(arcs[k - 1].0) == side[arcs[k - 1].0 as int]);
    }
}

/// No more edges leave a side than there are; fewer, if one of them is no hole.
proof fn lemma_few_crossings(arcs: Seq<Arc>, side: Seq<bool>, d: int, k: nat)
    requires
        0 <= d < arcs.len(),
        arcs[d].2 != 1,
        k <= arcs.len(),
    ensures
        crossings(arcs, side, k) + if d < k {
            1int
        } else {
            0
        } <= k,
    decreases k,
{
    if k > 0 {
        lemma_few_crossings(arcs, side, d, (k - 1) as nat);
    }
}

/// The capacity of a side is at least that of an edge that leaves it.
proof fn lemma_one_leaves(arcs: Seq<Arc>, r: spec_fn(usize) -> bool, d: int, k: nat)
    requires
        0 <= d < arcs.len(),
        r(arcs[d].0),
        !r(arcs[d].1),
        k <= arcs.len(),
    ensures
        cut_capacity(arcs, r, k) >= if d < k {
            arcs[d].2 as int
        } else {
            0
        },
    decreases k,
{
    if k > 0 {
        lemma_one_leaves(arcs, r, d, (k - 1) as nat);
    }
}

/// A side of the network that has node 0, has not node 1, and is left by holes alone:
/// that of a minimum cut.  No other such side is left by fewer holes.
fn cut_side(cut: &CutGraph, Ghost(k): Ghost<nat>, Ghost(n): Ghost<nat>) -> (side: Vec<bool>)
    requires
        cut.ok(k, n),
    ensures
        is_side(node_total(cut.net), cut.arcs(), side@),
        forall|other: Seq<bool>| #[trigger]
            is_side(node_total(cut.net), cut.arcs(), other) ==> crossings(
                cut.arcs(),
                side@,
                cut.arcs().len(),
            ) <= crossings(cut.arcs(), other, cut.arcs().len()),
{
    let ghost nodes = node_total(cut.net);
    let ghost arcs = cut.arcs();
    proof {
        lemma_outgoing(arcs, arcs.len());
    }
    let side = min_cut_side(&cut.net, 0, 1);
    proof {
        let flows = choose|flows: Seq<u32>| #[trigger]
            is_maximum(arcs, flows, 0, 1) && forall|v: usize|
                v < nodes ==> (#[trigger] side@[v as int] <==> reaches(arcs, flows, 0, v));
        let r = |v: usize| reaches(arcs, flows, 0, v);
        assert forall|e: int| 0 <= e < arcs.len() implies r((#[trigger] arcs[e]).0)
            == side@[arcs[e].0 as int] && r(arcs[e].1) == side@[arcs[e].1 as int] by {
            assert(arcs_of(cut.net)[e].0 < nodes && arcs_of(cut.net)[e].1 < nodes);
        }
        assert(holds_together(arcs, side@)) by {
            assert forall|d: int|
                0 <= d < arcs.len() && (#[trigger] arcs[d]).2 != 1 && side@[arcs[d].0 as int]
                implies side@[arcs[d].1 as int] by {
                if !side@[arcs[d].1 as int] {
                    let alone = Seq::new(nodes, |v: int| v == 0);
                    let z = |v: usize| v == 0;
                    assert forall|e: int| 0 <= e < arcs.len() implies z((#[trigger] arcs[e]).0)
                        == alone[arcs[e].0 as int] && z(arcs[e].1) == alone[arcs[e].1 as int] by {
                        assert(arcs_of(cut.net)[e].0 < nodes && arcs_of(cut.net)[e].1 < nodes);
                    }
                    assert(holds_together(arcs, alone)) by {
                        assert forall|e: int|
                            0 <= e < arcs.len() && (#[trigger] arcs[e]).2 != 1
                                && alone[arcs[e].0 as int] implies alone[arcs[e].1 as int] by {
                            assert(arcs_of(cut.net)[e].0 < nodes);
                            assert(arcs[e].0 == 0);
                        }
                    }
                    law_cut_least(arcs, flows, 0, 1, nodes, z);
                    lemma_crossings(arcs, alone, z, arcs.len());
                    lemma_few_crossings(arcs, alone, d, arcs.len());
                    lemma_one_leaves(arcs, r, d, arcs.len());
                }
            }
        }
        lemma_crossings(arcs, side@, r, arcs.len());
        assert forall|other: Seq<bool>| #[trigger] is_side(nodes, arcs, other) implies crossings(
            arcs,
            side@,
            arcs.len(),
        ) <= crossings(arcs, other, arcs.len()) by {
            let z = |v: usize| other[v as int];
            law_cut_least(arcs, flows, 0, 1, nodes, z);
            lemma_crossings(arcs, other, z, arcs.len());
        }
    }
    side
}

/// The literal is among the others, with its claim.
spec fn drawn(
    lits: Seq<Literal>,
    claims: Seq<Claim>,
    lits2: Seq<Literal>,
    claims2: Seq<Claim>,
    k: int,
) -> bool {
    exists|j: int| 0 <= j < lits.len() && #[trigger] lits[j] == lits2[k] && claims[j] == claims2[k]
}

/// Some of the literals.
proof fn lemma_bank_some<'a, L: SmtLearner<'a>>(
    l: L,
    o: L,
    st: crate::sp::SPstore,
    lits: Seq<Literal>,
    claims: Seq<Claim>,
    lits2: Seq<Literal>,
    claims2: Seq<Claim>,
)
    requires
        banked(l, o, st, lits, claims),
        lits2.len() == claims2.len(),
        forall|k: int|
            0 <= k < lits2.len() ==> #[trigger] drawn(lits, claims, lits2, claims2, k),
    ensures
        banked(l, o, st, lits2, claims2),
{
    assert forall|k: int| 0 <= k < lits2.len() implies crate::holes::smt::lit_ok(
        #[trigger] lits2[k],
        st,
        l.n(),
        l.slots(),
        crate::holes::smt::widths(l.automata()),
        l.vars(),
    ) by {
        assert(drawn(lits, claims, lits2, claims2, k));
        let j = choose|j: int|
            0 <= j < lits.len() && #[trigger] lits[j] == lits2[k] && claims[j] == claims2[k];
        assert(lits[j] == lits2[k]);
    }
    assert forall|g: Guess, e: crate::holes::smt::Bits| #[trigger] o.allows(g, e)
        implies crate::holes::cegis::banked_for(l, o, st, lits2, claims2, g, e) by {
        assert(crate::holes::cegis::banked_for(l, o, st, lits, claims, g, e));
        reveal(crate::holes::cegis::banked_for);
        let f = choose|f: crate::holes::smt::Bits|
            crate::holes::smt::same_bits(o.vars(), e, f) && #[trigger] l.allows(g, f)
                && crate::holes::cegis::truthful(st, lits, claims, g, f);
        assert(crate::holes::cegis::truthful(st, lits2, claims2, g, f)) by {
            assert forall|k: int| 0 <= k < lits2.len() && (#[trigger] claims2[k])(g)
                implies crate::holes::smt::lit_true(st, lits2[k], g, f) by {
                assert(drawn(lits, claims, lits2, claims2, k));
                let j = choose|j: int|
                    0 <= j < lits.len() && #[trigger] lits[j] == lits2[k] && claims[j]
                        == claims2[k];
                assert(claims[j](g));
            }
        }
    }
    assert(honest(l, st, lits2, claims2)) by {
        reveal(honest);
        assert forall|k: int, g: Guess, e: crate::holes::smt::Bits|
            #![trigger lits2[k], l.allows(g, e)]
            0 <= k < lits2.len() && l.allows(g, e) && crate::holes::smt::lit_true(
                st,
                lits2[k],
                g,
                e,
            ) implies claims2[k](g) by {
            assert(drawn(lits, claims, lits2, claims2, k));
            let j = choose|j: int|
                0 <= j < lits.len() && #[trigger] lits[j] == lits2[k] && claims[j] == claims2[k];
            assert(claims[j](g));
        }
    }
}

/// The claim is that of a literal whose edge leaves the side.
spec fn leaves_side(cut: CutGraph, side: Seq<bool>, claim: Claim) -> bool {
    exists|l: int|
        0 <= l < cut.claims@.len() && #[trigger] cut.claims@[l] == claim
            && side[cut.arc(l).0 as int] && !side[cut.arc(l).1 as int]
}

/// The literals of the edges that leave the side.
fn crossing(cut: CutGraph, side: &Vec<bool>, Ghost(k): Ghost<nat>, Ghost(n): Ghost<nat>) -> (r: (
    Vec<Literal>,
    Ghost<Seq<Claim>>,
))
    requires
        cut.ok(k, n),
        side@.len() == node_total(cut.net),
    ensures
        r.0@.len() == r.1@.len(),
        forall|z: int|
            0 <= z < r.0@.len() ==> #[trigger] drawn(cut.lits@, cut.claims@, r.0@, r.1@, z),
        forall|l: int, u: usize, v: usize, g: Guess| #[trigger]
            cut.joins(l, u, v, g) && side@[u as int] && !side@[v as int] ==> any_claim(r.1@, g),
        forall|z: int| 0 <= z < r.1@.len() ==> #[trigger] leaves_side(cut, side@, r.1@[z]),
{
    let ghost c0 = cut;
    let CutGraph { net, ids, lits, spots, claims, spans } = cut;
    let mut lits = lits;
    let mut spots = spots;
    let arcs = edges(&net);
    let mut chosen: Vec<Literal> = Vec::new();
    let ghost mut cs = Seq::<Claim>::empty();
    while lits.len() > 0
        invariant
            c0.ok(k, n),
            arcs@ == c0.arcs(),
            side@.len() == node_total(c0.net),
            lits@.len() <= c0.lits@.len(),
            spots@.len() == lits@.len(),
            forall|l: int| 0 <= l < lits@.len() ==> #[trigger] lits@[l] == c0.lits@[l],
            forall|l: int| 0 <= l < lits@.len() ==> #[trigger] spots@[l] == c0.spots@[l],
            chosen@.len() == cs.len(),
            forall|z: int|
                0 <= z < chosen@.len() ==> #[trigger] drawn(
                    c0.lits@,
                    c0.claims@,
                    chosen@,
                    cs,
                    z,
                ),
            forall|z: int| 0 <= z < cs.len() ==> #[trigger] leaves_side(c0, side@, cs[z]),
            forall|l: int, u: usize, v: usize, g: Guess| #[trigger]
                c0.joins(l, u, v, g) && l >= lits@.len() && side@[u as int] && !side@[v as int]
                    ==> any_claim(cs, g),
        decreases lits.len(),
    {
        let ghost cs0 = cs;
        let ghost ch0 = chosen@;
        let ghost z = lits@.len() - 1;
        proof {
            assert(lits@[z] == c0.lits@[z]);
            assert(spots@[z] == c0.spots@[z]);
            assert(c0.spots@[z] < c0.arcs().len());
        }
        match (lits.pop(), spots.pop()) {
            (Some(l), Some(e)) => {
                let (u, v, _) = arcs[e];
                assert(arcs_of(c0.net)[e as int].0 < node_total(c0.net));
                if side[u] && !side[v] {
                    chosen.push(l);
                    proof {
                        cs = cs.push(c0.claims@[z]);
                        assert forall|y: int| 0 <= y < cs.len() implies #[trigger] leaves_side(
                            c0,
                            side@,
                            cs[y],
                        ) by {
                            if y < cs0.len() {
                                assert(leaves_side(c0, side@, cs0[y]));
                            } else {
                                assert(c0.claims@[z] == cs[y]);
                            }
                        }
                        assert forall|y: int| 0 <= y < chosen@.len() implies #[trigger] drawn(
                            c0.lits@,
                            c0.claims@,
                            chosen@,
                            cs,
                            y,
                        ) by {
                            if y < ch0.len() {
                                assert(drawn(c0.lits@, c0.claims@, ch0, cs0, y));
                                let j = choose|j: int|
                                    0 <= j < c0.lits@.len() && #[trigger] c0.lits@[j] == ch0[y]
                                        && c0.claims@[j] == cs0[y];
                                assert(c0.lits@[j] == chosen@[y]);
                            } else {
                                assert(c0.lits@[z] == chosen@[y]);
                            }
                        }
                        assert forall|g: Guess| any_claim(cs0, g) implies #[trigger] any_claim(
                            cs,
                            g,
                        ) by {
                            let j = choose|j: int| 0 <= j < cs0.len() && (#[trigger] cs0[j])(g);
                            assert(cs[j] == cs0[j]);
                        }
                        assert forall|g: Guess| c0.claims@[z](g) implies #[trigger] any_claim(
                            cs,
                            g,
                        ) by {
                            assert(cs[cs.len() - 1](g));
                        }
                    }
                }
            },
            _ => {
                assert(false);
            },
        }
    }
    (chosen, Ghost(cs))
}


/// A cut covers every filling with which the automaton has the word: a run on it
/// goes through a hole that leaves the side.
proof fn lemma_cut<'a, 'c, C: Candidate<'a>>(
    w: &Around<'c, C>,
    s0: SPPstore,
    st: SPPstore,
    vars: Filling<C::Var>,
    dfa: &'a ExplicitDFA,
    cut: CutGraph,
    side: Seq<bool>,
    g: Guess,
    goal: bool,
)
    requires
        w.ok(s0, st),
        cut.ok(w.inst.graph.states@.len(), w.trace@.len()),
        w.inst.graph.states@[0].visible,
        forall|h: Hole| #[trigger] w.inst.aut.uses(h) ==> vars.has(h),
        !enfa_lang(w.inst, s0)(w.t().push(w.output@)),
        edges_covered::<C>(w, s0, vars, dfa, cut, w.inst.graph.states@.len() as int, 0),
        ends_covered::<C>(w, s0, vars, dfa, cut, w.inst.graph.states@.len() as int, 0),
        side.len() == node_total(cut.net),
        side[0],
        !side[1],
        holds_together(cut.arcs(), side),
        forall|l: int, u: usize, v: usize| #[trigger]
            cut.joins(l, u, v, g) && side[u as int] && !side[v as int] ==> goal,
        w.inst.aut.accepts(
            s0,
            guess_fill::<C>(vars, s0, dfa, g),
            w.inst.graph.states@[0].aexpr,
            w.t().push(w.output@),
        ),
    ensures
        goal,
{
    let x = w.inst;
    let t = w.t();
    let out = w.output@;
    let n = s0.n();
    let hs = guess_fill::<C>(vars, s0, dfa, g);
    let ids = cut.ids@;
    let ins: Places = |a: usize, i: int, p: Pkt| side[node_of(w, s0, ids, a, i, p) as int];
    assert forall|j: int| 0 <= j < t.len() implies (#[trigger] t[j]).len() == n by {
        assert(t[j] == w.trace@[j]@);
    }
    assert forall|a: usize, i: int, p: Pkt| #[trigger]
        ins(a, i, p) && placed_at(x, s0, t, a, i, p) implies stays(
        x,
        s0,
        hs,
        t,
        out,
        ins,
        goal,
        a,
        i,
        p,
    ) by {
        x.lemma_row(s0, a as int);
        assert(graph_row(x.aut, s0, x.graph, a as int));
        let es = x.graph.edges@[a as int]@;
        let ls = x.graph.ends@[a as int]@;
        let ts0 = targets(x.graph.states@, es);
        let u = node_of(w, s0, ids, a, i, p);
        if w.bwd(s0, a, i, p) && w.fwd(s0, a, i, p) {
            lemma_not_both(x, s0, t, out, a, i, p);
        }
        assert(!w.bwd(s0, a, i, p));
        assert forall|k: int, j: int, m: Pkt, c: nat| #[trigger]
            goes(x, s0, hs, t, out, a, i, p, k, j, m, c) implies goal || ins(
            es[k].1,
            lands(x, es[k].1, j),
            m,
        ) by {
            let b = es[k].1;
            let jt = lands(x, b, j);
            let v = node_of(w, s0, ids, b, jt, m);
            assert(label_ok(x.aut, s0, ts0[k].0));
            assert(covers::<C>(w, s0, vars, dfa, cut, a, k, i, j));
            match es[k].0 {
                EdgeLabel::Concrete(s) => {
                    lemma_one_step(t, s0, s, hs, i, j, p, m);
                    lemma_concrete_step(x, s0, t, a, i, p, k, m);
                    if !w.fwd(s0, b, jt, m) {
                        assert(!w.fwd(s0, a, i, p));
                        if w.bwd(s0, b, jt, m) {
                            lemma_back_step(w, s0, a, i, p, b, m);
                        }
                        assert(passes_by(w, s0, s, a, i, b, jt, p, m));
                        assert(cut.linked(u, v));
                        if u != v {
                            let e = choose|e: int|
                                0 <= e < cut.arcs().len() && (#[trigger] cut.arcs()[e]).0 == u
                                    && cut.arcs()[e].1 == v && cut.arcs()[e].2 != 1;
                            assert(side[cut.arcs()[e].1 as int]);
                        }
                    }
                },
                EdgeLabel::Abstract(h) => {
                    assert(vars.has(h));
                    if !w.fwd(s0, b, jt, m) {
                        assert(slot_has::<C>(
                            vars.val(h),
                            s0,
                            dfa,
                            g,
                            p,
                            t.subrange(i + 1, j + 1),
                            m,
                        ));
                        assert(through::<C>(w, s0, vars, dfa, h, a, i, b, j, jt, p, m, g));
                        assert(cut.joined(
                            u,
                            v,
                            g,
                            hole_span(a, k, i, j, w.region(s0, a, i, p), w.region(s0, b, jt, m)),
                        ));
                        if u != v && !side[v as int] {
                            let l = choose|l: int| #[trigger] cut.joins(l, u, v, g);
                            assert(goal);
                        }
                    }
                },
            }
        }
        assert forall|k: int|
            0 <= k < ls.len() && label_lang(s0, hs, #[trigger] ls[k])(word_from(t, out, i, p))
            implies goal by {
            assert(label_ok(x.aut, s0, ls[k]));
            assert(covers_end::<C>(w, s0, vars, dfa, cut, a, k, i));
            match ls[k] {
                EdgeLabel::Concrete(s) => {
                    lemma_concrete_end(x, s0, hs, t, out, a, i, p, k);
                    assert(w.bwd(s0, a, i, p));
                },
                EdgeLabel::Abstract(h) => {
                    assert(vars.has(h));
                    lemma_end_word(n, t, out, i, p);
                    assert(slot_has::<C>(
                        vars.val(h),
                        s0,
                        dfa,
                        g,
                        p,
                        t.subrange(i + 1, t.len() as int),
                        out,
                    ));
                    assert(stops_in::<C>(w, s0, vars, dfa, h, a, i, p, g));
                    assert(cut.joined(u, 1, g, end_span(a, k, i, w.region(s0, a, i, p))));
                    let l = choose|l: int| #[trigger] cut.joins(l, u, 1, g);
                    assert(goal);
                },
            }
        }
    }
    lemma_start(x, s0, t, out);
    assert(ins(0usize, 0, t[0]));
    let c = choose|c: nat| #[trigger]
        x.aut.takes(s0, hs, x.graph.states@[0].aexpr, t.push(out), c);
    lemma_escape(x, s0, hs, t, out, ins, goal, 0usize, 0, t[0], c);
}

/// A step to a place from which the word goes on.
proof fn lemma_back_step<'c, C: ENFA>(
    w: &Around<'c, C>,
    s0: SPPstore,
    a: usize,
    i: int,
    p: Pkt,
    b: usize,
    m: Pkt,
)
    requires
        forall|j: int| 0 <= j < w.t().len() ==> (#[trigger] w.t()[j]).len() == s0.n(),
        w.output@.len() == s0.n(),
        placed_at(w.inst, s0, w.t(), a, i, p),
        placed_at(w.inst, s0, w.t(), b, lands(w.inst, b, i), m),
        w.inst.step(s0, State::<Place<C>>::Outer(a), p, State::<Place<C>>::Outer(b), m),
        w.bwd(s0, b, lands(w.inst, b, i), m),
    ensures
        w.bwd(s0, a, i, p),
{
    let t = w.t();
    let out = w.output@;
    let q = State::<Place<C>>::Outer(a);
    let r = State::<Place<C>>::Outer(b);
    let v = word_from(t, out, i, p);
    lemma_word_from(s0.n(), t, out, i, p);
    lemma_first(w.inst, s0, q, v);
    assert(v.update(0, m) == word_from(t, out, i, m));
    assert(onward(w.inst, s0, q, v, r, m));
}

/// A step of a relation along edge `k`, between places at which a run can be.
pub open spec fn concrete_step<C: ENFA>(
    x: &Instantiate<C>,
    st: SPPstore,
    t: Seq<Pkt>,
    a: usize,
    k: int,
    i: int,
    p: Pkt,
    m: Pkt,
) -> bool {
    &&& placed_at(x, st, t, a, i, p)
    &&& 0 <= k < x.graph.edges@[a as int]@.len()
    &&& x.graph.edges@[a as int]@[k].0 matches EdgeLabel::Concrete(s) && st.rel(s, p, m)
    &&& placed_at(
        x,
        st,
        t,
        x.graph.edges@[a as int]@[k].1,
        lands(x, x.graph.edges@[a as int]@[k].1, i),
        m,
    )
}

/// The places have all that is reached now and nothing from which the word goes on
/// now, and only holes lead out of them.
pub open spec fn is_cut<C: ENFA>(
    x: &Instantiate<C>,
    st: SPPstore,
    t: Seq<Pkt>,
    out: Pkt,
    ins: Places,
) -> bool {
    &&& forall|a: usize, i: int, p: Pkt|
        placed_at(x, st, t, a, i, p) && reached(x, st, t)(a, i, p) ==> #[trigger] ins(a, i, p)
    &&& forall|a: usize, i: int, p: Pkt|
        placed_at(x, st, t, a, i, p) && completes(
            x,
            st,
            t,
            out,
            State::<Place<C>>::Outer(a),
            i,
            p,
        ) ==> !(#[trigger] ins(a, i, p))
    &&& forall|a: usize, k: int, i: int, p: Pkt, m: Pkt| #[trigger]
        concrete_step(x, st, t, a, k, i, p, m) && ins(a, i, p) ==> ins(
            x.graph.edges@[a as int]@[k].1,
            lands(x, x.graph.edges@[a as int]@[k].1, i),
            m,
        )
}

/// The place is neither reached now nor one from which the word goes on now.
pub open spec fn between<C: ENFA>(
    x: &Instantiate<C>,
    st: SPPstore,
    t: Seq<Pkt>,
    out: Pkt,
    a: usize,
    i: int,
    p: Pkt,
) -> bool {
    &&& a < x.graph.states@.len()
    &&& 0 <= i < t.len()
    &&& p.len() == st.n()
    &&& !follows(x, st, t, State::<Place<C>>::Outer(a), i, p)
    &&& !completes(x, st, t, out, State::<Place<C>>::Outer(a), i, p)
}

/// A step of a relation along edge `k` between places that are between.
pub open spec fn step_between<C: ENFA>(
    x: &Instantiate<C>,
    st: SPPstore,
    t: Seq<Pkt>,
    out: Pkt,
    a: usize,
    k: int,
    i: int,
    p: Pkt,
    m: Pkt,
) -> bool {
    let e = x.graph.edges@[a as int]@[k];
    &&& between(x, st, t, out, a, i, p)
    &&& 0 <= k < x.graph.edges@[a as int]@.len()
    &&& e.0 matches EdgeLabel::Concrete(s) && st.rel(s, p, m)
    &&& between(x, st, t, out, e.1, lands(x, e.1, i), m)
}

/// The places have all that is reached now and nothing from which the word goes on now.
/// Of what is between they have, for a state and a position, all or nothing, and no step
/// of a relation leads out of it.
pub open spec fn state_cut<C: ENFA>(
    x: &Instantiate<C>,
    st: SPPstore,
    t: Seq<Pkt>,
    out: Pkt,
    ins: Places,
) -> bool {
    &&& forall|a: usize, i: int, p: Pkt|
        a < x.graph.states@.len() && 0 <= i < t.len() && p.len() == st.n() && follows(
            x,
            st,
            t,
            State::<Place<C>>::Outer(a),
            i,
            p,
        ) ==> #[trigger] ins(a, i, p)
    &&& forall|a: usize, i: int, p: Pkt|
        a < x.graph.states@.len() && 0 <= i < t.len() && p.len() == st.n() && completes(
            x,
            st,
            t,
            out,
            State::<Place<C>>::Outer(a),
            i,
            p,
        ) ==> !(#[trigger] ins(a, i, p))
    &&& forall|a: usize, i: int, p: Pkt, q: Pkt|
        #![trigger ins(a, i, p), ins(a, i, q)]
        between(x, st, t, out, a, i, p) && between(x, st, t, out, a, i, q) ==> ins(a, i, p) == ins(
            a,
            i,
            q,
        )
    &&& forall|a: usize, k: int, i: int, p: Pkt, m: Pkt| #[trigger]
        step_between(x, st, t, out, a, k, i, p, m) && ins(a, i, p) ==> ins(
            x.graph.edges@[a as int]@[k].1,
            lands(x, x.graph.edges@[a as int]@[k].1, i),
            m,
        )
}

/// States and positions can be parted so that no hole leads from what is reached now to
/// that from which the word goes on now, whatever is put in it.
pub open spec fn severed<'a, C: Candidate<'a>>(
    x: Instantiate<C>,
    vars: Filling<C::Var>,
    st: SPPstore,
    dfa: &'a ExplicitDFA,
    t: Seq<Pkt>,
    out: Pkt,
) -> bool {
    exists|ins: Places| #[trigger]
        state_cut(&x, st, t, out, ins) && forall|g: Guess|
            !(#[trigger] leaves_by::<C>(x, vars, st, dfa, t, out, ins, outside(ins))(g))
}

/// The hole leads along the way from a place of `ins` to one that is not in it, or has the
/// rest of the word from a place of `ins`, with what the guess puts in it.
pub open spec fn crosses_by<'a, C: Candidate<'a>>(
    x: Instantiate<C>,
    vars: Filling<C::Var>,
    st: SPPstore,
    dfa: &'a ExplicitDFA,
    t: Seq<Pkt>,
    out: Pkt,
    ins: Places,
    s: Span,
    g: Guess,
    p: Pkt,
    m: Pkt,
) -> bool {
    let hs = guess_fill::<C>(vars, st, dfa, g);
    let b = x.graph.edges@[s.a as int]@[s.k].1;
    &&& region_of(&x, st, t, out, s.a, s.i, p) == s.src
    &&& if s.end {
        &&& s == end_span(s.a, s.k, s.i, s.src)
        &&& breach_end(&x, st, hs, t, out, ins, s.a, s.k, s.i, p)
    } else {
        &&& breach(&x, st, hs, t, ins, outside(ins), s.a, s.k, s.i, s.j, p, m)
        &&& region_of(&x, st, t, out, b, lands(&x, b, s.j), m) == s.tgt
    }
}

/// Something can be put in the hole with which it leads out of the places along the way.
pub open spec fn crosses<'a, C: Candidate<'a>>(
    x: Instantiate<C>,
    vars: Filling<C::Var>,
    st: SPPstore,
    dfa: &'a ExplicitDFA,
    t: Seq<Pkt>,
    out: Pkt,
    ins: Places,
    s: Span,
) -> bool {
    exists|g: Guess, p: Pkt, m: Pkt| #[trigger]
        crosses_by::<C>(x, vars, st, dfa, t, out, ins, s, g, p, m)
}

/// The ways through holes that can lead out of the places.
pub open spec fn ways_out<'a, C: Candidate<'a>>(
    x: Instantiate<C>,
    vars: Filling<C::Var>,
    st: SPPstore,
    dfa: &'a ExplicitDFA,
    t: Seq<Pkt>,
    out: Pkt,
    ins: Places,
) -> Set<Span> {
    Set::new(|s: Span| crosses::<C>(x, vars, st, dfa, t, out, ins, s))
}

/// The states and positions are parted so that no other such parting has fewer ways out.
pub open spec fn least_cut<'a, C: Candidate<'a>>(
    x: Instantiate<C>,
    vars: Filling<C::Var>,
    st: SPPstore,
    dfa: &'a ExplicitDFA,
    t: Seq<Pkt>,
    out: Pkt,
    ins: Places,
) -> bool {
    &&& state_cut(&x, st, t, out, ins)
    &&& ways_out::<C>(x, vars, st, dfa, t, out, ins).finite()
    &&& forall|other: Places| #[trigger]
        state_cut(&x, st, t, out, other) ==> ways_out::<C>(x, vars, st, dfa, t, out, other).finite()
            && ways_out::<C>(x, vars, st, dfa, t, out, ins).len() <= ways_out::<C>(
            x,
            vars,
            st,
            dfa,
            t,
            out,
            other,
        ).len()
}

/// The learner goes on by the clause that some hole leads out of the places of a cut.
/// The cut is a least one: where none is needed, the clause is empty.
pub open spec fn cut_clause<'a, C: Candidate<'a>, L: SmtLearner<'a>>(
    l: L,
    o: L,
    x: Instantiate<C>,
    vars: Filling<C::Var>,
    st: SPPstore,
    dfa: &'a ExplicitDFA,
    t: Seq<Pkt>,
    out: Pkt,
) -> bool {
    &&& exists|ins: Places| #[trigger]
        is_cut(&x, st, t, out, ins) && least_cut::<C>(x, vars, st, dfa, t, out, ins)
            && hole_clause::<C, L>(
            l,
            o,
            x,
            vars,
            st,
            dfa,
            t,
            out,
            ins,
            outside(ins),
        )
    &&& severed::<C>(x, vars, st, dfa, t, out) ==> demands(l, |g: Guess| false)
}

/// The places whose nodes are on the side.
pub open spec fn side_places<'c, C: ENFA>(
    w: &Around<'c, C>,
    s0: SPPstore,
    ids: Seq<Vec<usize>>,
    side: Seq<bool>,
) -> Places {
    |a: usize, i: int, p: Pkt| side[node_of(w, s0, ids, a, i, p) as int]
}

/// The places of a side that is left by holes alone are a cut.
proof fn lemma_side_cut<'a, 'c, C: Candidate<'a>>(
    w: &Around<'c, C>,
    s0: SPPstore,
    st: SPPstore,
    vars: Filling<C::Var>,
    dfa: &'a ExplicitDFA,
    cut: CutGraph,
    side: Seq<bool>,
)
    requires
        w.ok(s0, st),
        cut.ok(w.inst.graph.states@.len(), w.trace@.len()),
        !enfa_lang(w.inst, s0)(w.t().push(w.output@)),
        edges_covered::<C>(w, s0, vars, dfa, cut, w.inst.graph.states@.len() as int, 0),
        side.len() == node_total(cut.net),
        side[0],
        !side[1],
        holds_together(cut.arcs(), side),
    ensures
        is_cut(w.inst, s0, w.t(), w.output@, side_places(w, s0, cut.ids@, side)),
{
    let x = w.inst;
    let t = w.t();
    let out = w.output@;
    let ids = cut.ids@;
    let ins = side_places(w, s0, ids, side);
    assert forall|j: int| 0 <= j < t.len() implies (#[trigger] t[j]).len() == s0.n() by {
        assert(t[j] == w.trace@[j]@);
    }
    assert forall|a: usize, i: int, p: Pkt|
        placed_at(x, s0, t, a, i, p) && completes(
            x,
            s0,
            t,
            out,
            State::<Place<C>>::Outer(a),
            i,
            p,
        ) implies !(#[trigger] ins(a, i, p)) by {
        if w.fwd(s0, a, i, p) {
            lemma_apart(w, s0, st, a, i, p);
        }
    }
    assert forall|a: usize, k: int, i: int, p: Pkt, m: Pkt| #[trigger]
        concrete_step(x, s0, t, a, k, i, p, m) && ins(a, i, p) implies ins(
        x.graph.edges@[a as int]@[k].1,
        lands(x, x.graph.edges@[a as int]@[k].1, i),
        m,
    ) by {
        let e = x.graph.edges@[a as int]@[k];
        let b = e.1;
        let jt = lands(x, b, i);
        let u = node_of(w, s0, ids, a, i, p);
        let v = node_of(w, s0, ids, b, jt, m);
        if w.bwd(s0, a, i, p) && w.fwd(s0, a, i, p) {
            lemma_apart(w, s0, st, a, i, p);
        }
        assert(!w.bwd(s0, a, i, p));
        assert(covers::<C>(w, s0, vars, dfa, cut, a, k, i, i));
        lemma_concrete_step(x, s0, t, a, i, p, k, m);
        if !w.fwd(s0, b, jt, m) {
            assert(!w.fwd(s0, a, i, p));
            if w.bwd(s0, b, jt, m) {
                lemma_back_step(w, s0, a, i, p, b, m);
            }
            assert(passes_by(w, s0, e.0->Concrete_0, a, i, b, jt, p, m));
            assert(cut.linked(u, v));
            if u != v {
                let d = choose|d: int|
                    0 <= d < cut.arcs().len() && (#[trigger] cut.arcs()[d]).0 == u
                        && cut.arcs()[d].1 == v && cut.arcs()[d].2 != 1;
                assert(side[cut.arcs()[d].1 as int]);
            }
        }
    }
}

/// What a way along an edge carries.
proof fn lemma_carried<'a, 'c, C: Candidate<'a>>(
    w: &Around<'c, C>,
    s0: SPPstore,
    vars: Filling<C::Var>,
    dfa: &'a ExplicitDFA,
    ids: Seq<Vec<usize>>,
    u: usize,
    v: usize,
    g: Guess,
    e: Span,
) -> (res: (Pkt, Pkt))
    requires
        passes::<C>(w, s0, vars, dfa, ids, u, v, g, e),
        !e.end,
    ensures
        carried::<C>(w, s0, vars, dfa, ids, u, v, g, e.a, e.k, e.i, e.j, res.0, res.1),
        w.region(s0, e.a, e.i, res.0) == e.src,
        w.region(
            s0,
            w.inst.graph.edges@[e.a as int]@[e.k].1,
            lands(w.inst, w.inst.graph.edges@[e.a as int]@[e.k].1, e.j),
            res.1,
        ) == e.tgt,
{
    choose|p: Pkt, m: Pkt| #[trigger]
        carried::<C>(w, s0, vars, dfa, ids, u, v, g, e.a, e.k, e.i, e.j, p, m) && w.region(
            s0,
            e.a,
            e.i,
            p,
        ) == e.src && w.region(
            s0,
            w.inst.graph.edges@[e.a as int]@[e.k].1,
            lands(w.inst, w.inst.graph.edges@[e.a as int]@[e.k].1, e.j),
            m,
        ) == e.tgt
}

/// A literal whose edge leaves the side claims that a hole leads out of its places.
proof fn lemma_side_leaves<'a, 'c, C: Candidate<'a>>(
    w: &Around<'c, C>,
    s0: SPPstore,
    vars: Filling<C::Var>,
    dfa: &'a ExplicitDFA,
    cut: CutGraph,
    side: Seq<bool>,
    claims: Seq<Claim>,
    g: Guess,
)
    requires
        meant::<C>(w, s0, vars, dfa, cut),
        forall|z: int| 0 <= z < claims.len() ==> #[trigger] leaves_side(cut, side, claims[z]),
        any_claim(claims, g),
    ensures
        breaches(
            w.inst,
            s0,
            guess_fill::<C>(vars, s0, dfa, g),
            w.t(),
            w.output@,
            side_places(w, s0, cut.ids@, side),
            outside(side_places(w, s0, cut.ids@, side)),
        ),
{
    let hs = guess_fill::<C>(vars, s0, dfa, g);
    let ins = side_places(w, s0, cut.ids@, side);
    let outs = outside(ins);
    let z = choose|z: int| 0 <= z < claims.len() && (#[trigger] claims[z])(g);
    assert(leaves_side(cut, side, claims[z]));
    let l = choose|l: int|
        0 <= l < cut.claims@.len() && #[trigger] cut.claims@[l] == claims[z]
            && side[cut.arc(l).0 as int] && !side[cut.arc(l).1 as int];
    reveal(meant);
    assert(cut.claims@[l](g));
    let u = cut.arc(l).0;
    let v = cut.arc(l).1;
    let e = cut.spans@[l];
    assert(passes::<C>(w, s0, vars, dfa, cut.ids@, u, v, g, e));
    if e.end {
        let p = choose|p: Pkt| #[trigger]
            carried_end::<C>(w, s0, vars, dfa, cut.ids@, u, g, e.a, e.k, e.i, p) && w.region(
                s0,
                e.a,
                e.i,
                p,
            ) == e.src;
        assert(breach_end(w.inst, s0, hs, w.t(), w.output@, ins, e.a, e.k, e.i, p));
    } else {
        let (p, m) = lemma_carried::<C>(w, s0, vars, dfa, cut.ids@, u, v, g, e);
        assert(breach(w.inst, s0, hs, w.t(), ins, outs, e.a, e.k, e.i, e.j, p, m));
    }
}

/// What leads out of the places of a side through a hole is claimed by a literal whose
/// edge leaves the side.
proof fn lemma_leaves_claimed<'a, 'c, C: Candidate<'a>>(
    w: &Around<'c, C>,
    s0: SPPstore,
    st: SPPstore,
    vars: Filling<C::Var>,
    dfa: &'a ExplicitDFA,
    cut: CutGraph,
    side: Seq<bool>,
    g: Guess,
    goal: bool,
)
    requires
        w.ok(s0, st),
        cut.ok(w.inst.graph.states@.len(), w.trace@.len()),
        forall|h: Hole| #[trigger] w.inst.aut.uses(h) ==> vars.has(h),
        !enfa_lang(w.inst, s0)(w.t().push(w.output@)),
        edges_covered::<C>(w, s0, vars, dfa, cut, w.inst.graph.states@.len() as int, 0),
        ends_covered::<C>(w, s0, vars, dfa, cut, w.inst.graph.states@.len() as int, 0),
        side[0],
        !side[1],
        forall|l: int, u: usize, v: usize| #[trigger]
            cut.joins(l, u, v, g) && side[u as int] && !side[v as int] ==> goal,
        breaches(
            w.inst,
            s0,
            guess_fill::<C>(vars, s0, dfa, g),
            w.t(),
            w.output@,
            side_places(w, s0, cut.ids@, side),
            outside(side_places(w, s0, cut.ids@, side)),
        ),
    ensures
        goal,
{
    let x = w.inst;
    let t = w.t();
    let out = w.output@;
    let hs = guess_fill::<C>(vars, s0, dfa, g);
    let ids = cut.ids@;
    let ins = side_places(w, s0, ids, side);
    let outs = outside(ins);
    if exists|a: usize, k: int, i: int, j: int, p: Pkt, m: Pkt| #[trigger]
        breach(x, s0, hs, t, ins, outs, a, k, i, j, p, m) {
        let (a, k, i, j, p, m) = choose|a: usize, k: int, i: int, j: int, p: Pkt, m: Pkt| #[trigger]
            breach(x, s0, hs, t, ins, outs, a, k, i, j, p, m);
        assert(graph_row(x.aut, s0, x.graph, a as int));
        let e = x.graph.edges@[a as int]@[k];
        let ts0 = targets(x.graph.states@, x.graph.edges@[a as int]@);
        assert(label_ok(x.aut, s0, ts0[k].0));
        let jt = lands(x, e.1, j);
        let u = node_of(w, s0, ids, a, i, p);
        let v = node_of(w, s0, ids, e.1, jt, m);
        if w.bwd(s0, a, i, p) && w.fwd(s0, a, i, p) {
            lemma_apart(w, s0, st, a, i, p);
        }
        assert(!w.bwd(s0, a, i, p));
        assert(!w.fwd(s0, e.1, jt, m));
        assert(covers::<C>(w, s0, vars, dfa, cut, a, k, i, j));
        match e.0 {
            EdgeLabel::Abstract(h) => {
                assert(vars.has(h));
                assert(slot_has::<C>(
                    vars.val(h),
                    s0,
                    dfa,
                    g,
                    p,
                    t.subrange(i + 1, j + 1),
                    m,
                ));
                assert(through::<C>(w, s0, vars, dfa, h, a, i, e.1, j, jt, p, m, g));
                assert(cut.joined(
                    u,
                    v,
                    g,
                    hole_span(a, k, i, j, w.region(s0, a, i, p), w.region(s0, e.1, jt, m)),
                ));
                let l = choose|l: int| #[trigger] cut.joins(l, u, v, g);
                assert(goal);
            },
            EdgeLabel::Concrete(_) => {},
        }
    } else {
        let (a, k, i, p) = choose|a: usize, k: int, i: int, p: Pkt| #[trigger]
            breach_end(x, s0, hs, t, out, ins, a, k, i, p);
        assert(graph_row(x.aut, s0, x.graph, a as int));
        let e = x.graph.ends@[a as int]@[k];
        assert(label_ok(x.aut, s0, x.graph.ends@[a as int]@[k]));
        let u = node_of(w, s0, ids, a, i, p);
        if w.bwd(s0, a, i, p) && w.fwd(s0, a, i, p) {
            lemma_apart(w, s0, st, a, i, p);
        }
        assert(!w.bwd(s0, a, i, p));
        assert(covers_end::<C>(w, s0, vars, dfa, cut, a, k, i));
        match e {
            EdgeLabel::Abstract(h) => {
                assert(vars.has(h));
                assert(slot_has::<C>(
                    vars.val(h),
                    s0,
                    dfa,
                    g,
                    p,
                    t.subrange(i + 1, t.len() as int),
                    out,
                ));
                assert(stops_in::<C>(w, s0, vars, dfa, h, a, i, p, g));
                assert(cut.joined(u, 1, g, end_span(a, k, i, w.region(s0, a, i, p))));
                let l = choose|l: int| #[trigger] cut.joins(l, u, 1, g);
                assert(goal);
            },
            EdgeLabel::Concrete(_) => {},
        }
    }
}

/// Different states and positions have different nodes.
proof fn lemma_nodes_differ(n: nat, a: int, i: int, b: int, j: int)
    requires
        0 <= i < n,
        0 <= j < n,
        2 + a * n + i == 2 + b * n + j,
    ensures
        a == b,
        i == j,
{
    if a < b {
        assert(a * n + n <= b * n) by (nonlinear_arith)
            requires
                a + 1 <= b,
                n >= 0,
        ;
    }
    if b < a {
        assert(b * n + n <= a * n) by (nonlinear_arith)
            requires
                b + 1 <= a,
                n >= 0,
        ;
    }
}

/// The state and position have the node, and of what is between there the places are in.
spec fn node_in<C: ENFA>(
    x: &Instantiate<C>,
    st: SPPstore,
    t: Seq<Pkt>,
    out: Pkt,
    ids: Seq<Vec<usize>>,
    ins: Places,
    v: int,
    a: usize,
    i: int,
    p: Pkt,
) -> bool {
    between(x, st, t, out, a, i, p) && ids[a as int]@[i] == v && ins(a, i, p)
}

/// The side of the places.
spec fn side_of<C: ENFA>(
    x: &Instantiate<C>,
    st: SPPstore,
    t: Seq<Pkt>,
    out: Pkt,
    ids: Seq<Vec<usize>>,
    ins: Places,
    nodes: nat,
) -> Seq<bool> {
    Seq::new(
        nodes,
        |v: int|
            v == 0 || v != 1 && exists|a: usize, i: int, p: Pkt| #[trigger]
                node_in(x, st, t, out, ids, ins, v, a, i, p),
    )
}

/// A place is in if its node is on the side of the places.
proof fn lemma_side_of<'c, C: ENFA>(
    w: &Around<'c, C>,
    s0: SPPstore,
    st: SPPstore,
    cut: CutGraph,
    ins: Places,
    a: usize,
    i: int,
    p: Pkt,
)
    requires
        w.ok(s0, st),
        cut.ok(w.inst.graph.states@.len(), w.trace@.len()),
        !enfa_lang(w.inst, s0)(w.t().push(w.output@)),
        forall|b: int, j: int|
            0 <= b < w.inst.graph.states@.len() && 0 <= j < w.trace@.len()
                ==> #[trigger] cut.ids@[b]@[j] == 2 + b * w.trace@.len() + j,
        state_cut(w.inst, s0, w.t(), w.output@, ins),
        a < w.inst.graph.states@.len(),
        0 <= i < w.t().len(),
        p.len() == s0.n(),
    ensures
        ({
            let side = side_of(
                w.inst,
                s0,
                w.t(),
                w.output@,
                cut.ids@,
                ins,
                node_total(cut.net),
            );
            side[node_of(w, s0, cut.ids@, a, i, p) as int] == ins(a, i, p)
        }),
{
    let x = w.inst;
    let t = w.t();
    let out = w.output@;
    let ids = cut.ids@;
    let n = w.trace@.len();
    let side = side_of(x, s0, t, out, ids, ins, node_total(cut.net));
    let v = node_of(w, s0, ids, a, i, p);
    assert(ids[a as int]@[i] < node_total(cut.net));
    if w.fwd(s0, a, i, p) {
        assert(ins(a, i, p));
    } else if w.bwd(s0, a, i, p) {
        assert(!ins(a, i, p));
    } else {
        assert(between(x, s0, t, out, a, i, p));
        if ins(a, i, p) {
            assert(node_in(x, s0, t, out, ids, ins, v as int, a, i, p));
        }
        if side[v as int] {
            let (b, j, q) = choose|b: usize, j: int, q: Pkt| #[trigger]
                node_in(x, s0, t, out, ids, ins, v as int, b, j, q);
            assert(ids[b as int]@[j] == 2 + b * n + j);
            assert(ids[a as int]@[i] == 2 + a * n + i);
            lemma_nodes_differ(n, a as int, i, b as int, j);
            assert(ins(a, i, q));
        }
    }
}

/// No edges leave a side that none of them leaves.
proof fn lemma_none_cross(arcs: Seq<Arc>, side: Seq<bool>, k: nat)
    requires
        k <= arcs.len(),
        forall|e: int|
            0 <= e < arcs.len() && (#[trigger] arcs[e]).2 == 1 && side[arcs[e].0 as int]
                ==> side[arcs[e].1 as int],
    ensures
        crossings(arcs, side, k) == 0,
    decreases k,
{
    if k > 0 {
        lemma_none_cross(arcs, side, (k - 1) as nat);
        assert(arcs[k - 1].2 == 1 && side[arcs[k - 1].0 as int] ==> side[arcs[k - 1].1 as int]);
    }
}

/// An edge of a hole that leaves a side is counted.
proof fn lemma_some_cross(arcs: Seq<Arc>, side: Seq<bool>, e: int, k: nat)
    requires
        0 <= e < k <= arcs.len(),
        arcs[e].2 == 1,
        side[arcs[e].0 as int],
        !side[arcs[e].1 as int],
    ensures
        crossings(arcs, side, k) >= 1,
    decreases k,
{
    if e < k - 1 {
        lemma_some_cross(arcs, side, e, (k - 1) as nat);
    }
}

/// The literal, of one of the first `k` edges, is that of the way, and its edge leaves the
/// side.
spec fn crossed_at(cut: CutGraph, side: Seq<bool>, k: int, s: Span, l: int) -> bool {
    &&& 0 <= l < cut.spans@.len()
    &&& cut.spans@[l] == s
    &&& cut.spots@[l] < k
    &&& side[cut.arc(l).0 as int]
    &&& !side[cut.arc(l).1 as int]
}

/// The ways whose edges leave the side, among the first `k` edges.
spec fn crossed(cut: CutGraph, side: Seq<bool>, k: int) -> Set<Span> {
    Set::new(|s: Span| exists|l: int| #[trigger] crossed_at(cut, side, k, s, l))
}

/// As many ways leave a side as edges of holes do.
proof fn lemma_crossed(cut: CutGraph, side: Seq<bool>, k: nat, kk: nat, n: nat)
    requires
        cut.ok(kk, n),
        k <= cut.arcs().len(),
    ensures
        crossed(cut, side, k as int).finite(),
        crossed(cut, side, k as int).len() == crossings(cut.arcs(), side, k),
    decreases k,
{
    let now = crossed(cut, side, k as int);
    if k == 0 {
        assert(now =~= Set::empty()) by {
            assert forall|s: Span| !(#[trigger] now.contains(s)) by {
                if now.contains(s) {
                    let l = choose|l: int| #[trigger] crossed_at(cut, side, k as int, s, l);
                }
            }
        }
    } else {
        let k0 = (k - 1) as nat;
        let before = crossed(cut, side, k0 as int);
        lemma_crossed(cut, side, k0, kk, n);
        let e = cut.arcs()[k - 1];
        assert forall|s: Span| #[trigger] before.contains(s) implies now.contains(s) by {
            let l = choose|l: int| #[trigger] crossed_at(cut, side, k0 as int, s, l);
            assert(crossed_at(cut, side, k as int, s, l));
        }
        if e.2 == 1 && side[e.0 as int] && !side[e.1 as int] {
            assert(cut.spotted(k - 1));
            let l = choose|l: int| 0 <= l < cut.spots@.len() && #[trigger] cut.spots@[l] == k - 1;
            let s = cut.spans@[l];
            assert(crossed_at(cut, side, k as int, s, l));
            assert(!before.contains(s)) by {
                if before.contains(s) {
                    let m = choose|m: int| #[trigger] crossed_at(cut, side, k0 as int, s, m);
                    assert(cut.spans@[m] == cut.spans@[l]);
                    assert(m == l);
                }
            }
            assert(now =~= before.insert(s)) by {
                assert forall|z: Span| #[trigger] now.contains(z) implies before.insert(s).contains(
                    z,
                ) by {
                    let m = choose|m: int| #[trigger] crossed_at(cut, side, k as int, z, m);
                    if cut.spots@[m] < k - 1 {
                        assert(crossed_at(cut, side, k0 as int, z, m));
                    } else {
                        assert(cut.spots@[m] == cut.spots@[l]);
                        assert(m == l);
                    }
                }
            }
        } else {
            assert(now =~= before) by {
                assert forall|z: Span| #[trigger] now.contains(z) implies before.contains(z) by {
                    let m = choose|m: int| #[trigger] crossed_at(cut, side, k as int, z, m);
                    assert(cut.arc(m).2 == 1);
                    assert(crossed_at(cut, side, k0 as int, z, m));
                }
            }
        }
    }
}

/// The places are those whose nodes are on the side.
spec fn agrees<'c, C: ENFA>(
    w: &Around<'c, C>,
    s0: SPPstore,
    ids: Seq<Vec<usize>>,
    side: Seq<bool>,
    ins: Places,
) -> bool {
    forall|a: usize, i: int, p: Pkt|
        a < w.inst.graph.states@.len() && 0 <= i < w.t().len() && p.len() == s0.n() ==> side[node_of(
            w,
            s0,
            ids,
            a,
            i,
            p,
        ) as int] == #[trigger] ins(a, i, p)
}

/// The ways out of the places are those whose edges leave the side.
proof fn lemma_ways_out<'a, 'c, C: Candidate<'a>>(
    w: &Around<'c, C>,
    s0: SPPstore,
    st: SPPstore,
    vars: Filling<C::Var>,
    dfa: &'a ExplicitDFA,
    cut: CutGraph,
    side: Seq<bool>,
    ins: Places,
)
    requires
        w.ok(s0, st),
        cut.ok(w.inst.graph.states@.len(), w.trace@.len()),
        forall|h: Hole| #[trigger] w.inst.aut.uses(h) ==> vars.has(h),
        !enfa_lang(w.inst, s0)(w.t().push(w.output@)),
        edges_covered::<C>(w, s0, vars, dfa, cut, w.inst.graph.states@.len() as int, 0),
        ends_covered::<C>(w, s0, vars, dfa, cut, w.inst.graph.states@.len() as int, 0),
        meant::<C>(w, s0, vars, dfa, cut),
        side[0],
        !side[1],
        agrees(w, s0, cut.ids@, side, ins),
    ensures
        ways_out::<C>(*w.inst, vars, s0, dfa, w.t(), w.output@, ins) == crossed(
            cut,
            side,
            cut.arcs().len() as int,
        ),
{
    let x = *w.inst;
    let t = w.t();
    let out = w.output@;
    let ways = ways_out::<C>(x, vars, s0, dfa, t, out, ins);
    let edges = crossed(cut, side, cut.arcs().len() as int);
    assert forall|s: Span| #[trigger] ways.contains(s) implies edges.contains(s) by {
        let (g, p, m) = choose|g: Guess, p: Pkt, m: Pkt| #[trigger]
            crosses_by::<C>(x, vars, s0, dfa, t, out, ins, s, g, p, m);
        lemma_way_crosses::<C>(w, s0, st, vars, dfa, cut, side, ins, s, g, p, m);
    }
    assert forall|s: Span| #[trigger] edges.contains(s) implies ways.contains(s) by {
        let l = choose|l: int| #[trigger]
            crossed_at(cut, side, cut.arcs().len() as int, s, l);
        let g = everything();
        let hs = guess_fill::<C>(vars, s0, dfa, g);
        let u = cut.arc(l).0;
        let v = cut.arc(l).1;
        reveal(meant);
        assert(cut.claims@[l](g));
        assert(passes::<C>(w, s0, vars, dfa, cut.ids@, u, v, g, s));
        if s.end {
            let p = choose|p: Pkt| #[trigger]
                carried_end::<C>(w, s0, vars, dfa, cut.ids@, u, g, s.a, s.k, s.i, p) && w.region(
                    s0,
                    s.a,
                    s.i,
                    p,
                ) == s.src;
            assert(ins(s.a, s.i, p));
            assert(breach_end(w.inst, s0, hs, t, out, ins, s.a, s.k, s.i, p));
            assert(crosses_by::<C>(x, vars, s0, dfa, t, out, ins, s, g, p, p));
        } else {
            let (p, m) = lemma_carried::<C>(w, s0, vars, dfa, cut.ids@, u, v, g, s);
            let b = x.graph.edges@[s.a as int]@[s.k].1;
            let jt = lands(w.inst, b, s.j);
            w.inst.lemma_row(s0, s.a as int);
            assert(graph_row(w.inst.aut, s0, w.inst.graph, s.a as int));
            assert(b < w.inst.graph.states@.len());
            assert(ins(s.a, s.i, p));
            assert(!ins(b, jt, m));
            assert(breach(w.inst, s0, hs, t, ins, outside(ins), s.a, s.k, s.i, s.j, p, m));
            assert(crosses_by::<C>(x, vars, s0, dfa, t, out, ins, s, g, p, m));
        }
    }
    assert(ways =~= edges);
}

/// A way out of the places has an edge that leaves the side.
proof fn lemma_way_crosses<'a, 'c, C: Candidate<'a>>(
    w: &Around<'c, C>,
    s0: SPPstore,
    st: SPPstore,
    vars: Filling<C::Var>,
    dfa: &'a ExplicitDFA,
    cut: CutGraph,
    side: Seq<bool>,
    ins: Places,
    s: Span,
    g: Guess,
    p: Pkt,
    m: Pkt,
)
    requires
        w.ok(s0, st),
        cut.ok(w.inst.graph.states@.len(), w.trace@.len()),
        forall|h: Hole| #[trigger] w.inst.aut.uses(h) ==> vars.has(h),
        !enfa_lang(w.inst, s0)(w.t().push(w.output@)),
        edges_covered::<C>(w, s0, vars, dfa, cut, w.inst.graph.states@.len() as int, 0),
        ends_covered::<C>(w, s0, vars, dfa, cut, w.inst.graph.states@.len() as int, 0),
        side[0],
        !side[1],
        agrees(w, s0, cut.ids@, side, ins),
        crosses_by::<C>(*w.inst, vars, s0, dfa, w.t(), w.output@, ins, s, g, p, m),
    ensures
        crossed(cut, side, cut.arcs().len() as int).contains(s),
{
    let x = w.inst;
    let t = w.t();
    let out = w.output@;
    let ids = cut.ids@;
    let (a, k, i) = (s.a, s.k, s.i);
    x.lemma_row(s0, a as int);
    assert(graph_row(x.aut, s0, x.graph, a as int));
    let u = node_of(w, s0, ids, a, i, p);
    assert(ins(a, i, p));
    if s.end {
        let e = x.graph.ends@[a as int]@[k];
        assert(label_ok(x.aut, s0, x.graph.ends@[a as int]@[k]));
        if w.bwd(s0, a, i, p) && w.fwd(s0, a, i, p) {
            lemma_apart(w, s0, st, a, i, p);
        }
        assert(!w.bwd(s0, a, i, p));
        assert(covers_end::<C>(w, s0, vars, dfa, cut, a, k, i));
        match e {
            EdgeLabel::Abstract(h) => {
                assert(vars.has(h));
                assert(slot_has::<C>(
                    vars.val(h),
                    s0,
                    dfa,
                    g,
                    p,
                    t.subrange(i + 1, t.len() as int),
                    out,
                ));
                assert(stops_in::<C>(w, s0, vars, dfa, h, a, i, p, g));
                assert(cut.joined(u, 1, g, s));
                let l = choose|l: int| #[trigger] cut.joins(l, u, 1, g) && cut.spans@[l] == s;
                assert(cut.spots@[l] < cut.arcs().len());
                assert(crossed_at(cut, side, cut.arcs().len() as int, s, l));
            },
            EdgeLabel::Concrete(_) => {},
        }
    } else {
        let j = s.j;
        let e = x.graph.edges@[a as int]@[k];
        let ts0 = targets(x.graph.states@, x.graph.edges@[a as int]@);
        assert(label_ok(x.aut, s0, ts0[k].0));
        assert(e.1 < x.graph.states@.len());
        let jt = lands(x, e.1, j);
        let v = node_of(w, s0, ids, e.1, jt, m);
        if w.bwd(s0, a, i, p) && w.fwd(s0, a, i, p) {
            lemma_apart(w, s0, st, a, i, p);
        }
        assert(!ins(e.1, jt, m));
        assert(!w.bwd(s0, a, i, p));
        assert(!w.fwd(s0, e.1, jt, m));
        assert(covers::<C>(w, s0, vars, dfa, cut, a, k, i, j));
        match e.0 {
            EdgeLabel::Abstract(h) => {
                assert(vars.has(h));
                assert(slot_has::<C>(
                    vars.val(h),
                    s0,
                    dfa,
                    g,
                    p,
                    t.subrange(i + 1, j + 1),
                    m,
                ));
                assert(through::<C>(w, s0, vars, dfa, h, a, i, e.1, j, jt, p, m, g));
                assert(cut.joined(u, v, g, s));
                let l = choose|l: int| #[trigger] cut.joins(l, u, v, g) && cut.spans@[l] == s;
                assert(cut.spots@[l] < cut.arcs().len());
                assert(crossed_at(cut, side, cut.arcs().len() as int, s, l));
            },
            EdgeLabel::Concrete(_) => {},
        }
    }
}

/// The places of a side that is left by holes alone part the states and positions.
proof fn lemma_side_parts<'a, 'c, C: Candidate<'a>>(
    w: &Around<'c, C>,
    s0: SPPstore,
    st: SPPstore,
    vars: Filling<C::Var>,
    dfa: &'a ExplicitDFA,
    cut: CutGraph,
    side: Seq<bool>,
)
    requires
        w.ok(s0, st),
        cut.ok(w.inst.graph.states@.len(), w.trace@.len()),
        !enfa_lang(w.inst, s0)(w.t().push(w.output@)),
        edges_covered::<C>(w, s0, vars, dfa, cut, w.inst.graph.states@.len() as int, 0),
        is_side(node_total(cut.net), cut.arcs(), side),
    ensures
        state_cut(w.inst, s0, w.t(), w.output@, side_places(w, s0, cut.ids@, side)),
{
    let x = w.inst;
    let t = w.t();
    let out = w.output@;
    let ids = cut.ids@;
    let ins = side_places(w, s0, ids, side);
    assert forall|a: usize, i: int, p: Pkt|
        a < x.graph.states@.len() && 0 <= i < t.len() && p.len() == s0.n() && completes(
            x,
            s0,
            t,
            out,
            State::<Place<C>>::Outer(a),
            i,
            p,
        ) implies !(#[trigger] ins(a, i, p)) by {
        if w.fwd(s0, a, i, p) {
            lemma_apart(w, s0, st, a, i, p);
        }
    }
    assert forall|a: usize, k: int, i: int, p: Pkt, m: Pkt| #[trigger]
        step_between(x, s0, t, out, a, k, i, p, m) && ins(a, i, p) implies ins(
        x.graph.edges@[a as int]@[k].1,
        lands(x, x.graph.edges@[a as int]@[k].1, i),
        m,
    ) by {
        let e = x.graph.edges@[a as int]@[k];
        let b = e.1;
        let jt = lands(x, b, i);
        let u = ids[a as int]@[i];
        let v = ids[b as int]@[jt];
        assert(covers::<C>(w, s0, vars, dfa, cut, a, k, i, i));
        assert(passes_by(w, s0, e.0->Concrete_0, a, i, b, jt, p, m));
        assert(cut.linked(u, v));
        if u != v {
            let d = choose|d: int|
                0 <= d < cut.arcs().len() && (#[trigger] cut.arcs()[d]).0 == u && cut.arcs()[d].1
                    == v && cut.arcs()[d].2 != 1;
            assert(side[cut.arcs()[d].1 as int]);
        }
    }
}

/// The side of places that part the states and positions is left by holes alone.
proof fn lemma_parted_side<'c, C: ENFA>(
    w: &Around<'c, C>,
    s0: SPPstore,
    st: SPPstore,
    cut: CutGraph,
    ins: Places,
) -> (side: Seq<bool>)
    requires
        w.ok(s0, st),
        cut.ok(w.inst.graph.states@.len(), w.trace@.len()),
        !enfa_lang(w.inst, s0)(w.t().push(w.output@)),
        grounded(w, s0, cut),
        forall|b: int, j: int|
            0 <= b < w.inst.graph.states@.len() && 0 <= j < w.trace@.len()
                ==> #[trigger] cut.ids@[b]@[j] == 2 + b * w.trace@.len() + j,
        state_cut(w.inst, s0, w.t(), w.output@, ins),
    ensures
        is_side(node_total(cut.net), cut.arcs(), side),
        agrees(w, s0, cut.ids@, side, ins),
{
    let x = w.inst;
    let t = w.t();
    let out = w.output@;
    let ids = cut.ids@;
    let arcs = cut.arcs();
    let nodes = node_total(cut.net);
    let side = side_of(x, s0, t, out, ids, ins, nodes);
    assert forall|a: usize, i: int, p: Pkt|
        a < x.graph.states@.len() && 0 <= i < t.len() && p.len() == s0.n() implies side[node_of(
        w,
        s0,
        ids,
        a,
        i,
        p,
    ) as int] == #[trigger] ins(a, i, p) by {
        lemma_side_of(w, s0, st, cut, ins, a, i, p);
    }
    assert(holds_together(arcs, side)) by {
        assert forall|e: int|
            0 <= e < arcs.len() && (#[trigger] arcs[e]).2 != 1 && side[arcs[e].0 as int]
            implies side[arcs[e].1 as int] by {
            reveal(grounded);
            let u = arcs[e].0;
            let v = arcs[e].1;
            assert(stepped(w, s0, ids, u, v));
            let (a, k, i, p, m) = choose|a: usize, k: int, i: int, p: Pkt, m: Pkt| #[trigger]
                steps_by(w, s0, ids, u, v, a, k, i, p, m);
            let b = x.graph.edges@[a as int]@[k].1;
            let jt = lands(x, b, i);
            assert(node_of(w, s0, ids, a, i, p) == u);
            assert(node_of(w, s0, ids, b, jt, m) == v);
            lemma_side_of(w, s0, st, cut, ins, a, i, p);
            lemma_side_of(w, s0, st, cut, ins, b, jt, m);
            assert(step_between(x, s0, t, out, a, k, i, p, m));
        }
    }
    side
}

/// The places of a side that fewest edges of holes leave have fewest ways out.
proof fn lemma_least<'a, 'c, C: Candidate<'a>>(
    w: &Around<'c, C>,
    s0: SPPstore,
    st: SPPstore,
    vars: Filling<C::Var>,
    dfa: &'a ExplicitDFA,
    cut: CutGraph,
    side: Seq<bool>,
)
    requires
        w.ok(s0, st),
        cut.ok(w.inst.graph.states@.len(), w.trace@.len()),
        forall|h: Hole| #[trigger] w.inst.aut.uses(h) ==> vars.has(h),
        !enfa_lang(w.inst, s0)(w.t().push(w.output@)),
        edges_covered::<C>(w, s0, vars, dfa, cut, w.inst.graph.states@.len() as int, 0),
        ends_covered::<C>(w, s0, vars, dfa, cut, w.inst.graph.states@.len() as int, 0),
        meant::<C>(w, s0, vars, dfa, cut),
        grounded(w, s0, cut),
        forall|b: int, j: int|
            0 <= b < w.inst.graph.states@.len() && 0 <= j < w.trace@.len()
                ==> #[trigger] cut.ids@[b]@[j] == 2 + b * w.trace@.len() + j,
        is_side(node_total(cut.net), cut.arcs(), side),
        forall|other: Seq<bool>| #[trigger]
            is_side(node_total(cut.net), cut.arcs(), other) ==> crossings(
                cut.arcs(),
                side,
                cut.arcs().len(),
            ) <= crossings(cut.arcs(), other, cut.arcs().len()),
    ensures
        least_cut::<C>(
            *w.inst,
            vars,
            s0,
            dfa,
            w.t(),
            w.output@,
            side_places(w, s0, cut.ids@, side),
        ),
{
    let x = w.inst;
    let t = w.t();
    let out = w.output@;
    let kk = x.graph.states@.len();
    let n = w.trace@.len();
    let total = cut.arcs().len();
    let ins = side_places(w, s0, cut.ids@, side);
    lemma_side_parts::<C>(w, s0, st, vars, dfa, cut, side);
    lemma_ways_out::<C>(w, s0, st, vars, dfa, cut, side, ins);
    lemma_crossed(cut, side, total, kk, n);
    assert forall|other: Places| #[trigger] state_cut(x, s0, t, out, other) implies ways_out::<C>(
        *x,
        vars,
        s0,
        dfa,
        t,
        out,
        other,
    ).finite() && ways_out::<C>(*x, vars, s0, dfa, t, out, ins).len() <= ways_out::<C>(
        *x,
        vars,
        s0,
        dfa,
        t,
        out,
        other,
    ).len() by {
        let far = lemma_parted_side(w, s0, st, cut, other);
        lemma_ways_out::<C>(w, s0, st, vars, dfa, cut, far, other);
        lemma_crossed(cut, far, total, kk, n);
    }
}

/// Where the states and positions can be parted so that no hole leads across, the network
/// has a side that no edge of a hole leaves.
proof fn lemma_severed<'a, 'c, C: Candidate<'a>>(
    w: &Around<'c, C>,
    s0: SPPstore,
    st: SPPstore,
    vars: Filling<C::Var>,
    dfa: &'a ExplicitDFA,
    cut: CutGraph,
) -> (side: Seq<bool>)
    requires
        w.ok(s0, st),
        cut.ok(w.inst.graph.states@.len(), w.trace@.len()),
        !enfa_lang(w.inst, s0)(w.t().push(w.output@)),
        meant::<C>(w, s0, vars, dfa, cut),
        grounded(w, s0, cut),
        forall|b: int, j: int|
            0 <= b < w.inst.graph.states@.len() && 0 <= j < w.trace@.len()
                ==> #[trigger] cut.ids@[b]@[j] == 2 + b * w.trace@.len() + j,
        severed::<C>(*w.inst, vars, s0, dfa, w.t(), w.output@),
    ensures
        is_side(node_total(cut.net), cut.arcs(), side),
        crossings(cut.arcs(), side, cut.arcs().len()) == 0,
{
    let x = w.inst;
    let t = w.t();
    let out = w.output@;
    let ids = cut.ids@;
    let arcs = cut.arcs();
    let ins = choose|ins: Places| #[trigger]
        state_cut(x, s0, t, out, ins) && forall|g: Guess|
            !(#[trigger] leaves_by::<C>(*x, vars, s0, dfa, t, out, ins, outside(ins))(g));
    let side = lemma_parted_side(w, s0, st, cut, ins);
    assert forall|e: int|
        0 <= e < arcs.len() && (#[trigger] arcs[e]).2 == 1 && side[arcs[e].0 as int]
        implies side[arcs[e].1 as int] by {
        if !side[arcs[e].1 as int] {
            assert(cut.spotted(e));
            let l = choose|l: int| 0 <= l < cut.spots@.len() && #[trigger] cut.spots@[l] == e;
            let g = everything();
            let hs = guess_fill::<C>(vars, s0, dfa, g);
            reveal(meant);
            assert(cut.claims@[l](g));
            let u = cut.arc(l).0;
            let v = cut.arc(l).1;
            let d = cut.spans@[l];
            assert(passes::<C>(w, s0, vars, dfa, ids, u, v, g, d));
            if d.end {
                let p = choose|p: Pkt| #[trigger]
                    carried_end::<C>(w, s0, vars, dfa, ids, u, g, d.a, d.k, d.i, p) && w.region(
                        s0,
                        d.a,
                        d.i,
                        p,
                    ) == d.src;
                assert(ins(d.a, d.i, p));
                assert(breach_end(x, s0, hs, t, out, ins, d.a, d.k, d.i, p));
            } else {
                let (p, m) = lemma_carried::<C>(w, s0, vars, dfa, ids, u, v, g, d);
                let b = x.graph.edges@[d.a as int]@[d.k].1;
                let jt = lands(x, b, d.j);
                x.lemma_row(s0, d.a as int);
                assert(graph_row(x.aut, s0, x.graph, d.a as int));
                assert(b < x.graph.states@.len());
                assert(ins(d.a, d.i, p) && !ins(b, jt, m));
                assert(breach(x, s0, hs, t, ins, outside(ins), d.a, d.k, d.i, d.j, p, m));
            }
            assert(leaves_by::<C>(*x, vars, s0, dfa, t, out, ins, outside(ins))(g));
        }
    }
    lemma_none_cross(arcs, side, arcs.len());
    side
}

/// The clause that some hole leads out of the places on one side of a minimum cut,
/// between what is reached now and that from which the word goes on now.  Whatever
/// gives the automaton the word satisfies it.  `false` if the network is too large:
/// then nothing is asserted of the holes.
pub fn add_lower_bound_clause_mincut<'a, C: Candidate<'a>, L: SmtLearner<'a>>(
    cex: &LowerBoundCounterexample,
    inst: &Instantiate<C>,
    vars: &Filling<C::Var>,
    learner: &mut L,
    store: &mut SPPstore,
    dfa: &'a ExplicitDFA,
) -> (r: bool)
    requires
        missing_word::<C, L>(
            *inst,
            *vars,
            *old(learner),
            *old(store),
            dfa,
            packets(cex.trace@),
            cex.output@,
        ),
    ensures
        final(store).wf(),
        final(store).extends(old(store)),
        refines(
            *final(learner),
            *old(learner),
            has_word::<C>(*inst, *vars, *old(store), dfa, packets(cex.trace@).push(cex.output@)),
        ),
        r ==> cut_clause::<C, L>(
            *final(learner),
            *old(learner),
            *inst,
            *vars,
            *old(store),
            dfa,
            packets(cex.trace@),
            cex.output@,
        ),
        !r ==> refines(*final(learner), *old(learner), |g: Guess| true) && too_large(
            inst,
            cex.trace@.len(),
        ),
{
    let ghost o = *learner;
    let ghost s0 = *store;
    let ghost t = packets(cex.trace@);
    let ghost out = cex.output@;
    let ghost n = t.len();
    let ghost kk = inst.graph.states@.len();
    proof {
        assert forall|i: int| 0 <= i < cex.trace@.len() implies (#[trigger] cex.trace@[i])@.len()
            == s0.n() by {
            assert(t[i] == cex.trace@[i]@);
        }
    }
    let trace = cex.trace.as_slice();
    let output = cex.output.as_slice();
    let forward = forward_reachable(inst, store, trace);
    let ghost s1 = *store;
    proof {
        inst.lemma_valid(s1, s0);
    }
    let roots = outer_states(inst);
    let backward = backward_reachable(inst, store, trace, output, &roots);
    let ghost s2 = *store;
    let w = Around { inst, trace, output, forward: &forward, backward: &backward };
    proof {
        lemma_reach_ext::<C>(&forward, s2, s1, n);
        assert forall|a: usize, i: int, p: Pkt|
            a < kk && 0 <= i < t.len() && p.len() == s0.n() implies (#[trigger] forward.lists(
            s2,
            State::<Place<C>>::Outer(a),
            i,
            p,
        ) <==> w.fwd(s0, a, i, p)) by {
            assert(forward.lists(s1, State::<Place<C>>::Outer(a), i, p) <==> w.fwd(s0, a, i, p));
        }
        assert forall|a: usize, i: int, p: Pkt|
            a < kk && 0 <= i < t.len() && p.len() == s0.n() implies (#[trigger] backward.lists(
            s2,
            State::<Place<C>>::Outer(a),
            i,
            p,
        ) <==> w.bwd(s0, a, i, p)) by {
            let q = State::<Place<C>>::Outer(a);
            assert(crate::holes::aut::among(roots@, q));
            assert(crate::holes::aut::among(backward.states@, q));
            lemma_completes_kept(inst, s1, s0, t, out, a, i, p);
        }
        assert(w.ok(s0, s2));
        lemma_bank_empty(o, s2.sp);
    }
    let mut cut = match CutGraph::new(inst.graph.states.len(), trace.len()) {
        Some(c) => c,
        None => {
            proof {
                lemma_unchanged(o, |g: Guess| true);
                lemma_unchanged(o, has_word::<C>(*inst, *vars, s0, dfa, t.push(out)));
            }
            return false;
        },
    };
    proof {
        assert(cut.lits@ =~= Seq::<Literal>::empty());
        assert(cut.claims@ =~= Seq::<Claim>::empty());
        reveal(meant);
        reveal(grounded);
        assert forall|h: Hole| #[trigger] inst.aut.uses(h) implies vars.has(h) by {
            assert(inst.holes.has(h));
        }
    }
    let ghost ids0 = cut.ids@;
    let built = build_network::<C, L>(
        &w, store, &mut cut, learner, vars, dfa, Ghost(s0), Ghost(o),
    );
    let ghost s3 = *store;
    let ghost l3 = *learner;
    if !built {
        proof {
            lemma_bank_only(l3, o, s3.sp, cut.lits@, cut.claims@, |g: Guess| true);
            lemma_bank_only(
                l3,
                o,
                s3.sp,
                cut.lits@,
                cut.claims@,
                has_word::<C>(*inst, *vars, s0, dfa, t.push(out)),
            );
        }
        return false;
    }
    let side = cut_side(&cut, Ghost(kk), Ghost(n));
    let ghost c0 = cut;
    let (lits, claims) = crossing(cut, &side, Ghost(kk), Ghost(n));
    let ghost ins = side_places(&w, s0, c0.ids@, side@);
    let ghost wanted = has_word::<C>(*inst, *vars, s0, dfa, t.push(out));
    let ghost demand = leaves_by::<C>(*inst, *vars, s0, dfa, t, out, ins, outside(ins));
    proof {
        lemma_bank_some(l3, o, s3.sp, c0.lits@, c0.claims@, lits@, claims@);
        lemma_side_cut::<C>(&w, s0, s3, *vars, dfa, c0, side@);
        assert forall|g: Guess| demand(g) implies #[trigger] any_claim(claims@, g) by {
            lemma_leaves_claimed::<C>(
                &w, s0, s3, *vars, dfa, c0, side@, g, any_claim(claims@, g),
            );
        }
        assert forall|g: Guess| #[trigger] any_claim(claims@, g) implies demand(g) by {
            lemma_side_leaves::<C>(&w, s0, *vars, dfa, c0, side@, claims@, g);
        }
        assert forall|g: Guess| #[trigger] wanted(g) implies demand(g) by {
            lemma_cut::<C>(&w, s0, s3, *vars, dfa, c0, side@, g, any_claim(claims@, g));
        }
    }
    assert_some(learner, store, lits, Ghost(o), Ghost(claims@), Ghost(demand));
    proof {
        if severed::<C>(*inst, *vars, s0, dfa, t, out) {
            let other = lemma_severed::<C>(&w, s0, s3, *vars, dfa, c0);
            assert(is_side(node_total(c0.net), c0.arcs(), other));
            assert forall|g: Guess, e: crate::holes::smt::Bits|
                !(#[trigger] learner.allows(g, e)) by {
                if learner.allows(g, e) {
                    assert(demand(g));
                    assert(any_claim(claims@, g));
                    let z = choose|z: int| 0 <= z < claims@.len() && (#[trigger] claims@[z])(g);
                    assert(leaves_side(c0, side@, claims@[z]));
                    let l = choose|l: int|
                        0 <= l < c0.claims@.len() && #[trigger] c0.claims@[l] == claims@[z]
                            && side@[c0.arc(l).0 as int] && !side@[c0.arc(l).1 as int];
                    assert(c0.arc(l).2 == 1);
                    assert(c0.spots@[l] < c0.arcs().len());
                    lemma_some_cross(
                        c0.arcs(),
                        side@,
                        c0.spots@[l] as int,
                        c0.arcs().len(),
                    );
                }
            }
            assert(demands(*learner, |g: Guess| false));
        }
        lemma_refines_less(*learner, o, demand, wanted);
        lemma_least::<C>(&w, s0, s3, *vars, dfa, c0, side@);
        assert(hole_clause::<C, L>(
            *learner,
            o,
            *inst,
            *vars,
            s0,
            dfa,
            t,
            out,
            ins,
            outside(ins),
        ));
    }
    true
}

/// That the word goes on from a place does not change when the store grows.
proof fn lemma_completes_kept<C: ENFA>(
    x: &Instantiate<C>,
    st: SPPstore,
    s0: SPPstore,
    t: Seq<Pkt>,
    out: Pkt,
    a: usize,
    i: int,
    p: Pkt,
)
    requires
        s0.wf(),
        st.wf(),
        st.extends(&s0),
        x.valid(s0),
        a < x.graph.states@.len(),
        forall|j: int| 0 <= j < t.len() ==> (#[trigger] t[j]).len() == s0.n(),
        out.len() == s0.n(),
        0 <= i < t.len(),
        p.len() == s0.n(),
    ensures
        completes(x, st, t, out, State::<Place<C>>::Outer(a), i, p) == completes(
            x,
            s0,
            t,
            out,
            State::<Place<C>>::Outer(a),
            i,
            p,
        ),
{
    lemma_word_from(s0.n(), t, out, i, p);
    x.lemma_valid(st, s0);
    crate::holes::aut::lemma_lang_valid(
        x,
        st,
        s0,
        State::<Place<C>>::Outer(a),
        word_from(t, out, i, p),
    );
}

/// A learner that stays as it is.
proof fn lemma_unchanged<'a, L: SmtLearner<'a>>(l: L, demand: Claim)
    requires
        l.wf(),
    ensures
        refines(l, l, demand),
{
}

/// Literals alone lose no guess.
proof fn lemma_bank_only<'a, L: SmtLearner<'a>>(
    l: L,
    o: L,
    st: crate::sp::SPstore,
    lits: Seq<Literal>,
    claims: Seq<Claim>,
    demand: Claim,
)
    requires
        banked(l, o, st, lits, claims),
    ensures
        refines(l, o, demand),
{
    assert forall|g: Guess| #[trigger] admitted(o, g) && demand(g) implies admitted(l, g) by {
        let e = choose|e: crate::holes::smt::Bits| #[trigger] o.allows(g, e);
        assert(crate::holes::cegis::banked_for(l, o, st, lits, claims, g, e));
        reveal(crate::holes::cegis::banked_for);
        let f = choose|f: crate::holes::smt::Bits|
            crate::holes::smt::same_bits(o.vars(), e, f) && #[trigger] l.allows(g, f)
                && crate::holes::cegis::truthful(st, lits, claims, g, f);
        assert(l.allows(g, f));
    }
}

} // verus!
