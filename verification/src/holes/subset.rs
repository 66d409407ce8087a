//! The subset construction.
use vstd::prelude::*;
use crate::holes::aut::{
    among, deterministic, enfa_lang, lemma_among_push, lemma_listed_push, lemma_nfa_word, listed,
    models, nfa_word, position, Place, StateKey, DFA, ENFA, NFA,
};
use crate::holes::ops::lemma_listed_ext;
use crate::lang::{is_word, lemma_tail, Word};
use crate::sp::Pkt;
use crate::spp::{SPPstore, SPP};

verus! {

// ---- lists of transitions with one entry for every state -----------------------------------

/// No two transitions of the list lead to the same state.
pub open spec fn merged<S: StateKey>(ts: Seq<(SPP, S)>) -> bool {
    forall|i: int, j: int|
        #![trigger ts[i], ts[j]]
        0 <= i < j < ts.len() ==> ts[i].1.model() != ts[j].1.model()
}

/// The list has relations of the store only.
pub open spec fn rels_ok<S: StateKey>(st: SPPstore, ts: Seq<(SPP, S)>) -> bool {
    forall|i: int| 0 <= i < ts.len() ==> st.has((#[trigger] ts[i]).0)
}

/// The position of the transition to a state.
fn find_entry<S: StateKey>(ts: &Vec<(SPP, S)>, key: &S) -> (r: Option<usize>)
    ensures
        match r {
            Some(i) => i < ts@.len() && ts@[i as int].1.model() == key.model(),
            None => forall|j: int| 0 <= j < ts@.len() ==> (#[trigger] ts@[j]).1.model() != key.model(),
        },
{
    let mut i: usize = 0;
    while i < ts.len()
        invariant
            i <= ts@.len(),
            forall|j: int| 0 <= j < i ==> (#[trigger] ts@[j]).1.model() != key.model(),
        decreases ts.len() - i,
    {
        if ts[i].1.same(key) {
            return Some(i);
        }
        i = i + 1;
    }
    None
}

/// Adds a transition to the list: to the one that leads to the state already, if
/// there is one.
pub fn union_into<S: StateKey>(map: &mut Vec<(SPP, S)>, store: &mut SPPstore, key: S, spp: SPP)
    requires
        old(store).wf(),
        old(store).has(spp),
        rels_ok(*old(store), old(map)@),
        merged(old(map)@),
    ensures
        final(store).wf(),
        final(store).extends(old(store)),
        rels_ok(*final(store), final(map)@),
        merged(final(map)@),
        forall|i: int|
            0 <= i < final(map)@.len() ==> (#[trigger] final(map)@[i]).1.model() == key.model()
                || exists|j: int|
                0 <= j < old(map)@.len() && (#[trigger] old(map)@[j]).1.model()
                    == final(map)@[i].1.model(),
        forall|p: Pkt, r: S::M, x: Pkt|
            #![trigger listed(*final(store), final(map)@, p, r, x)]
            p.len() == old(store).n() && x.len() == old(store).n() ==> (listed(
                *final(store),
                final(map)@,
                p,
                r,
                x,
            ) <==> listed(*old(store), old(map)@, p, r, x) || (old(store).rel(spp, p, x)
                && key.model() == r)),
{
    let ghost o = *store;
    let ghost m0 = map@;
    match find_entry(map, &key) {
        Some(i) => {
            proof {
                assert(o.has(m0[i as int].0));
            }
            let x = store.union(map[i].0, spp);
            map.set(i, (x, key));
            proof {
                let st = *store;
                let m1 = map@;
                assert forall|j: int| 0 <= j < m1.len() implies st.has((#[trigger] m1[j]).0) by {
                    if j != i {
                        assert(m1[j] == m0[j]);
                        assert(o.has(m0[j].0));
                    }
                }
                assert forall|j: int|
                    0 <= j < m1.len() implies (#[trigger] m1[j]).1.model() == key.model()
                    || exists|k: int|
                    0 <= k < m0.len() && (#[trigger] m0[k]).1.model() == m1[j].1.model() by {
                    if j != i {
                        assert(m0[j].1.model() == m1[j].1.model());
                    }
                }
                assert forall|j: int, k: int|
                    #![trigger m1[j], m1[k]]
                    0 <= j < k < m1.len() implies m1[j].1.model() != m1[k].1.model() by {
                    assert(m0[j].1.model() == m1[j].1.model());
                    assert(m0[k].1.model() == m1[k].1.model());
                }
                assert forall|p: Pkt, r: S::M, y: Pkt|
                    #![trigger listed(st, m1, p, r, y)]
                    p.len() == o.n() && y.len() == o.n() implies (listed(st, m1, p, r, y)
                    <==> listed(o, m0, p, r, y) || (o.rel(spp, p, y) && key.model() == r)) by {
                    assert(st.rel(x, p, y) == (o.rel(m0[i as int].0, p, y) || o.rel(spp, p, y)));
                    if listed(st, m1, p, r, y) {
                        let j = choose|j: int|
                            0 <= j < m1.len() && st.rel((#[trigger] m1[j]).0, p, y)
                                && m1[j].1.model() == r;
                        if j != i {
                            assert(m1[j] == m0[j]);
                            assert(o.has(m0[j].0));
                            assert(o.rel(m0[j].0, p, y));
                        } else if o.rel(m0[i as int].0, p, y) {
                            assert(m0[i as int].1.model() == r);
                        }
                    }
                    if listed(o, m0, p, r, y) {
                        let j = choose|j: int|
                            0 <= j < m0.len() && o.rel((#[trigger] m0[j]).0, p, y)
                                && m0[j].1.model() == r;
                        assert(o.has(m0[j].0));
                        if j != i {
                            assert(st.rel(m1[j].0, p, y) && m1[j].1.model() == r);
                        } else {
                            assert(st.rel(m1[i as int].0, p, y) && m1[i as int].1.model() == r);
                        }
                    }
                    if o.rel(spp, p, y) && key.model() == r {
                        assert(st.rel(m1[i as int].0, p, y) && m1[i as int].1.model() == r);
                    }
                }
            }
        },
        None => {
            map.push((spp, key));
            proof {
                let m1 = map@;
                assert(m1 =~= m0.push((spp, key)));
                assert forall|j: int|
                    0 <= j < m1.len() implies (#[trigger] m1[j]).1.model() == key.model()
                    || exists|k: int|
                    0 <= k < m0.len() && (#[trigger] m0[k]).1.model() == m1[j].1.model() by {
                    if j < m0.len() {
                        assert(m0[j].1.model() == m1[j].1.model());
                    }
                }
                assert forall|p: Pkt, r: S::M, y: Pkt|
                    #![trigger listed(o, m1, p, r, y)]
                    p.len() == o.n() && y.len() == o.n() implies (listed(o, m1, p, r, y) <==> listed(
                    o,
                    m0,
                    p,
                    r,
                    y,
                ) || (o.rel(spp, p, y) && key.model() == r)) by {
                    lemma_listed_push(o, m0, (spp, key), p, r, y);
                }
            }
        },
    }
}

// ---- sets of states ----------------------------------------------------------------------------

/// A set of states.
pub struct StateSet<S> {
    pub items: Vec<S>,
}

/// The states of a list.
pub open spec fn set_of<S: StateKey>(v: Seq<S>) -> Set<S::M> {
    Set::new(|m: S::M| among(v, m))
}

impl<S: StateKey> StateSet<S> {
    /// Whether every state is in the other set.
    fn within(&self, o: &StateSet<S>) -> (r: bool)
        ensures
            r <==> forall|m: S::M| among(self.items@, m) ==> #[trigger] among(o.items@, m),
    {
        let mut i: usize = 0;
        while i < self.items.len()
            invariant
                i <= self.items@.len(),
                forall|j: int|
                    0 <= j < i ==> among(o.items@, (#[trigger] self.items@[j]).model()),
            decreases self.items.len() - i,
        {
            if position(&o.items, &self.items[i]).is_none() {
                proof {
                    let m = self.items@[i as int].model();
                    assert(among(self.items@, m));
                    assert(!among(o.items@, m));
                }
                return false;
            }
            proof {
                let m = self.items@[i as int].model();
                let k = choose|k: int| 0 <= k < o.items@.len() && (#[trigger] o.items@[k]).model()
                    == m;
                assert(among(o.items@, m));
            }
            i = i + 1;
        }
        proof {
            assert forall|m: S::M| among(self.items@, m) implies #[trigger] among(o.items@, m) by {
                let j = choose|j: int|
                    0 <= j < self.items@.len() && (#[trigger] self.items@[j]).model() == m;
                assert(among(o.items@, self.items@[j].model()));
            }
        }
        true
    }
}

impl<S: StateKey> StateKey for StateSet<S> {
    type M = Set<S::M>;

    open spec fn model(&self) -> Set<S::M> {
        set_of(self.items@)
    }

    fn same(&self, o: &Self) -> (r: bool) {
        let a = self.within(o);
        let b = o.within(self);
        proof {
            if a && b {
                assert forall|m: S::M| #[trigger]
                    set_of(self.items@).contains(m) == set_of(o.items@).contains(m) by {
                    assert(among(self.items@, m) == among(o.items@, m));
                }
                assert(set_of(self.items@) =~= set_of(o.items@));
            }
            if set_of(self.items@) == set_of(o.items@) {
                assert forall|m: S::M| #[trigger]
                    among(self.items@, m) == among(o.items@, m) by {
                    assert(set_of(self.items@).contains(m) == set_of(o.items@).contains(m));
                }
            }
        }
        a && b
    }

    fn dup(&self) -> (r: Self) {
        let items = self.items.dup();
        proof {
            assert forall|m: S::M| #[trigger]
                set_of(items@).contains(m) == set_of(self.items@).contains(m) by {
                let (v, u) = (items@, self.items@);
                let (vm, um) = (models(v), models(u));
                assert(vm == um);
                assert(vm.len() == v.len() && um.len() == u.len());
                if among(v, m) {
                    let i = choose|i: int| 0 <= i < v.len() && (#[trigger] v[i]).model() == m;
                    assert(vm[i] == um[i]);
                    assert(u[i].model() == m);
                }
                if among(u, m) {
                    let i = choose|i: int| 0 <= i < u.len() && (#[trigger] u[i]).model() == m;
                    assert(vm[i] == um[i]);
                    assert(v[i].model() == m);
                }
            }
            assert(set_of(items@) =~= set_of(self.items@));
        }
        StateSet { items }
    }
}

// ---- partitions ---------------------------------------------------------------------------------

/// Some transition of the list leads to state `m`.
spec fn targets<S: StateKey>(ts: Seq<(SPP, S)>, m: S::M) -> bool {
    exists|k: int| 0 <= k < ts.len() && (#[trigger] ts[k]).1.model() == m
}

/// The pairs of packets are split into parts by the states that the transitions
/// lead to.
spec fn splits<S: StateKey>(
    st: SPPstore,
    parts: Seq<(SPP, StateSet<S>)>,
    o: SPPstore,
    ts: Seq<(SPP, S)>,
) -> bool {
    &&& rels_ok(st, parts)
    &&& forall|i: int, p: Pkt, x: Pkt, m: S::M|
        #![trigger st.rel(parts[i].0, p, x), among(parts[i].1.items@, m)]
        0 <= i < parts.len() && p.len() == o.n() && x.len() == o.n() && st.rel(
            parts[i].0,
            p,
            x,
        ) ==> (among(parts[i].1.items@, m) <==> listed(o, ts, p, m, x))
    &&& forall|p: Pkt, x: Pkt| #[trigger]
        in_part(st, parts, p, x) <==> p.len() == o.n() && x.len() == o.n()
    &&& forall|i: int, m: S::M|
        0 <= i < parts.len() && #[trigger] among(parts[i].1.items@, m) ==> targets(ts, m)
}

/// No two entries have a pair of packets in common.
pub open spec fn apart<S>(st: SPPstore, parts: Seq<(SPP, S)>) -> bool {
    forall|i: int, j: int, p: Pkt, x: Pkt|
        #![trigger st.rel(parts[i].0, p, x), st.rel(parts[j].0, p, x)]
        0 <= i < parts.len() && 0 <= j < parts.len() && p.len() == st.n() && x.len() == st.n()
            && st.rel(parts[i].0, p, x) && st.rel(parts[j].0, p, x) ==> i == j
}

/// The entries of the one list are those of the other at the positions, in order.
spec fn picked<S>(parts: Seq<(SPP, S)>, r: Seq<(SPP, S)>, at: Seq<int>) -> bool {
    &&& at.len() == r.len()
    &&& forall|h: int|
        0 <= h < r.len() ==> 0 <= #[trigger] at[h] < parts.len() && r[h].0 == parts[at[h]].0
    &&& forall|g: int, h: int| #![trigger at[g], at[h]] 0 <= g < h < at.len() ==> at[g] < at[h]
}

proof fn lemma_picked_apart<S>(
    st: SPPstore,
    parts: Seq<(SPP, S)>,
    r: Seq<(SPP, S)>,
    at: Seq<int>,
)
    requires
        apart(st, parts),
        picked(parts, r, at),
    ensures
        apart(st, r),
{
    assert forall|i: int, j: int, p: Pkt, x: Pkt|
        #![trigger st.rel(r[i].0, p, x), st.rel(r[j].0, p, x)]
        0 <= i < r.len() && 0 <= j < r.len() && p.len() == st.n() && x.len() == st.n() && st.rel(
            r[i].0,
            p,
            x,
        ) && st.rel(r[j].0, p, x) implies i == j by {
        assert(st.rel(parts[at[i]].0, p, x) && st.rel(parts[at[j]].0, p, x));
        assert(at[i] == at[j]);
    }
}

/// Some part has the pair of packets.
spec fn in_part<S: StateKey>(
    st: SPPstore,
    parts: Seq<(SPP, StateSet<S>)>,
    p: Pkt,
    x: Pkt,
) -> bool {
    p.len() == st.n() && x.len() == st.n() && exists|i: int|
        0 <= i < parts.len() && st.rel((#[trigger] parts[i]).0, p, x)
}

/// The set has a state.
pub open spec fn has_some<M>(s: Set<M>) -> bool {
    exists|m: M| s.contains(m)
}


/// Splits every part by whether it has pairs of the relation; those that do get
/// the state.
fn refine<S: StateKey>(
    store: &mut SPPstore,
    parts: &Vec<(SPP, StateSet<S>)>,
    spp: SPP,
    q: &S,
    Ghost(o): Ghost<SPPstore>,
    Ghost(ts): Ghost<Seq<(SPP, S)>>,
    Ghost(t): Ghost<(SPP, S)>,
) -> (r: Vec<(SPP, StateSet<S>)>)
    requires
        old(store).wf(),
        o.wf(),
        old(store).extends(&o),
        rels_ok(o, ts),
        o.has(spp),
        t.0 == spp,
        t.1.model() == q.model(),
        splits(*old(store), parts@, o, ts),
        apart(*old(store), parts@),
    ensures
        apart(*final(store), r@),
        final(store).wf(),
        final(store).extends(old(store)),
        splits(*final(store), r@, o, ts.push(t)),
        forall|j: int| 0 <= j < r@.len() ==> (#[trigger] r@[j]).0 != final(store).zero,
{
    let ghost n = o.n();
    let ghost s0 = *store;
    let ghost ts1 = ts.push(t);
    let mut r: Vec<(SPP, StateSet<S>)> = Vec::new();
    let mut i: usize = 0;
    while i < parts.len()
        invariant
            store.wf(),
            s0.wf(),
            store.extends(&s0),
            s0.extends(&o),
            o.wf(),
            n == o.n(),
            o.has(spp),
            t.0 == spp,
            t.1.model() == q.model(),
            ts1 == ts.push(t),
            splits(s0, parts@, o, ts),
            apart(s0, parts@),
            apart(*store, r@),
            i <= parts@.len(),
            forall|j: int| 0 <= j < r@.len() ==> (#[trigger] r@[j]).0 != store.zero,
            rels_ok(*store, r@),
            forall|j: int, p: Pkt, x: Pkt, m: S::M|
                #![trigger store.rel(r@[j].0, p, x), among(r@[j].1.items@, m)]
                0 <= j < r@.len() && p.len() == n && x.len() == n && store.rel(r@[j].0, p, x) ==> (
                among(r@[j].1.items@, m) <==> listed(o, ts1, p, m, x)),
            forall|p: Pkt, x: Pkt| #[trigger]
                in_part(*store, r@, p, x) <==> in_part(s0, parts@.take(i as int), p, x),
            forall|j: int, m: S::M|
                0 <= j < r@.len() && #[trigger] among(r@[j].1.items@, m) ==> targets(ts1, m),
        decreases parts.len() - i,
    {
        let ghost s1 = *store;
        let ghost r0 = r@;
        let ghost region = parts@[i as int].0;
        let ghost set = parts@[i as int].1.items@;
        proof {
            assert(s0.has(parts@[i as int].0));
        }
        let in_region = store.intersect(parts[i].0, spp);
        let ghost s2 = *store;
        let out_region = store.difference(parts[i].0, spp);
        let ghost s3 = *store;
        proof {
            s3.lemma_wf();
            s3.lemma_nonzero(in_region);
            s3.lemma_nonzero(out_region);
        }
        let ghost has_in = in_region != store.zero;
        let ghost has_out = out_region != store.zero;
        if in_region != store.zero {
            let mut items = parts[i].1.items.dup();
            proof {
                lemma_among_dup(items@, set);
            }
            let ghost i0 = items@;
            if position(&items, q).is_none() {
                items.push(q.dup());
            } else {
                proof {
                    let k = choose|k: int| 0 <= k < i0.len() && (#[trigger] i0[k]).model()
                        == q.model();
                    assert(among(i0, q.model()));
                }
            }
            proof {
                assert forall|m: S::M| #[trigger] among(items@, m) <==> among(set, m) || m
                    == q.model() by {
                    if items@.len() > i0.len() {
                        assert(items@ =~= i0.push(items@[i0.len() as int]));
                        lemma_among_push(i0, items@[i0.len() as int], m);
                    }
                }
            }
            r.push((in_region, StateSet { items }));
        }
        let ghost r1 = r@;
        if out_region != store.zero {
            let items = parts[i].1.items.dup();
            proof {
                lemma_among_dup(items@, set);
            }
            r.push((out_region, StateSet { items }));
        }
        proof {
            assert forall|p: Pkt, x: Pkt| p.len() == n && x.len() == n implies #[trigger] s3.rel(
                in_region,
                p,
                x,
            ) == (s0.rel(region, p, x) && o.rel(spp, p, x)) by {
                assert(s1.rel(region, p, x) == s0.rel(region, p, x));
                assert(s1.rel(spp, p, x) == s0.rel(spp, p, x));
                assert(s2.rel(in_region, p, x) == s3.rel(in_region, p, x));
            }
            assert forall|p: Pkt, x: Pkt| p.len() == n && x.len() == n implies #[trigger] s3.rel(
                out_region,
                p,
                x,
            ) == (s0.rel(region, p, x) && !o.rel(spp, p, x)) by {
                assert(s2.rel(region, p, x) == s0.rel(region, p, x));
                assert(s2.rel(spp, p, x) == s0.rel(spp, p, x));
            }
            assert(apart(s3, r@)) by {
                assert forall|j: int, p: Pkt, x: Pkt|
                    0 <= j < r0.len() && p.len() == n && x.len() == n && #[trigger] s3.rel(
                        r@[j].0,
                        p,
                        x,
                    ) implies !s0.rel(region, p, x) by {
                    assert(r@[j] == r0[j]);
                    assert(s1.has(r0[j].0));
                    assert(s1.rel(r0[j].0, p, x));
                    assert(in_part(s1, r0, p, x));
                    let before = parts@.take(i as int);
                    assert(in_part(s0, before, p, x));
                    let k = choose|k: int|
                        0 <= k < before.len() && s0.rel((#[trigger] before[k]).0, p, x);
                    assert(s0.rel(parts@[k].0, p, x));
                    if s0.rel(region, p, x) {
                        assert(s0.rel(parts@[i as int].0, p, x));
                    }
                }
                assert forall|j: int| r0.len() <= j < r@.len() implies (#[trigger] r@[j]).0
                    == in_region && j == r0.len() || r@[j].0 == out_region && j == r@.len() - 1 by {}
                assert forall|g: int, h: int, p: Pkt, x: Pkt|
                    #![trigger s3.rel(r@[g].0, p, x), s3.rel(r@[h].0, p, x)]
                    0 <= g < r@.len() && 0 <= h < r@.len() && p.len() == s3.n() && x.len()
                        == s3.n() && s3.rel(r@[g].0, p, x) && s3.rel(r@[h].0, p, x) implies g
                    == h by {
                    if g < r0.len() && h < r0.len() {
                        assert(r@[g] == r0[g] && r@[h] == r0[h]);
                        assert(s1.has(r0[g].0) && s1.has(r0[h].0));
                        assert(s1.rel(r0[g].0, p, x) && s1.rel(r0[h].0, p, x));
                    } else if g >= r0.len() && h >= r0.len() {
                        assert(r@[g].0 == in_region || r@[g].0 == out_region);
                        assert(r@[h].0 == in_region || r@[h].0 == out_region);
                        assert(s3.rel(in_region, p, x) ==> o.rel(spp, p, x));
                        assert(s3.rel(out_region, p, x) ==> !o.rel(spp, p, x));
                    } else {
                        let e = if g >= r0.len() {
                            g
                        } else {
                            h
                        };
                        assert(r@[e].0 == in_region || r@[e].0 == out_region);
                        assert(s0.rel(region, p, x));
                    }
                }
            }
            assert forall|j: int| 0 <= j < r@.len() implies (#[trigger] r@[j]).0 != s3.zero by {
                if j < r0.len() {
                    assert(r@[j] == r0[j]);
                } else if has_in && j == r0.len() {
                    assert(r@[j] == r1[j]);
                }
            }
            assert forall|j: int| 0 <= j < r@.len() implies s3.has((#[trigger] r@[j]).0) by {
                if j < r0.len() {
                    assert(r@[j] == r0[j]);
                    assert(s1.has(r0[j].0));
                }
            }
            assert forall|j: int, p: Pkt, x: Pkt, m: S::M|
                #![trigger s3.rel(r@[j].0, p, x), among(r@[j].1.items@, m)]
                0 <= j < r@.len() && p.len() == n && x.len() == n && s3.rel(
                    r@[j].0,
                    p,
                    x,
                ) implies (among(r@[j].1.items@, m) <==> listed(o, ts1, p, m, x)) by {
                lemma_listed_push(o, ts, t, p, m, x);
                if j < r0.len() {
                    assert(r@[j] == r0[j]);
                    assert(s1.has(r0[j].0));
                    assert(s1.rel(r0[j].0, p, x));
                    assert(among(r0[j].1.items@, m) <==> listed(o, ts1, p, m, x));
                } else {
                    assert(s0.rel(parts@[i as int].0, p, x));
                    assert(among(parts@[i as int].1.items@, m) <==> listed(o, ts, p, m, x));
                    if has_in && j == r0.len() {
                        assert(r@[j] == r1[j]);
                        assert(s3.rel(in_region, p, x));
                    } else {
                        assert(s3.rel(out_region, p, x));
                    }
                }
            }
            assert forall|j: int, m: S::M|
                0 <= j < r@.len() && #[trigger] among(r@[j].1.items@, m) implies targets(
                ts1,
                m,
            ) by {
                if j < r0.len() {
                    assert(r@[j] == r0[j]);
                    assert(among(r0[j].1.items@, m));
                } else {
                    if has_in && j == r0.len() {
                        assert(r@[j] == r1[j]);
                    }
                    assert(ts1[ts.len() as int] == t);
                    if m != q.model() {
                        assert(among(parts@[i as int].1.items@, m));
                        let k = choose|k: int| 0 <= k < ts.len() && (#[trigger] ts[k]).1.model()
                            == m;
                        assert(ts1[k] == ts[k]);
                    } else {
                        assert(ts1[ts.len() as int].1.model() == m);
                    }
                }
            }
            assert(parts@.take(i + 1) =~= parts@.take(i as int).push(parts@[i as int]));
            assert forall|p: Pkt, x: Pkt| #[trigger] in_part(s3, r@, p, x) <==> in_part(
                s0,
                parts@.take(i + 1),
                p,
                x,
            ) by {
                let u = parts@.take(i as int);
                let u1 = parts@.take(i + 1);
                if p.len() == n && x.len() == n {
                    assert(in_part(s1, r0, p, x) <==> in_part(s0, u, p, x));
                    assert(u1[i as int] == parts@[i as int]);
                    if in_part(s3, r@, p, x) {
                        let j = choose|j: int|
                            0 <= j < r@.len() && s3.rel((#[trigger] r@[j]).0, p, x);
                        if j < r0.len() {
                            assert(r@[j] == r0[j]);
                            assert(s1.has(r0[j].0));
                            assert(s1.rel(r0[j].0, p, x));
                            assert(in_part(s0, u, p, x));
                            let k = choose|k: int|
                                0 <= k < u.len() && s0.rel((#[trigger] u[k]).0, p, x);
                            assert(u1[k] == u[k]);
                        } else {
                            assert(s0.rel(u1[i as int].0, p, x));
                        }
                    }
                    if in_part(s0, u1, p, x) {
                        let k = choose|k: int|
                            0 <= k < u1.len() && s0.rel((#[trigger] u1[k]).0, p, x);
                        if k < i {
                            assert(u[k] == u1[k]);
                            assert(in_part(s0, u, p, x));
                            let j = choose|j: int|
                                0 <= j < r0.len() && s1.rel((#[trigger] r0[j]).0, p, x);
                            assert(s1.has(r0[j].0));
                            assert(r@[j] == r0[j]);
                            assert(s3.rel(r@[j].0, p, x));
                        } else if o.rel(spp, p, x) {
                            assert(s3.rel(in_region, p, x));
                            assert(r@[r0.len() as int] == r1[r0.len() as int]);
                            assert(s3.rel(r@[r0.len() as int].0, p, x));
                        } else {
                            assert(s3.rel(out_region, p, x));
                            assert(s3.rel(r@[r1.len() as int].0, p, x));
                        }
                    }
                }
            }
        }
        i = i + 1;
    }
    proof {
        assert(parts@.take(i as int) =~= parts@);
        assert forall|p: Pkt, x: Pkt| #[trigger] in_part(*store, r@, p, x) <==> p.len() == o.n()
            && x.len() == o.n() by {
            assert(in_part(s0, parts@, p, x) <==> p.len() == o.n() && x.len() == o.n());
        }
    }
    r
}

proof fn lemma_among_dup<S: StateKey>(v: Seq<S>, u: Seq<S>)
    requires
        models(v) == models(u),
    ensures
        forall|m: S::M| #[trigger] among(v, m) <==> among(u, m),
{
    let (vm, um) = (models(v), models(u));
    assert(vm.len() == v.len() && um.len() == u.len());
    assert forall|m: S::M| #[trigger] among(v, m) <==> among(u, m) by {
        if among(v, m) {
            let i = choose|i: int| 0 <= i < v.len() && (#[trigger] v[i]).model() == m;
            assert(vm[i] == um[i]);
            assert(u[i].model() == m);
        }
        if among(u, m) {
            let i = choose|i: int| 0 <= i < u.len() && (#[trigger] u[i]).model() == m;
            assert(vm[i] == um[i]);
            assert(v[i].model() == m);
        }
    }
}

/// The parts with states are kept.
spec fn kept<S: StateKey>(parts: Seq<(SPP, StateSet<S>)>, r: Seq<(SPP, StateSet<S>)>) -> bool {
    &&& forall|h: int| 0 <= h < r.len() ==> from_part(parts, #[trigger] r[h])
    &&& forall|j: int|
        0 <= j < parts.len() && (#[trigger] parts[j]).1.items@.len() > 0 ==> to_part(r, parts[j])
}

spec fn from_part<S: StateKey>(parts: Seq<(SPP, StateSet<S>)>, e: (SPP, StateSet<S>)) -> bool {
    exists|j: int|
        0 <= j < parts.len() && (#[trigger] parts[j]).0 == e.0 && parts[j].1.items@.len() > 0
            && parts[j].1.model() == e.1.model()
}

spec fn to_part<S: StateKey>(r: Seq<(SPP, StateSet<S>)>, e: (SPP, StateSet<S>)) -> bool {
    exists|h: int| 0 <= h < r.len() && (#[trigger] r[h]).0 == e.0 && r[h].1.model() == e.1.model()
}

fn keep_nonempty<S: StateKey>(parts: &Vec<(SPP, StateSet<S>)>) -> (r: Vec<(SPP, StateSet<S>)>)
    ensures
        kept(parts@, r@),
        exists|at: Seq<int>| #[trigger] picked(parts@, r@, at),
        forall|h: int| 0 <= h < r@.len() ==> has_some((#[trigger] r@[h]).1.model()),
{
    let mut r: Vec<(SPP, StateSet<S>)> = Vec::new();
    let ghost mut at = Seq::<int>::empty();
    let mut k: usize = 0;
    while k < parts.len()
        invariant
            k <= parts@.len(),
            picked(parts@, r@, at),
            forall|h: int| 0 <= h < at.len() ==> #[trigger] at[h] < k,
            forall|h: int| 0 <= h < r@.len() ==> has_some((#[trigger] r@[h]).1.model()),
            forall|h: int| 0 <= h < r@.len() ==> from_part(parts@, #[trigger] r@[h]),
            forall|j: int|
                0 <= j < k && (#[trigger] parts@[j]).1.items@.len() > 0 ==> to_part(
                    r@,
                    parts@[j],
                ),
        decreases parts.len() - k,
    {
        let ghost r0 = r@;
        if parts[k].1.items.len() > 0 {
            r.push((parts[k].0, parts[k].1.dup()));
            proof {
                at = at.push(k as int);
                let e = r@[r0.len() as int];
                assert(parts@[k as int].0 == e.0 && parts@[k as int].1.model() == e.1.model());
                assert(from_part(parts@, e));
                let z = parts@[k as int].1.items@[0].model();
                assert(among(parts@[k as int].1.items@, z));
                assert(parts@[k as int].1.model().contains(z));
                assert(has_some(e.1.model()));
                assert(to_part(r@, parts@[k as int]));
            }
        }
        proof {
            assert forall|h: int| 0 <= h < r@.len() implies from_part(
                parts@,
                #[trigger] r@[h],
            ) by {
                if h < r0.len() {
                    assert(r@[h] == r0[h]);
                }
            }
            assert forall|j: int|
                0 <= j < k + 1 && (#[trigger] parts@[j]).1.items@.len() > 0 implies to_part(
                r@,
                parts@[j],
            ) by {
                if j < k {
                    assert(to_part(r0, parts@[j]));
                    let h = choose|h: int|
                        0 <= h < r0.len() && (#[trigger] r0[h]).0 == parts@[j].0
                            && r0[h].1.model() == parts@[j].1.model();
                    assert(r@[h] == r0[h]);
                }
            }
        }
        k = k + 1;
    }
    r
}

// ---- the construction ----------------------------------------------------------------------------

/// The subset construction: a deterministic automaton whose states are sets of
/// states of the inner one.
#[derive(Clone)]
pub struct SubsetDfa<T: NFA> {
    pub inner: T,
}

/// The states that steps lead to from the states of a set.
pub open spec fn image<T: ENFA>(
    a: &T,
    st: SPPstore,
    s: Set<Place<T>>,
    p: Pkt,
    x: Pkt,
) -> Set<Place<T>> {
    Set::new(|r: Place<T>| exists|q: Place<T>| s.contains(q) && #[trigger] a.step(st, q, p, r, x))
}

impl<T: NFA> SubsetDfa<T> {
    /// The subset construction on an automaton.
    pub fn new(inner: T) -> (r: Self)
        ensures
            r.inner == inner,
    {
        SubsetDfa { inner }
    }

    /// The automaton.
    pub fn inner(&self) -> (r: &T)
        ensures
            *r == self.inner,
    {
        &self.inner
    }

    /// All transitions from the states of a set, with one entry for every state
    /// they lead to.
    fn gather(&self, store: &mut SPPstore, q: &StateSet<T::State>) -> (r: Vec<(SPP, T::State)>)
        requires
            old(store).wf(),
            self.inner.valid(*old(store)),
            forall|m: Place<T>| #[trigger] q.model().contains(m) ==> self.inner.is_state(m),
        ensures
            final(store).wf(),
            final(store).extends(old(store)),
            rels_ok(*final(store), r@),
            merged(r@),
            forall|i: int|
                0 <= i < r@.len() ==> self.inner.is_state((#[trigger] r@[i]).1.model()),
            forall|p: Pkt, m: Place<T>, x: Pkt|
                #![trigger listed(*final(store), r@, p, m, x)]
                p.len() == old(store).n() && x.len() == old(store).n() ==> (listed(
                    *final(store),
                    r@,
                    p,
                    m,
                    x,
                ) <==> image(&self.inner, *old(store), q.model(), p, x).contains(m)),
    {
        let ghost o = *store;
        let ghost n = o.n();
        let ghost v = q.items@;
        let mut r: Vec<(SPP, T::State)> = Vec::new();
        let mut i: usize = 0;
        while i < q.items.len()
            invariant
                store.wf(),
                store.extends(&o),
                o.wf(),
                n == o.n(),
                v == q.items@,
                self.inner.valid(o),
                forall|m: Place<T>| #[trigger] q.model().contains(m) ==> self.inner.is_state(m),
                i <= v.len(),
                rels_ok(*store, r@),
                merged(r@),
                forall|j: int|
                    0 <= j < r@.len() ==> self.inner.is_state((#[trigger] r@[j]).1.model()),
                forall|p: Pkt, m: Place<T>, x: Pkt|
                    #![trigger listed(*store, r@, p, m, x)]
                    p.len() == n && x.len() == n ==> (listed(*store, r@, p, m, x) <==> image(
                        &self.inner,
                        o,
                        set_of(v.take(i as int)),
                        p,
                        x,
                    ).contains(m)),
            decreases q.items.len() - i,
        {
            let ghost s0 = *store;
            let ghost r0 = r@;
            let ghost z = v[i as int].model();
            proof {
                assert(among(v, z));
                assert(q.model().contains(z));
                self.inner.lemma_valid(s0, o);
            }
            let ts = self.inner.transitions(store, &q.items[i]);
            let ghost s1 = *store;
            proof {
                lemma_listed_ext(s1, s0, r0);
            }
            let mut j: usize = 0;
            while j < ts.len()
                invariant
                    store.wf(),
                    store.extends(&s1),
                    s1.wf(),
                    s1.n() == n,
                    j <= ts@.len(),
                    forall|k: int|
                        0 <= k < ts@.len() ==> s1.has((#[trigger] ts@[k]).0)
                            && self.inner.is_state(ts@[k].1.model()),
                    rels_ok(*store, r@),
                    merged(r@),
                    forall|k: int|
                        0 <= k < r@.len() ==> self.inner.is_state((#[trigger] r@[k]).1.model()),
                    forall|p: Pkt, m: Place<T>, x: Pkt|
                        #![trigger listed(*store, r@, p, m, x)]
                        p.len() == n && x.len() == n ==> (listed(*store, r@, p, m, x) <==> listed(
                            s1,
                            r0,
                            p,
                            m,
                            x,
                        ) || listed(s1, ts@.take(j as int), p, m, x)),
                decreases ts.len() - j,
            {
                let ghost s2 = *store;
                let ghost r1 = r@;
                let ghost t = ts@[j as int];
                proof {
                    assert(s1.has(ts@[j as int].0));
                    assert(ts@.take(j + 1) =~= ts@.take(j as int).push(t));
                }
                let target = ts[j].1.dup();
                let ghost tm = target.model();
                union_into(&mut r, store, target, ts[j].0);
                proof {
                    assert forall|p: Pkt, m: Place<T>, x: Pkt|
                        #![trigger listed(*store, r@, p, m, x)]
                        p.len() == n && x.len() == n implies (listed(*store, r@, p, m, x)
                        <==> listed(s1, r0, p, m, x) || listed(s1, ts@.take(j + 1), p, m, x)) by {
                        lemma_listed_push(s1, ts@.take(j as int), t, p, m, x);
                        assert(s2.rel(t.0, p, x) == s1.rel(t.0, p, x));
                        assert(listed(s2, r1, p, m, x) <==> listed(s1, r0, p, m, x) || listed(
                            s1,
                            ts@.take(j as int),
                            p,
                            m,
                            x,
                        ));
                    }
                    assert forall|k: int| 0 <= k < r@.len() implies self.inner.is_state(
                        (#[trigger] r@[k]).1.model(),
                    ) by {
                        if r@[k].1.model() != tm {
                            let h = choose|h: int|
                                0 <= h < r1.len() && (#[trigger] r1[h]).1.model()
                                    == r@[k].1.model();
                            assert(self.inner.is_state(r1[h].1.model()));
                        }
                    }
                }
                j = j + 1;
            }
            proof {
                assert(ts@.take(j as int) =~= ts@);
                let u = v.take(i as int);
                let u1 = v.take(i + 1);
                assert(u1 =~= u.push(v[i as int]));
                assert forall|p: Pkt, m: Place<T>, x: Pkt|
                    #![trigger listed(*store, r@, p, m, x)]
                    p.len() == n && x.len() == n implies (listed(*store, r@, p, m, x) <==> image(
                    &self.inner,
                    o,
                    set_of(u1),
                    p,
                    x,
                ).contains(m)) by {
                    assert(listed(s1, r0, p, m, x) == listed(s0, r0, p, m, x));
                    assert(listed(s0, r0, p, m, x) == image(
                        &self.inner,
                        o,
                        set_of(u),
                        p,
                        x,
                    ).contains(m));
                    assert(self.inner.step(s0, z, p, m, x) == listed(s1, ts@, p, m, x));
                    assert(self.inner.step(s0, z, p, m, x) == self.inner.step(o, z, p, m, x));
                    lemma_among_push(u, v[i as int], z);
                    if image(&self.inner, o, set_of(u), p, x).contains(m) {
                        let y = choose|y: Place<T>|
                            set_of(u).contains(y) && #[trigger] self.inner.step(o, y, p, m, x);
                        lemma_among_push(u, v[i as int], y);
                        assert(set_of(u1).contains(y));
                    }
                    if self.inner.step(o, z, p, m, x) {
                        assert(set_of(u1).contains(z));
                    }
                    if image(&self.inner, o, set_of(u1), p, x).contains(m) {
                        let y = choose|y: Place<T>|
                            set_of(u1).contains(y) && #[trigger] self.inner.step(o, y, p, m, x);
                        lemma_among_push(u, v[i as int], y);
                        if y != z {
                            assert(set_of(u).contains(y));
                        }
                    }
                }
            }
            i = i + 1;
        }
        proof {
            assert(v.take(i as int) =~= v);
        }
        r
    }
}

impl<T: NFA> ENFA for SubsetDfa<T> {
    type State = StateSet<T::State>;

    open spec fn valid(&self, st: SPPstore) -> bool {
        self.inner.valid(st)
    }

    open spec fn is_state(&self, q: Set<Place<T>>) -> bool {
        forall|m: Place<T>| #[trigger] q.contains(m) ==> self.inner.is_state(m)
    }

    open spec fn init(&self) -> Set<Place<T>> {
        Set::new(|m: Place<T>| m == self.inner.init())
    }

    open spec fn vis(&self, q: Set<Place<T>>) -> bool {
        true
    }

    open spec fn step(
        &self,
        st: SPPstore,
        q: Set<Place<T>>,
        p: Pkt,
        r: Set<Place<T>>,
        x: Pkt,
    ) -> bool {
        r == image(&self.inner, st, q, p, x) && exists|m: Place<T>| #[trigger] r.contains(m)
    }

    open spec fn out(&self, st: SPPstore, q: Set<Place<T>>, p: Pkt, x: Pkt) -> bool {
        exists|m: Place<T>| q.contains(m) && #[trigger] self.inner.out(st, m, p, x)
    }

    proof fn lemma_valid(&self, st: SPPstore, o: SPPstore) {
        self.inner.lemma_valid(st, o);
        assert forall|q: Set<Place<T>>, p: Pkt, r: Set<Place<T>>, x: Pkt|
            #![trigger self.step(st, q, p, r, x)]
            #![trigger self.step(o, q, p, r, x)]
            self.is_state(q) && p.len() == o.n() && x.len() == o.n() implies self.step(
            st,
            q,
            p,
            r,
            x,
        ) == self.step(o, q, p, r, x) by {
            let (a, b) = (image(&self.inner, st, q, p, x), image(&self.inner, o, q, p, x));
            assert forall|m: Place<T>| #[trigger] a.contains(m) == b.contains(m) by {
                if a.contains(m) {
                    let y = choose|y: Place<T>|
                        q.contains(y) && #[trigger] self.inner.step(st, y, p, m, x);
                    assert(self.inner.step(o, y, p, m, x));
                }
                if b.contains(m) {
                    let y = choose|y: Place<T>|
                        q.contains(y) && #[trigger] self.inner.step(o, y, p, m, x);
                    assert(self.inner.step(st, y, p, m, x));
                }
            }
            assert(a =~= b);
        }
        assert forall|q: Set<Place<T>>, p: Pkt, x: Pkt|
            #![trigger self.out(st, q, p, x)]
            #![trigger self.out(o, q, p, x)]
            self.is_state(q) && p.len() == o.n() && x.len() == o.n() implies self.out(st, q, p, x)
            == self.out(o, q, p, x) by {
            if self.out(st, q, p, x) {
                let m = choose|m: Place<T>|
                    q.contains(m) && #[trigger] self.inner.out(st, m, p, x);
                assert(self.inner.out(o, m, p, x));
            }
            if self.out(o, q, p, x) {
                let m = choose|m: Place<T>|
                    q.contains(m) && #[trigger] self.inner.out(o, m, p, x);
                assert(self.inner.out(st, m, p, x));
            }
        }
    }

    proof fn lemma_states(&self, st: SPPstore) {
        self.inner.lemma_states(st);
        assert forall|q: Set<Place<T>>, p: Pkt, r: Set<Place<T>>, x: Pkt| #[trigger]
            self.step(st, q, p, r, x) && self.is_state(q) && p.len() == st.n() && x.len()
                == st.n() implies self.is_state(r) by {
            assert forall|m: Place<T>| #[trigger] r.contains(m) implies self.inner.is_state(m) by {
                let y = choose|y: Place<T>|
                    q.contains(y) && #[trigger] self.inner.step(st, y, p, m, x);
            }
        }
    }

    fn start(&self, store: &mut SPPstore) -> (q: StateSet<T::State>) {
        let mut items: Vec<T::State> = Vec::new();
        items.push(self.inner.start(store));
        let q = StateSet { items };
        proof {
            assert forall|m: Place<T>| #[trigger]
                set_of(q.items@).contains(m) == self.init().contains(m) by {
                if m == self.inner.init() {
                    assert(q.items@[0].model() == m);
                }
            }
            assert(set_of(q.items@) =~= self.init());
            assert(q.model() == self.init());
        }
        q
    }

    fn is_visible(&self, store: &mut SPPstore, q: &StateSet<T::State>) -> (b: bool) {
        true
    }

    fn transitions(&self, store: &mut SPPstore, q: &StateSet<T::State>) -> (r: Vec<
        (SPP, StateSet<T::State>),
    >)
        ensures
            forall|i: int|
                0 <= i < r@.len() ==> (#[trigger] r@[i]).0 != final(store).zero && has_some(
                    r@[i].1.model(),
                ),
            apart(*final(store), r@),
    {
        let ghost o = *store;
        let ghost n = o.n();
        let ghost qs = q.model();
        let ts = self.gather(store, q);
        let ghost s1 = *store;
        proof {
            s1.lemma_wf();
        }
        let mut parts: Vec<(SPP, StateSet<T::State>)> = Vec::new();
        let none: Vec<T::State> = Vec::new();
        parts.push((store.top, StateSet { items: none }));
        proof {
            assert(ts@.take(0) =~= Seq::<(SPP, T::State)>::empty());
            assert forall|p: Pkt, x: Pkt| #[trigger] in_part(s1, parts@, p, x) <==> p.len() == n
                && x.len() == n by {
                if p.len() == n && x.len() == n {
                    assert(s1.rel(parts@[0].0, p, x));
                }
            }
            assert(splits(s1, parts@, s1, ts@.take(0)));
        }
        let mut i: usize = 0;
        proof {
            s1.lemma_nonzero(s1.top);
            let e = Seq::new(n, |k: int| true);
            assert(s1.rel(s1.top, e, e));
        }
        while i < ts.len()
            invariant
                store.wf(),
                s1.wf(),
                store.extends(&s1),
                s1.n() == n,
                rels_ok(s1, ts@),
                i <= ts@.len(),
                forall|j: int| 0 <= j < parts@.len() ==> (#[trigger] parts@[j]).0 != store.zero,
                splits(*store, parts@, s1, ts@.take(i as int)),
                apart(*store, parts@),
            decreases ts.len() - i,
        {
            proof {
                assert(ts@.take(i + 1) =~= ts@.take(i as int).push(ts@[i as int]));
                assert(s1.has(ts@[i as int].0));
                assert forall|j: int| 0 <= j < i implies s1.has(
                    (#[trigger] ts@.take(i as int)[j]).0,
                ) by {
                    assert(ts@.take(i as int)[j] == ts@[j]);
                }
            }
            parts = refine(
                store,
                &parts,
                ts[i].0,
                &ts[i].1,
                Ghost(s1),
                Ghost(ts@.take(i as int)),
                Ghost(ts@[i as int]),
            );
            i = i + 1;
        }
        proof {
            assert(ts@.take(i as int) =~= ts@);
        }
        let r = keep_nonempty(&parts);
        proof {
            let at = choose|at: Seq<int>| #[trigger] picked(parts@, r@, at);
            lemma_picked_apart(*store, parts@, r@, at);
            assert forall|k: int| 0 <= k < r@.len() implies (#[trigger] r@[k]).0 != store.zero by {
                assert(from_part(parts@, r@[k]));
            }
            self.lemma_transitions(o, s1, *store, qs, ts@, parts@, r@);
        }
        r
    }

    fn output(&self, store: &mut SPPstore, q: &StateSet<T::State>) -> (y: SPP) {
        let ghost o = *store;
        let ghost n = o.n();
        let ghost v = q.items@;
        proof {
            o.lemma_wf();
        }
        let mut y = store.zero;
        let mut i: usize = 0;
        while i < q.items.len()
            invariant
                store.wf(),
                store.extends(&o),
                o.wf(),
                n == o.n(),
                v == q.items@,
                self.inner.valid(o),
                self.is_state(q.model()),
                i <= v.len(),
                store.has(y),
                forall|p: Pkt, x: Pkt|
                    #![trigger store.rel(y, p, x)]
                    p.len() == n && x.len() == n ==> (store.rel(y, p, x) <==> exists|j: int|
                        0 <= j < i && self.inner.out(o, (#[trigger] v[j]).model(), p, x)),
            decreases q.items.len() - i,
        {
            let ghost s0 = *store;
            let ghost y0 = y;
            let ghost z = v[i as int].model();
            proof {
                assert(among(v, z));
                assert(q.model().contains(z));
                self.inner.lemma_valid(s0, o);
            }
            let inner_out = self.inner.output(store, &q.items[i]);
            let ghost s1 = *store;
            y = store.union(y, inner_out);
            proof {
                assert forall|p: Pkt, x: Pkt|
                    #![trigger store.rel(y, p, x)]
                    p.len() == n && x.len() == n implies (store.rel(y, p, x) <==> exists|j: int|
                    0 <= j < i + 1 && self.inner.out(o, (#[trigger] v[j]).model(), p, x)) by {
                    assert(s1.rel(y0, p, x) == s0.rel(y0, p, x));
                    assert(self.inner.out(s0, z, p, x) == s1.rel(inner_out, p, x));
                    assert(self.inner.out(s0, z, p, x) == self.inner.out(o, z, p, x));
                    if s0.rel(y0, p, x) {
                        let j = choose|j: int|
                            0 <= j < i && self.inner.out(o, (#[trigger] v[j]).model(), p, x);
                        assert(self.inner.out(o, v[j].model(), p, x));
                    }
                    if self.inner.out(o, z, p, x) {
                        assert(self.inner.out(o, v[i as int].model(), p, x));
                    }
                }
            }
            i = i + 1;
        }
        proof {
            assert forall|p: Pkt, x: Pkt|
                #![trigger self.out(o, q.model(), p, x)]
                #![trigger store.rel(y, p, x)]
                p.len() == n && x.len() == n implies self.out(o, q.model(), p, x) == store.rel(
                y,
                p,
                x,
            ) by {
                if self.out(o, q.model(), p, x) {
                    let m = choose|m: Place<T>|
                        q.model().contains(m) && #[trigger] self.inner.out(o, m, p, x);
                    assert(among(v, m));
                    let j = choose|j: int| 0 <= j < v.len() && (#[trigger] v[j]).model() == m;
                    assert(self.inner.out(o, v[j].model(), p, x));
                }
                if store.rel(y, p, x) {
                    let j = choose|j: int|
                        0 <= j < i && self.inner.out(o, (#[trigger] v[j]).model(), p, x);
                    assert(among(v, v[j].model()));
                    assert(q.model().contains(v[j].model()));
                }
            }
        }
        y
    }
}

impl<T: NFA> SubsetDfa<T> {
    /// The parts that are kept are the transitions of a set.
    proof fn lemma_transitions(
        &self,
        o: SPPstore,
        s1: SPPstore,
        s2: SPPstore,
        qs: Set<Place<T>>,
        ts: Seq<(SPP, T::State)>,
        parts: Seq<(SPP, StateSet<T::State>)>,
        r: Seq<(SPP, StateSet<T::State>)>,
    )
        requires
            s1.n() == o.n(),
            s2.n() == o.n(),
            forall|i: int| 0 <= i < ts.len() ==> self.inner.is_state((#[trigger] ts[i]).1.model()),
            forall|p: Pkt, m: Place<T>, x: Pkt|
                #![trigger listed(s1, ts, p, m, x)]
                p.len() == o.n() && x.len() == o.n() ==> (listed(s1, ts, p, m, x) <==> image(
                    &self.inner,
                    o,
                    qs,
                    p,
                    x,
                ).contains(m)),
            splits(s2, parts, s1, ts),
            kept(parts, r),
        ensures
            forall|i: int|
                0 <= i < r.len() ==> s2.has((#[trigger] r[i]).0) && self.is_state(r[i].1.model()),
            forall|p: Pkt, m: Set<Place<T>>, x: Pkt|
                #![trigger self.step(o, qs, p, m, x)]
                #![trigger listed(s2, r, p, m, x)]
                p.len() == o.n() && x.len() == o.n() ==> self.step(o, qs, p, m, x) == listed(
                    s2,
                    r,
                    p,
                    m,
                    x,
                ),
    {
        let n = o.n();
        // a part of a pair of packets holds what steps lead to
        assert forall|j: int, p: Pkt, x: Pkt|
            0 <= j < parts.len() && p.len() == n && x.len() == n && #[trigger] s2.rel(
                parts[j].0,
                p,
                x,
            ) implies parts[j].1.model() == image(&self.inner, o, qs, p, x) by {
            let b = image(&self.inner, o, qs, p, x);
            let v = parts[j].1.items@;
            assert forall|m: Place<T>| #[trigger] set_of(v).contains(m) == b.contains(m) by {
                assert(among(parts[j].1.items@, m) <==> listed(s1, ts, p, m, x));
            }
            assert(set_of(v) =~= b);
        }
        assert forall|p: Pkt, m: Set<Place<T>>, x: Pkt|
            #![trigger self.step(o, qs, p, m, x)]
            #![trigger listed(s2, r, p, m, x)]
            p.len() == n && x.len() == n implies self.step(o, qs, p, m, x) == listed(
            s2,
            r,
            p,
            m,
            x,
        ) by {
            if listed(s2, r, p, m, x) {
                let h = choose|h: int|
                    0 <= h < r.len() && s2.rel((#[trigger] r[h]).0, p, x) && r[h].1.model() == m;
                assert(from_part(parts, r[h]));
                let j = choose|j: int|
                    0 <= j < parts.len() && (#[trigger] parts[j]).0 == r[h].0
                        && parts[j].1.items@.len() > 0 && parts[j].1.model() == r[h].1.model();
                assert(s2.rel(parts[j].0, p, x));
                let y = parts[j].1.items@[0].model();
                assert(among(parts[j].1.items@, y));
                assert(m.contains(y));
            }
            if self.step(o, qs, p, m, x) {
                assert(in_part(s2, parts, p, x));
                let j = choose|j: int| 0 <= j < parts.len() && s2.rel((#[trigger] parts[j]).0, p, x);
                assert(s2.rel(parts[j].0, p, x));
                assert(parts[j].1.model() == m);
                let y = choose|y: Place<T>| #[trigger] m.contains(y);
                assert(among(parts[j].1.items@, y));
                assert(to_part(r, parts[j]));
                let h = choose|h: int|
                    0 <= h < r.len() && (#[trigger] r[h]).0 == parts[j].0 && r[h].1.model()
                        == parts[j].1.model();
                assert(s2.rel(r[h].0, p, x));
            }
        }
        assert forall|h: int| 0 <= h < r.len() implies s2.has((#[trigger] r[h]).0)
            && self.is_state(r[h].1.model()) by {
            assert(from_part(parts, r[h]));
            let j = choose|j: int|
                0 <= j < parts.len() && (#[trigger] parts[j]).0 == r[h].0
                    && parts[j].1.items@.len() > 0 && parts[j].1.model() == r[h].1.model();
            self.lemma_part_states(s1, s2, ts, parts, j);
        }
    }

    /// The states of a part are states.
    proof fn lemma_part_states(
        &self,
        s1: SPPstore,
        s2: SPPstore,
        ts: Seq<(SPP, T::State)>,
        parts: Seq<(SPP, StateSet<T::State>)>,
        j: int,
    )
        requires
            0 <= j < parts.len(),
            forall|i: int| 0 <= i < ts.len() ==> self.inner.is_state((#[trigger] ts[i]).1.model()),
            splits(s2, parts, s1, ts),
        ensures
            self.is_state(parts[j].1.model()),
    {
        assert forall|m: Place<T>| #[trigger] parts[j].1.model().contains(m) implies self.inner.is_state(
            m,
        ) by {
            assert(among(parts[j].1.items@, m));
            let i = choose|i: int| 0 <= i < ts.len() && (#[trigger] ts[i]).1.model() == m;
            assert(self.inner.is_state(ts[i].1.model()));
        }
    }
}

impl<T: NFA> NFA for SubsetDfa<T> {
    proof fn lemma_visible(&self) {
    }
}

impl<T: NFA> DFA for SubsetDfa<T> {
    proof fn lemma_deterministic(&self, st: SPPstore) {
    }
}

proof fn lemma_subset<T: NFA>(a: &SubsetDfa<T>, st: SPPstore, q: Set<Place<T>>, w: Word)
    requires
        is_word(st.n(), w),
    ensures
        nfa_word(a, st, q, w) <==> exists|m: Place<T>|
            q.contains(m) && #[trigger] nfa_word(&a.inner, st, m, w),
    decreases w.len(),
{
    if w.len() == 2 {
        if nfa_word(a, st, q, w) {
            let m = choose|m: Place<T>|
                q.contains(m) && #[trigger] a.inner.out(st, m, w[0], w[1]);
            assert(nfa_word(&a.inner, st, m, w));
        }
        if exists|m: Place<T>| q.contains(m) && #[trigger] nfa_word(&a.inner, st, m, w) {
            let m = choose|m: Place<T>| q.contains(m) && #[trigger] nfa_word(&a.inner, st, m, w);
            assert(a.inner.out(st, m, w[0], w[1]));
        }
    } else {
        lemma_tail(st.n(), w, 1);
        let v = w.skip(1);
        let b = image(&a.inner, st, q, w[0], w[1]);
        lemma_subset(a, st, b, v);
        if nfa_word(a, st, q, w) {
            let r = choose|r: Set<Place<T>>| #[trigger]
                a.step(st, q, w[0], r, w[1]) && nfa_word(a, st, r, v);
            assert(r == b);
            let m = choose|m: Place<T>| b.contains(m) && #[trigger] nfa_word(&a.inner, st, m, v);
            let y = choose|y: Place<T>|
                q.contains(y) && #[trigger] a.inner.step(st, y, w[0], m, w[1]);
            assert(nfa_word(&a.inner, st, y, w));
        }
        if exists|m: Place<T>| q.contains(m) && #[trigger] nfa_word(&a.inner, st, m, w) {
            let y = choose|y: Place<T>| q.contains(y) && #[trigger] nfa_word(&a.inner, st, y, w);
            let m = choose|m: Place<T>| #[trigger]
                a.inner.step(st, y, w[0], m, w[1]) && nfa_word(&a.inner, st, m, v);
            assert(b.contains(m));
            assert(nfa_word(a, st, b, v));
            assert(a.step(st, q, w[0], b, w[1]));
        }
    }
}

/// The subset construction keeps the words.
pub proof fn law_subset<T: NFA>(a: &SubsetDfa<T>, st: SPPstore, w: Word)
    requires
        is_word(st.n(), w),
    ensures
        enfa_lang(a, st)(w) == enfa_lang(&a.inner, st)(w),
{
    a.inner.lemma_visible();
    lemma_nfa_word(a, st, a.init(), w);
    lemma_nfa_word(&a.inner, st, a.inner.init(), w);
    lemma_subset(a, st, a.init(), w);
    if nfa_word(&a.inner, st, a.inner.init(), w) {
        assert(a.init().contains(a.inner.init()));
    }
}

} // verus!
