//! Automata without their invisible states.
use vstd::prelude::*;
use vstd::slice::*;
use crate::holes::aut::{
    accepts_from, among, distinct, enfa_lang, is_path, lemma_listed_push, lemma_nfa_word,
    lemma_path_states, lemma_seen_first, listed, moves, nfa_word, run_on, seen, trace_of, Place,
    StateKey, ENFA, NFA,
};
use crate::holes::ops::lemma_listed_ext;
use crate::holes::subset::{merged, rels_ok, union_into};
use crate::holes::table::{row_of, tabulate, tabulates, StateGraph};
use crate::kleene::{
    edges_of, exits_of, flows, hop, lemma_flows_same, row_of as filled_row, row_ok, rows_ok,
    solve, walk, Edges, Exits,
};
use crate::lang::{is_word, lemma_tail, Word};
use crate::sp::Pkt;
use crate::spp::{SPPstore, SPP};

verus! {

// ---- invisible steps ----------------------------------------------------------------------

/// The transitions of an automaton to invisible states, from a given state on.
pub struct Hidden<'a, T: ENFA> {
    pub inner: &'a T,
    pub source: T::State,
}

/// The transitions of the list to states that are, or are not, visible.
fn select<T: ENFA>(a: &T, store: &mut SPPstore, ts: Vec<(SPP, T::State)>, shown: bool) -> (r: Vec<
    (SPP, T::State),
>)
    requires
        old(store).wf(),
        a.valid(*old(store)),
        forall|i: int|
            0 <= i < ts@.len() ==> old(store).has((#[trigger] ts@[i]).0) && a.is_state(
                ts@[i].1.model(),
            ),
    ensures
        final(store).wf(),
        final(store).extends(old(store)),
        forall|i: int|
            0 <= i < r@.len() ==> final(store).has((#[trigger] r@[i]).0) && a.is_state(
                r@[i].1.model(),
            ),
        forall|p: Pkt, m: Place<T>, x: Pkt|
            #![trigger listed(*final(store), r@, p, m, x)]
            p.len() == old(store).n() && x.len() == old(store).n() ==> (listed(
                *final(store),
                r@,
                p,
                m,
                x,
            ) <==> listed(*old(store), ts@, p, m, x) && a.vis(m) == shown),
{
    let ghost o = *store;
    let mut r: Vec<(SPP, T::State)> = Vec::new();
    let mut i: usize = 0;
    while i < ts.len()
        invariant
            store.wf(),
            o.wf(),
            store.extends(&o),
            a.valid(o),
            forall|j: int|
                0 <= j < ts@.len() ==> o.has((#[trigger] ts@[j]).0) && a.is_state(
                    ts@[j].1.model(),
                ),
            i <= ts@.len(),
            forall|j: int|
                0 <= j < r@.len() ==> o.has((#[trigger] r@[j]).0) && a.is_state(r@[j].1.model()),
            forall|p: Pkt, m: Place<T>, x: Pkt|
                #![trigger listed(o, r@, p, m, x)]
                listed(o, r@, p, m, x) <==> listed(o, ts@.take(i as int), p, m, x) && a.vis(m)
                    == shown,
        decreases ts.len() - i,
    {
        let ghost r0 = r@;
        let ghost t = ts@[i as int];
        proof {
            assert(a.is_state(ts@[i as int].1.model()));
            a.lemma_valid(*store, o);
            assert(ts@.take(i + 1) =~= ts@.take(i as int).push(t));
        }
        let b = a.is_visible(store, &ts[i].1);
        if b == shown {
            r.push((ts[i].0, ts[i].1.dup()));
        }
        proof {
            assert forall|p: Pkt, m: Place<T>, x: Pkt|
                #![trigger listed(o, r@, p, m, x)]
                listed(o, r@, p, m, x) <==> listed(o, ts@.take(i + 1), p, m, x) && a.vis(m)
                    == shown by {
                lemma_listed_push(o, ts@.take(i as int), t, p, m, x);
                if b == shown {
                    let e = r@[r0.len() as int];
                    assert(r@ =~= r0.push(e));
                    lemma_listed_push(o, r0, e, p, m, x);
                }
            }
            assert forall|j: int| 0 <= j < r@.len() implies o.has((#[trigger] r@[j]).0)
                && a.is_state(r@[j].1.model()) by {
                if j < r0.len() {
                    assert(r@[j] == r0[j]);
                }
            }
        }
        i = i + 1;
    }
    proof {
        assert(ts@.take(i as int) =~= ts@);
        lemma_listed_ext(*store, o, r@);
    }
    r
}

impl<'a, T: ENFA> ENFA for Hidden<'a, T> {
    type State = T::State;

    open spec fn valid(&self, st: SPPstore) -> bool {
        self.inner.valid(st) && self.inner.is_state(self.source.model())
    }

    open spec fn is_state(&self, q: Place<T>) -> bool {
        self.inner.is_state(q)
    }

    open spec fn init(&self) -> Place<T> {
        self.source.model()
    }

    open spec fn vis(&self, q: Place<T>) -> bool {
        self.inner.vis(q)
    }

    open spec fn step(&self, st: SPPstore, q: Place<T>, p: Pkt, r: Place<T>, x: Pkt) -> bool {
        self.inner.step(st, q, p, r, x) && !self.inner.vis(r)
    }

    open spec fn out(&self, st: SPPstore, q: Place<T>, p: Pkt, x: Pkt) -> bool {
        self.inner.out(st, q, p, x)
    }

    proof fn lemma_valid(&self, st: SPPstore, o: SPPstore) {
        self.inner.lemma_valid(st, o);
    }

    proof fn lemma_states(&self, st: SPPstore) {
        self.inner.lemma_states(st);
    }

    fn start(&self, store: &mut SPPstore) -> (q: T::State) {
        self.source.dup()
    }

    fn is_visible(&self, store: &mut SPPstore, q: &T::State) -> (b: bool) {
        self.inner.is_visible(store, q)
    }

    fn transitions(&self, store: &mut SPPstore, q: &T::State) -> (ts: Vec<(SPP, T::State)>) {
        let ghost o = *store;
        let all = self.inner.transitions(store, q);
        let ghost s1 = *store;
        proof {
            self.inner.lemma_valid(s1, o);
        }
        let ts = select(self.inner, store, all, false);
        proof {
            assert forall|p: Pkt, r: Place<T>, x: Pkt|
                #![trigger self.step(o, q.model(), p, r, x)]
                #![trigger listed(*store, ts@, p, r, x)]
                p.len() == o.n() && x.len() == o.n() implies self.step(o, q.model(), p, r, x)
                == listed(*store, ts@, p, r, x) by {
                assert(self.inner.step(o, q.model(), p, r, x) == listed(s1, all@, p, r, x));
            }
        }
        ts
    }

    fn output(&self, store: &mut SPPstore, q: &T::State) -> (y: SPP) {
        self.inner.output(store, q)
    }
}

/// A path from `q` and `p` whose further states are invisible.
pub open spec fn hidden_path<T: ENFA>(
    a: &T,
    st: SPPstore,
    q: Place<T>,
    p: Pkt,
    path: Seq<(Place<T>, Pkt)>,
) -> bool {
    &&& is_path(a, st, path)
    &&& path[0] == (q, p)
    &&& forall|i: int| 1 <= i < path.len() ==> !a.vis((#[trigger] path[i]).0)
}

/// Invisible steps lead from `q` and `p` to `m` and `y`.
pub open spec fn hides<T: ENFA>(
    a: &T,
    st: SPPstore,
    q: Place<T>,
    p: Pkt,
    m: Place<T>,
    y: Pkt,
) -> bool {
    exists|path: Seq<(Place<T>, Pkt)>| #[trigger]
        hidden_path(a, st, q, p, path) && path.last() == (m, y)
}

/// The edges of a table.
spec fn table_edges<S>(st: SPPstore, g: StateGraph<S>) -> Edges {
    |i: int, j: int, p: Pkt, x: Pkt| listed(st, g.edges@[i]@, p, j as usize, x)
}

/// Leaving at state `c`, with the packet there.
spec fn leave_at(c: int) -> Exits {
    |i: int, p: Pkt, x: Pkt| i == c && p == x
}

/// Walks in the table are paths of invisible steps.
proof fn lemma_walks<T: ENFA>(
    a: &Hidden<T>,
    st: SPPstore,
    g: StateGraph<T::State>,
    i: int,
    c: int,
    p: Pkt,
    x: Pkt,
)
    requires
        st.wf(),
        a.valid(st),
        tabulates(a, st, g),
        0 <= i < g.states@.len(),
        0 <= c < g.states@.len(),
        p.len() == st.n(),
        x.len() == st.n(),
    ensures
        flows(table_edges(st, g), leave_at(c), st.n(), g.states@.len(), i, p, x) <==> hides(
            a.inner,
            st,
            g.states@[i].model(),
            p,
            g.states@[c].model(),
            x,
        ),
{
    let (e, y) = (table_edges(st, g), leave_at(c));
    let (k, n) = (st.n(), g.states@.len());
    let (q, m) = (g.states@[i].model(), g.states@[c].model());
    assert(n == g.states.len());
    if flows(e, y, k, n, i, p, x) {
        let (ns, ps) = choose|ns: Seq<int>, ps: Seq<Pkt>| #[trigger]
            walk(e, k, n, ns, ps) && ns[0] == i && ps[0] == p && y(ns.last(), ps.last(), x);
        let path = Seq::new(ns.len(), |t: int| (g.states@[ns[t]].model(), ps[t]));
        assert forall|t: int| 0 <= t < path.len() - 1 implies #[trigger] moves(
            a.inner,
            st,
            path,
            t,
        ) && !a.inner.vis(path[t + 1].0) by {
            assert(hop(e, ns, ps, t));
            assert(0 <= ns[t] < n && 0 <= ns[t + 1] < n && ps[t].len() == k && ps[t + 1].len()
                == k);
            let row = g.edges@[ns[t]]@;
            assert(row_of(a, st, g.states@, g.states@[ns[t]].model(), row));
            let j = ns[t + 1] as usize;
            assert(listed(st, row, ps[t], j, ps[t + 1]));
            assert(a.step(
                st,
                g.states@[ns[t]].model(),
                ps[t],
                g.states@[j as int].model(),
                ps[t + 1],
            ));
        }
        assert forall|t: int| 1 <= t < path.len() implies !a.inner.vis((#[trigger] path[t]).0) by {
            assert(moves(a.inner, st, path, t - 1));
        }
        assert forall|t: int| 0 <= t < path.len() implies (#[trigger] path[t]).1.len() == k by {
            assert(ps[t].len() == k);
        }
        assert(hidden_path(a.inner, st, q, p, path));
        assert(path.last() == (m, x));
    }
    if hides(a.inner, st, q, p, m, x) {
        let path = choose|path: Seq<(Place<T>, Pkt)>| #[trigger]
            hidden_path(a.inner, st, q, p, path) && path.last() == (m, x);
        let ns = Seq::new(
            path.len(),
            |t: int|
                choose|j: int| 0 <= j < n && (#[trigger] g.states@[j]).model() == path[t].0,
        );
        let ps = Seq::new(path.len(), |t: int| path[t].1);
        assert forall|t: int| 0 <= t < path.len() implies 0 <= #[trigger] ns[t] < n
            && g.states@[ns[t]].model() == path[t].0 by {
            lemma_hidden_states(a, st, g, path, i, t);
        }
        assert(ns[0] == i) by {
            lemma_same_index(g.states@, ns[0], i);
        }
        assert(ns.last() == c) by {
            lemma_same_index(g.states@, ns[path.len() - 1], c);
        }
        assert forall|t: int| 0 <= t < ns.len() - 1 implies #[trigger] hop(e, ns, ps, t) by {
            assert(moves(a.inner, st, path, t));
            assert(0 <= ns[t] < n && 0 <= ns[t + 1] < n);
            assert(!a.inner.vis(path[t + 1].0));
            assert(path[t].1.len() == k && path[t + 1].1.len() == k);
            let row = g.edges@[ns[t]]@;
            assert(row_of(a, st, g.states@, g.states@[ns[t]].model(), row));
            let j = ns[t + 1] as usize;
            assert(a.step(
                st,
                g.states@[ns[t]].model(),
                ps[t],
                g.states@[j as int].model(),
                ps[t + 1],
            ));
        }
        assert forall|t: int| 0 <= t < ps.len() implies (#[trigger] ps[t]).len() == k by {
            assert(path[t].1.len() == k);
        }
        assert(walk(e, k, n, ns, ps));
        assert(y(ns.last(), ps.last(), x));
    }
}

proof fn lemma_same_index<S: StateKey>(v: Seq<S>, i: int, j: int)
    requires
        distinct(v),
        0 <= i < v.len(),
        0 <= j < v.len(),
        v[i].model() == v[j].model(),
    ensures
        i == j,
{
    if i < j {
        assert(v[i].model() != v[j].model());
    } else if j < i {
        assert(v[j].model() != v[i].model());
    }
}

proof fn lemma_hidden_states<T: ENFA>(
    a: &Hidden<T>,
    st: SPPstore,
    g: StateGraph<T::State>,
    path: Seq<(Place<T>, Pkt)>,
    i: int,
    t: int,
)
    requires
        st.wf(),
        a.valid(st),
        tabulates(a, st, g),
        0 <= i < g.states@.len(),
        hidden_path(a.inner, st, g.states@[i].model(), path[0].1, path),
        0 <= t < path.len(),
    ensures
        among(g.states@, path[t].0),
    decreases t,
{
    if t == 0 {
        assert(g.states@[i].model() == path[0].0);
    } else {
        lemma_hidden_states(a, st, g, path, i, t - 1);
        let m = path[t - 1].0;
        let h = choose|h: int| 0 <= h < g.states@.len() && (#[trigger] g.states@[h]).model() == m;
        assert(row_of(a, st, g.states@, g.states@[h].model(), g.edges@[h]@));
        assert(moves(a.inner, st, path, t - 1));
        assert(!a.inner.vis(path[t].0));
        assert(path[t - 1].1.len() == st.n() && path[t].1.len() == st.n());
        assert(a.step(st, m, path[t - 1].1, path[t].0, path[t].1));
    }
}

/// The row as a list with an entry for every state.
fn dense_row(store: &mut SPPstore, row: &Vec<(SPP, usize)>, n: usize) -> (r: Vec<SPP>)
    requires
        old(store).wf(),
        forall|i: int|
            0 <= i < row@.len() ==> old(store).has((#[trigger] row@[i]).0) && row@[i].1 < n,
    ensures
        final(store).wf(),
        final(store).extends(old(store)),
        row_ok(*final(store), r@, n as nat),
        forall|j: int, p: Pkt, x: Pkt|
            #![trigger final(store).rel(r@[j], p, x)]
            0 <= j < n && p.len() == old(store).n() && x.len() == old(store).n() ==> final(store).rel(r@[j], p, x) == listed(*old(store), row@, p, j as usize, x),
{
    let ghost o = *store;
    proof {
        o.lemma_wf();
    }
    let mut r = filled_row(store.zero, n);
    let mut i: usize = 0;
    while i < row.len()
        invariant
            store.wf(),
            o.wf(),
            store.extends(&o),
            forall|k: int|
                0 <= k < row@.len() ==> o.has((#[trigger] row@[k]).0) && row@[k].1 < n,
            i <= row@.len(),
            row_ok(*store, r@, n as nat),
            forall|j: int, p: Pkt, x: Pkt|
                #![trigger store.rel(r@[j], p, x)]
                0 <= j < n && p.len() == o.n() && x.len() == o.n() ==> store.rel(r@[j], p, x)
                    == listed(o, row@.take(i as int), p, j as usize, x),
        decreases row.len() - i,
    {
        let (spp, at) = row[i];
        let ghost s0 = *store;
        let ghost r0 = r@;
        proof {
            assert(row@[i as int] == (spp, at));
            assert(row@.take(i + 1) =~= row@.take(i as int).push((spp, at)));
            assert(s0.has(r@[at as int]));
        }
        let x = store.union(r[at], spp);
        r.set(at, x);
        proof {
            assert forall|j: int| 0 <= j < n implies store.has(#[trigger] r@[j]) by {
                if j != at {
                    assert(r@[j] == r0[j]);
                    assert(s0.has(r0[j]));
                }
            }
            assert forall|j: int, p: Pkt, y: Pkt|
                #![trigger store.rel(r@[j], p, y)]
                0 <= j < n && p.len() == o.n() && y.len() == o.n() implies store.rel(r@[j], p, y)
                == listed(o, row@.take(i + 1), p, j as usize, y) by {
                lemma_listed_push(o, row@.take(i as int), (spp, at), p, j as usize, y);
                assert(s0.has(r0[j]));
                assert(s0.rel(r0[j], p, y) == listed(o, row@.take(i as int), p, j as usize, y));
                assert(s0.rel(spp, p, y) == o.rel(spp, p, y));
                if j != at {
                    assert(r@[j] == r0[j]);
                    assert(store.rel(r0[j], p, y) == s0.rel(r0[j], p, y));
                }
            }
        }
        i = i + 1;
    }
    proof {
        assert(row@.take(i as int) =~= row@);
    }
    r
}

/// A row that relates every packet to itself at `c`, and nothing elsewhere.
fn unit_row(store: &SPPstore, c: usize, n: usize) -> (r: Vec<SPP>)
    requires
        store.wf(),
        c < n,
    ensures
        row_ok(*store, r@, n as nat),
        forall|j: int, p: Pkt, x: Pkt|
            #![trigger store.rel(r@[j], p, x)]
            0 <= j < n && p.len() == store.n() && x.len() == store.n() ==> (store.rel(r@[j], p, x)
                <==> j == c && p == x),
{
    proof {
        store.lemma_wf();
    }
    let mut r = filled_row(store.zero, n);
    r.set(c, store.one);
    r
}

// ---- the closure -----------------------------------------------------------------------------

/// An automaton without invisible states: a step takes any number of invisible
/// steps of the inner automaton and then one to a visible state, and an output
/// comes after any number of invisible steps.
#[derive(Clone)]
pub struct EpsilonClosure<T: ENFA> {
    pub inner: T,
}

/// Invisible steps are kept when the store grows.
proof fn lemma_hides_ext<T: ENFA>(
    a: &T,
    st: SPPstore,
    o: SPPstore,
    q: Place<T>,
    p: Pkt,
    m: Place<T>,
    y: Pkt,
)
    requires
        o.wf(),
        st.extends(&o),
        a.valid(o),
        a.is_state(q),
    ensures
        hides(a, st, q, p, m, y) == hides(a, o, q, p, m, y),
{
    if hides(a, st, q, p, m, y) || hides(a, o, q, p, m, y) {
        lemma_hides_store(a, st, o, q, p, m, y);
    }
}

/// Invisible steps lead to states.
proof fn lemma_hides_states<T: ENFA>(
    a: &T,
    st: SPPstore,
    q: Place<T>,
    p: Pkt,
    m: Place<T>,
    y: Pkt,
)
    requires
        st.wf(),
        a.valid(st),
        a.is_state(q),
        hides(a, st, q, p, m, y),
    ensures
        a.is_state(m),
        p.len() == st.n(),
        y.len() == st.n(),
{
    let path = choose|path: Seq<(Place<T>, Pkt)>| #[trigger]
        hidden_path(a, st, q, p, path) && path.last() == (m, y);
    lemma_path_states(a, st, path, path.len() - 1);
    assert(path[0].1.len() == st.n());
    assert(path[path.len() - 1].1.len() == st.n());
}

impl<T: ENFA> EpsilonClosure<T> {
    /// The automaton without its invisible states.
    pub fn new(inner: T) -> (r: Self)
        ensures
            r.inner == inner,
    {
        EpsilonClosure { inner }
    }

    /// The automaton with its invisible states.
    pub fn inner(&self) -> (r: &T)
        ensures
            *r == self.inner,
    {
        &self.inner
    }

    /// Whether the state is the start or visible: the states that traces of the
    /// closure show.
    pub fn is_valid_state(&self, store: &mut SPPstore, state: &T::State) -> (b: bool)
        requires
            old(store).wf(),
            self.inner.valid(*old(store)),
            self.inner.is_state(state.model()),
        ensures
            final(store).wf(),
            final(store).extends(old(store)),
            b <==> self.inner.vis(state.model()) || state.model() == self.inner.init(),
    {
        let ghost o = *store;
        let b = self.inner.is_visible(store, state);
        proof {
            self.inner.lemma_valid(*store, o);
        }
        let s = self.inner.start(store);
        b || state.same(&s)
    }

    /// The states that invisible steps lead to from a state, each with the
    /// relation of the packets.
    fn epsilon_closure(&self, store: &mut SPPstore, q: &T::State) -> (r: Vec<(SPP, T::State)>)
        requires
            old(store).wf(),
            self.inner.valid(*old(store)),
            self.inner.is_state(q.model()),
        ensures
            final(store).wf(),
            final(store).extends(old(store)),
            forall|i: int|
                0 <= i < r@.len() ==> final(store).has((#[trigger] r@[i]).0)
                    && self.inner.is_state(r@[i].1.model()),
            forall|p: Pkt, m: Place<T>, y: Pkt|
                #![trigger listed(*final(store), r@, p, m, y)]
                p.len() == old(store).n() && y.len() == old(store).n() ==> listed(
                    *final(store),
                    r@,
                    p,
                    m,
                    y,
                ) == hides(&self.inner, *old(store), q.model(), p, m, y),
    {
        let ghost o = *store;
        let ghost k = o.n();
        let h = Hidden { inner: &self.inner, source: q.dup() };
        let roots: Vec<T::State> = Vec::new();
        let g = tabulate(&h, store, &roots);
        let ghost s1 = *store;
        let ghost ss = g.states@;
        proof {
            h.lemma_valid(s1, o);
        }
        let n: usize = g.states.len();
        let mut edges: Vec<Vec<SPP>> = Vec::new();
        let mut exits: Vec<Vec<SPP>> = Vec::new();
        let mut i: usize = 0;
        while i < n
            invariant
                store.wf(),
                s1.wf(),
                store.extends(&s1),
                s1.n() == k,
                n == g.states@.len(),
                tabulates(&h, s1, g),
                i <= n,
                rows_ok(*store, edges@, i as nat, n as nat),
                rows_ok(*store, exits@, i as nat, n as nat),
                forall|a: int, j: int, p: Pkt, x: Pkt|
                    #![trigger store.rel(edges@[a]@[j], p, x)]
                    0 <= a < i && 0 <= j < n && p.len() == k && x.len() == k ==> store.rel(
                        edges@[a]@[j],
                        p,
                        x,
                    ) == table_edges(s1, g)(a, j, p, x),
                forall|a: int, j: int, p: Pkt, x: Pkt|
                    #![trigger store.rel(exits@[a]@[j], p, x)]
                    0 <= a < i && 0 <= j < n && p.len() == k && x.len() == k ==> (store.rel(
                        exits@[a]@[j],
                        p,
                        x,
                    ) <==> leave_at(j)(a, p, x)),
            decreases n - i,
        {
            let ghost s2 = *store;
            let ghost (e0, x0) = (edges@, exits@);
            let ghost row = g.edges@[i as int]@;
            proof {
                assert(row_of(&h, s1, g.states@, g.states@[i as int].model(), row));
                assert forall|j: int| 0 <= j < row.len() implies s2.has((#[trigger] row[j]).0)
                    && row[j].1 < n by {
                    assert(s1.has(row[j].0));
                }
                lemma_listed_ext(s2, s1, row);
            }
            let er = dense_row(store, &g.edges[i], n);
            let xr = unit_row(store, i, n);
            edges.push(er);
            exits.push(xr);
            proof {
                let s3 = *store;
                assert forall|a: int| 0 <= a < i + 1 implies row_ok(
                    s3,
                    (#[trigger] edges@[a])@,
                    n as nat,
                ) by {
                    if a < i {
                        assert(edges@[a] == e0[a]);
                        assert(row_ok(s2, e0[a]@, n as nat));
                    }
                }
                assert forall|a: int| 0 <= a < i + 1 implies row_ok(
                    s3,
                    (#[trigger] exits@[a])@,
                    n as nat,
                ) by {
                    if a < i {
                        assert(exits@[a] == x0[a]);
                        assert(row_ok(s2, x0[a]@, n as nat));
                    }
                }
                assert forall|a: int, j: int, p: Pkt, x: Pkt|
                    #![trigger s3.rel(edges@[a]@[j], p, x)]
                    0 <= a < i + 1 && 0 <= j < n && p.len() == k && x.len() == k implies s3.rel(
                    edges@[a]@[j],
                    p,
                    x,
                ) == table_edges(s1, g)(a, j, p, x) by {
                    if a < i {
                        assert(edges@[a] == e0[a]);
                        assert(row_ok(s2, e0[a]@, n as nat));
                        assert(s2.has(e0[a]@[j]));
                        assert(s2.rel(e0[a]@[j], p, x) == s3.rel(e0[a]@[j], p, x));
                    } else {
                        assert(edges@[a]@ == er@);
                        assert(s3.rel(er@[j], p, x) == listed(s2, row, p, j as usize, x));
                        assert(listed(s2, row, p, j as usize, x) == listed(
                            s1,
                            row,
                            p,
                            j as usize,
                            x,
                        ));
                    }
                }
                assert forall|a: int, j: int, p: Pkt, x: Pkt|
                    #![trigger s3.rel(exits@[a]@[j], p, x)]
                    0 <= a < i + 1 && 0 <= j < n && p.len() == k && x.len() == k implies (s3.rel(
                    exits@[a]@[j],
                    p,
                    x,
                ) <==> leave_at(j)(a, p, x)) by {
                    if a < i {
                        assert(exits@[a] == x0[a]);
                        assert(row_ok(s2, x0[a]@, n as nat));
                        assert(s2.has(x0[a]@[j]));
                        assert(s2.rel(x0[a]@[j], p, x) == s3.rel(x0[a]@[j], p, x));
                    } else {
                        assert(exits@[a]@ == xr@);
                        assert(s3.rel(xr@[j], p, x) <==> j == i && p == x);
                    }
                }
            }
            i = i + 1;
        }
        let ghost s4 = *store;
        let ghost (es, xs) = (edges@, exits@);
        let solved = solve(store, edges, exits, n);
        let ghost s5 = *store;
        proof {
            assert(row_ok(s5, solved@[0]@, n as nat));
            assert forall|c: int, p: Pkt, y: Pkt|
                #![trigger s5.rel(solved@[0]@[c], p, y)]
                0 <= c < n && p.len() == k && y.len() == k implies s5.rel(solved@[0]@[c], p, y)
                == hides(&self.inner, o, q.model(), p, ss[c].model(), y) by {
                let (e1, x1) = (edges_of(s4, es), exits_of(s4, xs, c));
                let (e2, x2) = (table_edges(s1, g), leave_at(c));
                assert forall|a: int, b: int, u: Pkt, v: Pkt|
                    #![trigger e1(a, b, u, v)]
                    #![trigger e2(a, b, u, v)]
                    0 <= a < n && 0 <= b < n && u.len() == k && v.len() == k implies e1(a, b, u, v)
                    == e2(a, b, u, v) by {
                    assert(s4.rel(es[a]@[b], u, v) == table_edges(s1, g)(a, b, u, v));
                }
                assert forall|a: int, u: Pkt, v: Pkt|
                    #![trigger x1(a, u, v)]
                    #![trigger x2(a, u, v)]
                    0 <= a < n && u.len() == k && v.len() == k implies x1(a, u, v) == x2(
                    a,
                    u,
                    v,
                ) by {
                    assert(s4.rel(xs[a]@[c], u, v) <==> leave_at(c)(a, u, v));
                }
                lemma_flows_same(e1, x1, e2, x2, k, n as nat, 0, p, y);
                lemma_walks(&h, s1, g, 0, c, p, y);
                lemma_hides_ext(&self.inner, s1, o, q.model(), p, ss[c].model(), y);
            }
        }
        let mut r: Vec<(SPP, T::State)> = Vec::new();
        let mut c: usize = 0;
        while c < n
            invariant
                *store == s5,
                n == g.states@.len(),
                ss == g.states@,
                solved@.len() == n,
                n >= 1,
                row_ok(s5, solved@[0]@, n as nat),
                forall|j: int| 0 <= j < ss.len() ==> h.is_state((#[trigger] ss[j]).model()),
                h.inner == &self.inner,
                c <= n,
                r@.len() == c,
                forall|j: int|
                    0 <= j < c ==> (#[trigger] r@[j]).0 == solved@[0]@[j] && r@[j].1.model()
                        == ss[j].model(),
            decreases n - c,
        {
            r.push((solved[0][c], g.states[c].dup()));
            c = c + 1;
        }
        proof {
            assert forall|j: int| 0 <= j < r@.len() implies s5.has((#[trigger] r@[j]).0)
                && self.inner.is_state(r@[j].1.model()) by {
                assert(s5.has(solved@[0]@[j]));
                assert(h.is_state(ss[j].model()));
            }
            assert forall|p: Pkt, m: Place<T>, y: Pkt|
                #![trigger listed(s5, r@, p, m, y)]
                p.len() == k && y.len() == k implies listed(s5, r@, p, m, y) == hides(
                &self.inner,
                o,
                q.model(),
                p,
                m,
                y,
            ) by {
                if listed(s5, r@, p, m, y) {
                    let j = choose|j: int|
                        0 <= j < r@.len() && s5.rel((#[trigger] r@[j]).0, p, y) && r@[j].1.model()
                            == m;
                    assert(s5.rel(solved@[0]@[j], p, y));
                }
                if hides(&self.inner, o, q.model(), p, m, y) {
                    let path = choose|path: Seq<(Place<T>, Pkt)>| #[trigger]
                        hidden_path(&self.inner, o, q.model(), p, path) && path.last() == (m, y);
                    lemma_hides_ext(&self.inner, s1, o, q.model(), p, m, y);
                    let path1 = choose|path: Seq<(Place<T>, Pkt)>| #[trigger]
                        hidden_path(&self.inner, s1, q.model(), p, path) && path.last() == (m, y);
                    lemma_hidden_states(&h, s1, g, path1, 0, path1.len() - 1);
                    let j = choose|j: int| 0 <= j < ss.len() && (#[trigger] ss[j]).model() == m;
                    assert(s5.rel(solved@[0]@[j], p, y));
                    assert(s5.rel(r@[j].0, p, y) && r@[j].1.model() == m);
                }
            }
        }
        r
    }
}

/// Invisible steps and then one of the automaton to a visible state.
pub open spec fn closed_step<T: ENFA>(
    a: &T,
    st: SPPstore,
    q: Place<T>,
    p: Pkt,
    r: Place<T>,
    x: Pkt,
) -> bool {
    a.vis(r) && exists|m: Place<T>, y: Pkt| #[trigger]
        hides(a, st, q, p, m, y) && a.step(st, m, y, r, x)
}

/// Invisible steps and then an output of the automaton.
pub open spec fn closed_out<T: ENFA>(a: &T, st: SPPstore, q: Place<T>, p: Pkt, x: Pkt) -> bool {
    exists|m: Place<T>, y: Pkt| #[trigger] hides(a, st, q, p, m, y) && a.out(st, m, y, x)
}

impl<T: ENFA> ENFA for EpsilonClosure<T> {
    type State = T::State;

    open spec fn valid(&self, st: SPPstore) -> bool {
        self.inner.valid(st)
    }

    open spec fn is_state(&self, q: Place<T>) -> bool {
        self.inner.is_state(q)
    }

    open spec fn init(&self) -> Place<T> {
        self.inner.init()
    }

    open spec fn vis(&self, q: Place<T>) -> bool {
        true
    }

    open spec fn step(&self, st: SPPstore, q: Place<T>, p: Pkt, r: Place<T>, x: Pkt) -> bool {
        closed_step(&self.inner, st, q, p, r, x)
    }

    open spec fn out(&self, st: SPPstore, q: Place<T>, p: Pkt, x: Pkt) -> bool {
        closed_out(&self.inner, st, q, p, x)
    }

    proof fn lemma_valid(&self, st: SPPstore, o: SPPstore)
    {
        self.inner.lemma_valid(st, o);
        assert forall|q: Place<T>, p: Pkt, r: Place<T>, x: Pkt|
            #![trigger self.step(st, q, p, r, x)]
            #![trigger self.step(o, q, p, r, x)]
            self.is_state(q) && p.len() == o.n() && x.len() == o.n() implies self.step(
            st,
            q,
            p,
            r,
            x,
        ) == self.step(o, q, p, r, x) by {
            if self.step(st, q, p, r, x) {
                let (m, y) = choose|m: Place<T>, y: Pkt| #[trigger]
                    hides(&self.inner, st, q, p, m, y) && self.inner.step(st, m, y, r, x);
                lemma_hides_store(&self.inner, st, o, q, p, m, y);
                assert(self.inner.step(o, m, y, r, x));
            }
            if self.step(o, q, p, r, x) {
                let (m, y) = choose|m: Place<T>, y: Pkt| #[trigger]
                    hides(&self.inner, o, q, p, m, y) && self.inner.step(o, m, y, r, x);
                lemma_hides_store(&self.inner, st, o, q, p, m, y);
                assert(self.inner.step(st, m, y, r, x));
            }
        }
        assert forall|q: Place<T>, p: Pkt, x: Pkt|
            #![trigger self.out(st, q, p, x)]
            #![trigger self.out(o, q, p, x)]
            self.is_state(q) && p.len() == o.n() && x.len() == o.n() implies self.out(st, q, p, x)
            == self.out(o, q, p, x) by {
            if self.out(st, q, p, x) {
                let (m, y) = choose|m: Place<T>, y: Pkt| #[trigger]
                    hides(&self.inner, st, q, p, m, y) && self.inner.out(st, m, y, x);
                lemma_hides_store(&self.inner, st, o, q, p, m, y);
                assert(self.inner.out(o, m, y, x));
            }
            if self.out(o, q, p, x) {
                let (m, y) = choose|m: Place<T>, y: Pkt| #[trigger]
                    hides(&self.inner, o, q, p, m, y) && self.inner.out(o, m, y, x);
                lemma_hides_store(&self.inner, st, o, q, p, m, y);
                assert(self.inner.out(st, m, y, x));
            }
        }
    }

    proof fn lemma_states(&self, st: SPPstore) {
        self.inner.lemma_states(st);
        assert forall|q: Place<T>, p: Pkt, r: Place<T>, x: Pkt| #[trigger]
            self.step(st, q, p, r, x) && self.is_state(q) && p.len() == st.n() && x.len()
                == st.n() implies self.is_state(r) by {
            let (m, y) = choose|m: Place<T>, y: Pkt| #[trigger]
                hides(&self.inner, st, q, p, m, y) && self.inner.step(st, m, y, r, x);
            lemma_hides_states(&self.inner, st, q, p, m, y);
        }
    }

    fn start(&self, store: &mut SPPstore) -> (q: T::State) {
        self.inner.start(store)
    }

    fn is_visible(&self, store: &mut SPPstore, q: &T::State) -> (b: bool) {
        true
    }

    fn transitions(&self, store: &mut SPPstore, q: &T::State) -> (ts: Vec<(SPP, T::State)>) {
        let ghost o = *store;
        let ghost k = o.n();
        let ghost z = q.model();
        let cl = self.epsilon_closure(store, q);
        let ghost s1 = *store;
        let mut result: Vec<(SPP, T::State)> = Vec::new();
        let mut i: usize = 0;
        while i < cl.len()
            invariant
                store.wf(),
                s1.wf(),
                o.wf(),
                store.extends(&s1),
                s1.extends(&o),
                k == o.n(),
                self.inner.valid(o),
                forall|j: int|
                    0 <= j < cl@.len() ==> s1.has((#[trigger] cl@[j]).0) && self.inner.is_state(
                        cl@[j].1.model(),
                    ),
                i <= cl@.len(),
                rels_ok(*store, result@),
                merged(result@),
                forall|j: int|
                    0 <= j < result@.len() ==> self.inner.is_state(
                        (#[trigger] result@[j]).1.model(),
                    ),
                forall|p: Pkt, r: Place<T>, x: Pkt|
                    #![trigger listed(*store, result@, p, r, x)]
                    p.len() == k && x.len() == k ==> (listed(*store, result@, p, r, x) <==> via_list(
                        &self.inner,
                        s1,
                        o,
                        cl@.take(i as int),
                        p,
                        r,
                        x,
                    )),
            decreases cl.len() - i,
        {
            let ghost s2 = *store;
            let ghost r0 = result@;
            let ghost (c, m) = (cl@[i as int].0, cl@[i as int].1.model());
            proof {
                assert(self.inner.is_state(cl@[i as int].1.model()));
                self.inner.lemma_valid(s1, o);
                self.inner.lemma_valid(s2, s1);
            }
            let all = self.inner.transitions(store, &cl[i].1);
            let ghost s3 = *store;
            proof {
                self.inner.lemma_valid(s3, s2);
            }
            let shown = select(&self.inner, store, all, true);
            let ghost s4 = *store;
            proof {
                lemma_listed_ext(s4, s2, r0);
                assert forall|y: Pkt, r: Place<T>, x: Pkt|
                    #![trigger listed(s4, shown@, y, r, x)]
                    y.len() == k && x.len() == k implies (listed(s4, shown@, y, r, x)
                    <==> self.inner.step(o, m, y, r, x) && self.inner.vis(r)) by {
                    assert(self.inner.step(s2, m, y, r, x) == listed(s3, all@, y, r, x));
                    assert(self.inner.step(s2, m, y, r, x) == self.inner.step(s1, m, y, r, x));
                    assert(self.inner.step(s1, m, y, r, x) == self.inner.step(o, m, y, r, x));
                }
            }
            let mut j: usize = 0;
            while j < shown.len()
                invariant
                    store.wf(),
                    s4.wf(),
                    store.extends(&s4),
                    s4.extends(&s1),
                    s4.n() == k,
                    s1.n() == k,
                    i < cl@.len(),
                    s1.has(cl@[i as int].0),
                    c == cl@[i as int].0,
                    forall|h: int|
                        0 <= h < shown@.len() ==> s4.has((#[trigger] shown@[h]).0)
                            && self.inner.is_state(shown@[h].1.model()),
                    j <= shown@.len(),
                    rels_ok(*store, result@),
                    merged(result@),
                    forall|h: int|
                        0 <= h < result@.len() ==> self.inner.is_state(
                            (#[trigger] result@[h]).1.model(),
                        ),
                    forall|p: Pkt, r: Place<T>, x: Pkt|
                        #![trigger listed(*store, result@, p, r, x)]
                        p.len() == k && x.len() == k ==> (listed(*store, result@, p, r, x)
                            <==> listed(s4, r0, p, r, x) || after_step(
                            s1,
                            c,
                            s4,
                            shown@.take(j as int),
                            p,
                            r,
                            x,
                        )),
                decreases shown.len() - j,
            {
                let ghost s5 = *store;
                let ghost r1 = result@;
                let ghost t = shown@[j as int];
                proof {
                    assert(s4.has(shown@[j as int].0));
                    assert(shown@.take(j + 1) =~= shown@.take(j as int).push(t));
                }
                let combined = store.sequence(cl[i].0, shown[j].0);
                let ghost s6 = *store;
                proof {
                    lemma_listed_ext(s6, s5, r1);
                }
                let target = shown[j].1.dup();
                let ghost tm = target.model();
                union_into(&mut result, store, target, combined);
                proof {
                    assert forall|p: Pkt, r: Place<T>, x: Pkt|
                        #![trigger listed(*store, result@, p, r, x)]
                        p.len() == k && x.len() == k implies (listed(*store, result@, p, r, x)
                        <==> listed(s4, r0, p, r, x) || after_step(
                        s1,
                        c,
                        s4,
                        shown@.take(j + 1),
                        p,
                        r,
                        x,
                    )) by {
                        assert(listed(s6, r1, p, r, x) == listed(s5, r1, p, r, x));
                        lemma_after_push(s1, c, s4, shown@.take(j as int), t, p, r, x);
                        assert(s6.rel(combined, p, x) <==> exists|y: Pkt|
                            y.len() == k && #[trigger] s5.rel(c, p, y) && s5.rel(t.0, y, x));
                        if s6.rel(combined, p, x) {
                            let y = choose|y: Pkt|
                                y.len() == k && #[trigger] s5.rel(c, p, y) && s5.rel(t.0, y, x);
                            assert(s1.rel(c, p, y) && s4.rel(t.0, y, x));
                        }
                        if exists|y: Pkt|
                            y.len() == k && #[trigger] s1.rel(c, p, y) && s4.rel(t.0, y, x) {
                            let y = choose|y: Pkt|
                                y.len() == k && #[trigger] s1.rel(c, p, y) && s4.rel(t.0, y, x);
                            assert(s5.rel(c, p, y) && s5.rel(t.0, y, x));
                        }
                    }
                    assert forall|h: int| 0 <= h < result@.len() implies self.inner.is_state(
                        (#[trigger] result@[h]).1.model(),
                    ) by {
                        if result@[h].1.model() != tm {
                            let l = choose|l: int|
                                0 <= l < r1.len() && (#[trigger] r1[l]).1.model()
                                    == result@[h].1.model();
                            assert(self.inner.is_state(r1[l].1.model()));
                        } else {
                            assert(self.inner.is_state(shown@[j as int].1.model()));
                        }
                    }
                }
                j = j + 1;
            }
            proof {
                assert(shown@.take(j as int) =~= shown@);
                assert(cl@.take(i + 1) =~= cl@.take(i as int).push(cl@[i as int]));
                assert forall|p: Pkt, r: Place<T>, x: Pkt|
                    #![trigger listed(*store, result@, p, r, x)]
                    p.len() == k && x.len() == k implies (listed(*store, result@, p, r, x)
                    <==> via_list(&self.inner, s1, o, cl@.take(i + 1), p, r, x)) by {
                    assert(listed(s4, r0, p, r, x) == listed(s2, r0, p, r, x));
                    lemma_via_push(
                        &self.inner,
                        s1,
                        o,
                        cl@.take(i as int),
                        cl@[i as int],
                        p,
                        r,
                        x,
                    );
                    if after_step(s1, c, s4, shown@, p, r, x) {
                        let y = choose|y: Pkt|
                            y.len() == s1.n() && #[trigger] s1.rel(c, p, y) && listed(
                                s4,
                                shown@,
                                y,
                                r,
                                x,
                            );
                        assert(self.inner.step(o, m, y, r, x) && self.inner.vis(r));
                    }
                    if self.inner.vis(r) && exists|y: Pkt|
                        y.len() == k && #[trigger] s1.rel(c, p, y) && self.inner.step(
                            o,
                            m,
                            y,
                            r,
                            x,
                        ) {
                        let y = choose|y: Pkt|
                            y.len() == k && #[trigger] s1.rel(c, p, y) && self.inner.step(
                                o,
                                m,
                                y,
                                r,
                                x,
                            );
                        assert(listed(s4, shown@, y, r, x));
                    }
                }
            }
            i = i + 1;
        }
        proof {
            assert(cl@.take(i as int) =~= cl@);
            assert forall|p: Pkt, r: Place<T>, x: Pkt|
                #![trigger self.step(o, z, p, r, x)]
                #![trigger listed(*store, result@, p, r, x)]
                p.len() == k && x.len() == k implies self.step(o, z, p, r, x) == listed(
                *store,
                result@,
                p,
                r,
                x,
            ) by {
                if via_list(&self.inner, s1, o, cl@, p, r, x) {
                    let (h, y) = choose|h: int, y: Pkt|
                        0 <= h < cl@.len() && y.len() == o.n() && #[trigger] s1.rel(
                            cl@[h].0,
                            p,
                            y,
                        ) && self.inner.step(o, cl@[h].1.model(), y, r, x);
                    assert(listed(s1, cl@, p, cl@[h].1.model(), y));
                    assert(hides(&self.inner, o, z, p, cl@[h].1.model(), y));
                }
                if self.step(o, z, p, r, x) {
                    let (m, y) = choose|m: Place<T>, y: Pkt| #[trigger]
                        hides(&self.inner, o, z, p, m, y) && self.inner.step(o, m, y, r, x);
                    lemma_hides_states(&self.inner, o, z, p, m, y);
                    assert(listed(s1, cl@, p, m, y));
                    let h = choose|h: int|
                        0 <= h < cl@.len() && s1.rel((#[trigger] cl@[h]).0, p, y)
                            && cl@[h].1.model() == m;
                    assert(s1.rel(cl@[h].0, p, y));
                }
            }
        }
        result
    }

    fn output(&self, store: &mut SPPstore, q: &T::State) -> (res: SPP) {
        let ghost o = *store;
        let ghost k = o.n();
        let ghost z = q.model();
        let cl = self.epsilon_closure(store, q);
        let ghost s1 = *store;
        proof {
            s1.lemma_wf();
        }
        let mut result = store.zero;
        let mut i: usize = 0;
        while i < cl.len()
            invariant
                store.wf(),
                s1.wf(),
                o.wf(),
                store.extends(&s1),
                s1.extends(&o),
                k == o.n(),
                self.inner.valid(o),
                forall|j: int|
                    0 <= j < cl@.len() ==> s1.has((#[trigger] cl@[j]).0) && self.inner.is_state(
                        cl@[j].1.model(),
                    ),
                i <= cl@.len(),
                store.has(result),
                forall|p: Pkt, x: Pkt|
                    #![trigger store.rel(result, p, x)]
                    p.len() == k && x.len() == k ==> (store.rel(result, p, x) <==> out_list(
                        &self.inner,
                        s1,
                        o,
                        cl@,
                        i as int,
                        p,
                        x,
                    )),
            decreases cl.len() - i,
        {
            let ghost s2 = *store;
            let ghost r0 = result;
            let ghost (c, m) = (cl@[i as int].0, cl@[i as int].1.model());
            proof {
                assert(s1.has(cl@[i as int].0));
                assert(self.inner.is_state(cl@[i as int].1.model()));
                self.inner.lemma_valid(s1, o);
                self.inner.lemma_valid(s2, s1);
            }
            let inner_out = self.inner.output(store, &cl[i].1);
            let ghost s3 = *store;
            let composed = store.sequence(cl[i].0, inner_out);
            let ghost s4 = *store;
            result = store.union(result, composed);
            proof {
                assert forall|p: Pkt, x: Pkt|
                    #![trigger store.rel(result, p, x)]
                    p.len() == k && x.len() == k implies (store.rel(result, p, x) <==> out_list(
                    &self.inner,
                    s1,
                    o,
                    cl@,
                    i + 1,
                    p,
                    x,
                )) by {
                    assert(s4.rel(r0, p, x) == s2.rel(r0, p, x));
                    if s4.rel(composed, p, x) {
                        let y = choose|y: Pkt|
                            y.len() == k && #[trigger] s3.rel(c, p, y) && s3.rel(inner_out, y, x);
                        assert(self.inner.out(s2, m, y, x));
                        assert(self.inner.out(s1, m, y, x));
                        assert(self.inner.out(o, m, y, x));
                        assert(s1.rel(cl@[i as int].0, p, y));
                        assert(out_list(&self.inner, s1, o, cl@, i + 1, p, x));
                    }
                    if out_list(&self.inner, s1, o, cl@, i as int, p, x) {
                        let (h, y) = choose|h: int, y: Pkt|
                            0 <= h < i && y.len() == o.n() && #[trigger] s1.rel(cl@[h].0, p, y)
                                && self.inner.out(o, cl@[h].1.model(), y, x);
                        assert(s1.rel(cl@[h].0, p, y));
                    }
                    if out_list(&self.inner, s1, o, cl@, i + 1, p, x) {
                        let (h, y) = choose|h: int, y: Pkt|
                            0 <= h < i + 1 && y.len() == o.n() && #[trigger] s1.rel(
                                cl@[h].0,
                                p,
                                y,
                            ) && self.inner.out(o, cl@[h].1.model(), y, x);
                        if h < i {
                            assert(s1.rel(cl@[h].0, p, y));
                            assert(out_list(&self.inner, s1, o, cl@, i as int, p, x));
                        } else {
                            assert(self.inner.out(s1, m, y, x));
                            assert(self.inner.out(s2, m, y, x));
                            assert(s3.rel(inner_out, y, x));
                            assert(s3.rel(c, p, y));
                            assert(s4.rel(composed, p, x));
                        }
                    }
                }
            }
            i = i + 1;
        }
        proof {
            assert forall|p: Pkt, x: Pkt|
                #![trigger self.out(o, z, p, x)]
                #![trigger store.rel(result, p, x)]
                p.len() == k && x.len() == k implies self.out(o, z, p, x) == store.rel(
                result,
                p,
                x,
            ) by {
                if out_list(&self.inner, s1, o, cl@, cl@.len() as int, p, x) {
                    let (h, y) = choose|h: int, y: Pkt|
                        0 <= h < cl@.len() && y.len() == o.n() && #[trigger] s1.rel(
                            cl@[h].0,
                            p,
                            y,
                        ) && self.inner.out(o, cl@[h].1.model(), y, x);
                    assert(listed(s1, cl@, p, cl@[h].1.model(), y));
                    assert(hides(&self.inner, o, z, p, cl@[h].1.model(), y));
                }
                if self.out(o, z, p, x) {
                    let (m, y) = choose|m: Place<T>, y: Pkt| #[trigger]
                        hides(&self.inner, o, z, p, m, y) && self.inner.out(o, m, y, x);
                    lemma_hides_states(&self.inner, o, z, p, m, y);
                    assert(listed(s1, cl@, p, m, y));
                    let h = choose|h: int|
                        0 <= h < cl@.len() && s1.rel((#[trigger] cl@[h]).0, p, y)
                            && cl@[h].1.model() == m;
                    assert(s1.rel(cl@[h].0, p, y));
                }
            }
        }
        result
    }
}

impl<T: ENFA> NFA for EpsilonClosure<T> {
    proof fn lemma_visible(&self) {
    }
}

/// An entry of the list, and then a step of the automaton to a visible state.
spec fn via_list<T: ENFA>(
    a: &T,
    st: SPPstore,
    o: SPPstore,
    cl: Seq<(SPP, T::State)>,
    p: Pkt,
    r: Place<T>,
    x: Pkt,
) -> bool {
    a.vis(r) && exists|h: int, y: Pkt|
        0 <= h < cl.len() && y.len() == o.n() && #[trigger] st.rel(cl[h].0, p, y) && a.step(
            o,
            cl[h].1.model(),
            y,
            r,
            x,
        )
}

/// One of the first `i` entries of the list, and then an output of the automaton.
spec fn out_list<T: ENFA>(
    a: &T,
    st: SPPstore,
    o: SPPstore,
    cl: Seq<(SPP, T::State)>,
    i: int,
    p: Pkt,
    x: Pkt,
) -> bool {
    exists|h: int, y: Pkt|
        0 <= h < i && y.len() == o.n() && #[trigger] st.rel(cl[h].0, p, y) && a.out(
            o,
            cl[h].1.model(),
            y,
            x,
        )
}

/// A step of `c`, and then a transition of the list.
spec fn after_step<S: StateKey>(
    st: SPPstore,
    c: SPP,
    s: SPPstore,
    ts: Seq<(SPP, S)>,
    p: Pkt,
    r: S::M,
    x: Pkt,
) -> bool {
    exists|y: Pkt| y.len() == st.n() && #[trigger] st.rel(c, p, y) && listed(s, ts, y, r, x)
}

proof fn lemma_after_push<S: StateKey>(
    st: SPPstore,
    c: SPP,
    s: SPPstore,
    ts: Seq<(SPP, S)>,
    t: (SPP, S),
    p: Pkt,
    r: S::M,
    x: Pkt,
)
    ensures
        after_step(st, c, s, ts.push(t), p, r, x) <==> after_step(st, c, s, ts, p, r, x) || (
        t.1.model() == r && exists|y: Pkt|
            y.len() == st.n() && #[trigger] st.rel(c, p, y) && s.rel(t.0, y, x)),
{
    if after_step(st, c, s, ts.push(t), p, r, x) {
        let y = choose|y: Pkt|
            y.len() == st.n() && #[trigger] st.rel(c, p, y) && listed(s, ts.push(t), y, r, x);
        lemma_listed_push(s, ts, t, y, r, x);
    }
    if after_step(st, c, s, ts, p, r, x) {
        let y = choose|y: Pkt|
            y.len() == st.n() && #[trigger] st.rel(c, p, y) && listed(s, ts, y, r, x);
        lemma_listed_push(s, ts, t, y, r, x);
    }
    if t.1.model() == r && exists|y: Pkt|
        y.len() == st.n() && #[trigger] st.rel(c, p, y) && s.rel(t.0, y, x) {
        let y = choose|y: Pkt|
            y.len() == st.n() && #[trigger] st.rel(c, p, y) && s.rel(t.0, y, x);
        lemma_listed_push(s, ts, t, y, r, x);
    }
}

proof fn lemma_via_push<T: ENFA>(
    a: &T,
    st: SPPstore,
    o: SPPstore,
    cl: Seq<(SPP, T::State)>,
    e: (SPP, T::State),
    p: Pkt,
    r: Place<T>,
    x: Pkt,
)
    ensures
        via_list(a, st, o, cl.push(e), p, r, x) <==> via_list(a, st, o, cl, p, r, x) || (a.vis(r)
            && exists|y: Pkt|
            y.len() == o.n() && #[trigger] st.rel(e.0, p, y) && a.step(o, e.1.model(), y, r, x)),
{
    let us = cl.push(e);
    assert(us[cl.len() as int] == e);
    if via_list(a, st, o, us, p, r, x) {
        let (h, y) = choose|h: int, y: Pkt|
            0 <= h < us.len() && y.len() == o.n() && #[trigger] st.rel(us[h].0, p, y) && a.step(
                o,
                us[h].1.model(),
                y,
                r,
                x,
            );
        if h < cl.len() {
            assert(us[h] == cl[h]);
            assert(st.rel(cl[h].0, p, y));
        }
    }
    if via_list(a, st, o, cl, p, r, x) {
        let (h, y) = choose|h: int, y: Pkt|
            0 <= h < cl.len() && y.len() == o.n() && #[trigger] st.rel(cl[h].0, p, y) && a.step(
                o,
                cl[h].1.model(),
                y,
                r,
                x,
            );
        assert(us[h] == cl[h]);
        assert(st.rel(us[h].0, p, y));
    }
    if a.vis(r) && exists|y: Pkt|
        y.len() == o.n() && #[trigger] st.rel(e.0, p, y) && a.step(o, e.1.model(), y, r, x) {
        let y = choose|y: Pkt|
            y.len() == o.n() && #[trigger] st.rel(e.0, p, y) && a.step(o, e.1.model(), y, r, x);
        assert(st.rel(us[cl.len() as int].0, p, y));
    }
}

/// Invisible steps, seen from the smaller store.
proof fn lemma_hides_store<T: ENFA>(
    a: &T,
    st: SPPstore,
    o: SPPstore,
    q: Place<T>,
    p: Pkt,
    m: Place<T>,
    y: Pkt,
)
    requires
        o.wf(),
        st.extends(&o),
        a.valid(o),
        a.is_state(q),
        hides(a, st, q, p, m, y) || hides(a, o, q, p, m, y),
    ensures
        hides(a, st, q, p, m, y),
        hides(a, o, q, p, m, y),
        a.is_state(m),
        y.len() == o.n(),
{
    a.lemma_valid(st, o);
    if hides(a, o, q, p, m, y) {
        let path = choose|path: Seq<(Place<T>, Pkt)>| #[trigger]
            hidden_path(a, o, q, p, path) && path.last() == (m, y);
        assert forall|i: int| 0 <= i < path.len() - 1 implies #[trigger] moves(
            a,
            st,
            path,
            i,
        ) by {
            assert(moves(a, o, path, i));
            lemma_path_states(a, o, path, i);
            assert(path[i].1.len() == o.n() && path[i + 1].1.len() == o.n());
        }
        assert(hidden_path(a, st, q, p, path));
        lemma_path_states(a, o, path, path.len() - 1);
        assert(path[path.len() - 1].1.len() == o.n());
    } else {
        let path = choose|path: Seq<(Place<T>, Pkt)>| #[trigger]
            hidden_path(a, st, q, p, path) && path.last() == (m, y);
        lemma_old_path(a, st, o, path, path.len() - 1);
        assert(hidden_path(a, o, q, p, path));
        lemma_path_states(a, o, path, path.len() - 1);
        assert(path[path.len() - 1].1.len() == o.n());
    }
}

/// A path of a store that has grown is a path of the store before.
proof fn lemma_old_path<T: ENFA>(
    a: &T,
    st: SPPstore,
    o: SPPstore,
    path: Seq<(Place<T>, Pkt)>,
    k: int,
)
    requires
        o.wf(),
        st.extends(&o),
        a.valid(o),
        is_path(a, st, path),
        a.is_state(path[0].0),
        0 <= k < path.len(),
    ensures
        forall|i: int| 0 <= i < k ==> #[trigger] moves(a, o, path, i),
        a.is_state(path[k].0),
    decreases k,
{
    if k > 0 {
        lemma_old_path(a, st, o, path, k - 1);
        a.lemma_valid(st, o);
        a.lemma_states(o);
        assert(moves(a, st, path, k - 1));
        assert(path[k - 1].1.len() == o.n() && path[k].1.len() == o.n());
        assert(moves(a, o, path, k - 1));
    }
}

// ---- the words of the closure -----------------------------------------------------------------

/// What is seen of two paths is what is seen of each.
pub proof fn lemma_seen_add<T: ENFA>(
    a: &T,
    s: Seq<(Place<T>, Pkt)>,
    t: Seq<(Place<T>, Pkt)>,
)
    ensures
        seen(a, s + t) == seen(a, s) + seen(a, t),
    decreases t.len(),
{
    if t.len() == 0 {
        assert(s + t =~= s);
        assert(seen(a, s) + seen(a, t) =~= seen(a, s));
    } else {
        let u = t.drop_last();
        lemma_seen_add(a, s, u);
        assert((s + t).drop_last() =~= s + u);
        assert((s + t).last() == t.last());
        assert(seen(a, s + t) =~= seen(a, s) + seen(a, t));
    }
}

/// Nothing is seen of invisible states.
pub proof fn lemma_seen_none<T: ENFA>(a: &T, s: Seq<(Place<T>, Pkt)>)
    requires
        forall|i: int| 0 <= i < s.len() ==> !a.vis((#[trigger] s[i]).0),
    ensures
        seen(a, s) == Seq::<Pkt>::empty(),
    decreases s.len(),
{
    if s.len() > 0 {
        let u = s.drop_last();
        assert forall|i: int| 0 <= i < u.len() implies !a.vis((#[trigger] u[i]).0) by {
            assert(u[i] == s[i]);
        }
        lemma_seen_none(a, u);
        assert(!a.vis(s[s.len() - 1].0));
    }
}

/// A word of the closure is a word of the automaton.
proof fn lemma_closure_sound<T: ENFA>(c: &EpsilonClosure<T>, st: SPPstore, q: Place<T>, w: Word)
    requires
        is_word(st.n(), w),
        nfa_word(c, st, q, w),
    ensures
        accepts_from(&c.inner, st, q, w),
    decreases w.len(),
{
    let a = &c.inner;
    if w.len() == 2 {
        assert(closed_out(a, st, q, w[0], w[1]));
        let (m, y) = choose|m: Place<T>, y: Pkt| #[trigger]
            hides(a, st, q, w[0], m, y) && a.out(st, m, y, w[1]);
        let path = choose|path: Seq<(Place<T>, Pkt)>| #[trigger]
            hidden_path(a, st, q, w[0], path) && path.last() == (m, y);
        let rest = path.skip(1);
        assert forall|i: int| 0 <= i < rest.len() implies !a.vis((#[trigger] rest[i]).0) by {
            assert(rest[i] == path[i + 1]);
        }
        lemma_seen_none(a, rest);
        assert(trace_of(a, path) =~= w.drop_last());
        assert(run_on(a, st, q, path, w));
    } else {
        let v = w.skip(1);
        lemma_tail(st.n(), w, 1);
        let r = choose|r: Place<T>| #[trigger]
            c.step(st, q, w[0], r, w[1]) && nfa_word(c, st, r, v);
        lemma_closure_sound(c, st, r, v);
        assert(closed_step(a, st, q, w[0], r, w[1]));
        let (m, y) = choose|m: Place<T>, y: Pkt| #[trigger]
            hides(a, st, q, w[0], m, y) && a.step(st, m, y, r, w[1]);
        let front = choose|path: Seq<(Place<T>, Pkt)>| #[trigger]
            hidden_path(a, st, q, w[0], path) && path.last() == (m, y);
        let back = choose|path: Seq<(Place<T>, Pkt)>| #[trigger] run_on(a, st, r, path, v);
        let path = front + back;
        assert(trace_of(a, back)[0] == back[0].1);
        assert(v.drop_last()[0] == v[0]);
        assert(back[0] == (r, w[1]));
        assert forall|i: int| 0 <= i < path.len() - 1 implies #[trigger] moves(
            a,
            st,
            path,
            i,
        ) by {
            if i < front.len() - 1 {
                assert(moves(a, st, front, i));
            } else if i >= front.len() {
                assert(moves(a, st, back, i - front.len()));
            } else {
                assert(path[i] == front.last());
                assert(path[i + 1] == back[0]);
            }
        }
        assert forall|i: int| 0 <= i < path.len() implies (#[trigger] path[i]).1.len()
            == st.n() by {
            if i < front.len() {
                assert(path[i] == front[i]);
            } else {
                assert(path[i] == back[i - front.len()]);
            }
        }
        let rest = front.skip(1);
        assert forall|i: int| 0 <= i < rest.len() implies !a.vis((#[trigger] rest[i]).0) by {
            assert(rest[i] == front[i + 1]);
        }
        lemma_seen_none(a, rest);
        lemma_seen_add(a, rest, back);
        lemma_seen_first(a, back);
        assert(path.skip(1) =~= rest + back);
        assert(seen(a, path.skip(1)) =~= trace_of(a, back));
        assert(trace_of(a, path) =~= seq![w[0]] + v.drop_last());
        assert(w.drop_last() =~= seq![w[0]] + v.drop_last());
        assert(path.last() == back.last());
        assert(v.last() == w.last());
        assert(run_on(a, st, q, path, w));
    }
}

/// The first visible state of a path after its start, or its length.
spec fn first_shown<T: ENFA>(a: &T, path: Seq<(Place<T>, Pkt)>, i: int) -> int
    decreases path.len() - i,
{
    if i >= path.len() || a.vis(path[i].0) {
        i
    } else {
        first_shown(a, path, i + 1)
    }
}

proof fn lemma_first_shown<T: ENFA>(a: &T, path: Seq<(Place<T>, Pkt)>, i: int)
    requires
        0 <= i <= path.len(),
    ensures
        i <= first_shown(a, path, i) <= path.len(),
        forall|j: int| i <= j < first_shown(a, path, i) ==> !a.vis((#[trigger] path[j]).0),
        first_shown(a, path, i) < path.len() ==> a.vis(path[first_shown(a, path, i)].0),
    decreases path.len() - i,
{
    if i < path.len() && !a.vis(path[i].0) {
        lemma_first_shown(a, path, i + 1);
    }
}

/// A word of the automaton is a word of the closure.
proof fn lemma_closure_complete<T: ENFA>(
    c: &EpsilonClosure<T>,
    st: SPPstore,
    q: Place<T>,
    path: Seq<(Place<T>, Pkt)>,
    w: Word,
)
    requires
        is_word(st.n(), w),
        run_on(&c.inner, st, q, path, w),
    ensures
        nfa_word(c, st, q, w),
    decreases w.len(),
{
    let a = &c.inner;
    let k = first_shown(a, path, 1);
    lemma_first_shown(a, path, 1);
    let front = path.take(k);
    let back = path.skip(k);
    let rest = front.skip(1);
    assert(trace_of(a, path)[0] == path[0].1);
    assert(path[0].1 == w[0]);
    assert forall|i: int| 0 <= i < rest.len() implies !a.vis((#[trigger] rest[i]).0) by {
        assert(rest[i] == path[i + 1]);
    }
    assert forall|i: int| 1 <= i < front.len() implies !a.vis((#[trigger] front[i]).0) by {
        assert(front[i] == path[i]);
    }
    assert forall|i: int| 0 <= i < front.len() - 1 implies #[trigger] moves(a, st, front, i) by {
        assert(moves(a, st, path, i));
    }
    assert forall|i: int| 0 <= i < front.len() implies (#[trigger] front[i]).1.len() == st.n() by {
        assert(front[i] == path[i]);
    }
    assert(hidden_path(a, st, q, w[0], front));
    let (m, y) = front.last();
    assert(hides(a, st, q, w[0], m, y));
    lemma_seen_none(a, rest);
    lemma_seen_add(a, rest, back);
    assert(path.skip(1) =~= rest + back);
    assert(seen(a, path.skip(1)) =~= seen(a, back));
    if k == path.len() {
        assert(back =~= Seq::<(Place<T>, Pkt)>::empty());
        assert(seen(a, back) =~= Seq::<Pkt>::empty());
        assert(trace_of(a, path).len() == 1);
        assert(w.drop_last().len() == 1);
        assert(front =~= path);
        assert(w.last() == w[1]);
        assert(closed_out(a, st, q, w[0], w[1]));
    } else {
        lemma_seen_first(a, back);
        assert(back[0] == path[k]);
        assert(seen(a, back) =~= trace_of(a, back));
        assert(trace_of(a, path) =~= seq![w[0]] + trace_of(a, back));
        assert(w.drop_last() == trace_of(a, path));
        let v = w.skip(1);
        assert(trace_of(a, back).len() >= 1);
        assert(w.len() >= 3);
        assert(v.drop_last() =~= w.drop_last().skip(1));
        assert(trace_of(a, path).skip(1) =~= trace_of(a, back));
        assert(v.last() == w.last());
        let (r, x) = back[0];
        assert(trace_of(a, back)[0] == x);
        assert(w.drop_last()[1] == x);
        assert(x == w[1]);
        assert forall|i: int| 0 <= i < back.len() - 1 implies #[trigger] moves(
            a,
            st,
            back,
            i,
        ) by {
            assert(moves(a, st, path, i + k));
        }
        assert forall|i: int| 0 <= i < back.len() implies (#[trigger] back[i]).1.len()
            == st.n() by {
            assert(back[i] == path[i + k]);
        }
        assert(back.last() == path.last());
        assert(run_on(a, st, r, back, v));
        lemma_tail(st.n(), w, 1);
        lemma_closure_complete(c, st, r, back, v);
        assert(moves(a, st, path, k - 1));
        assert(path[k - 1] == (m, y));
        assert(closed_step(a, st, q, w[0], r, w[1]));
        assert(c.step(st, q, w[0], r, w[1]));
    }
}

/// Taking out the invisible states keeps the words from every state.
pub proof fn law_closure_from<T: ENFA>(
    c: &EpsilonClosure<T>,
    st: SPPstore,
    q: Place<T>,
    w: Word,
)
    requires
        is_word(st.n(), w),
    ensures
        accepts_from(c, st, q, w) == accepts_from(&c.inner, st, q, w),
{
    lemma_nfa_word(c, st, q, w);
    if nfa_word(c, st, q, w) {
        lemma_closure_sound(c, st, q, w);
    }
    if accepts_from(&c.inner, st, q, w) {
        let path = choose|path: Seq<(Place<T>, Pkt)>| #[trigger]
            run_on(&c.inner, st, q, path, w);
        lemma_closure_complete(c, st, q, path, w);
    }
}

/// Taking out the invisible states keeps the words.
pub proof fn law_closure<T: ENFA>(c: &EpsilonClosure<T>, st: SPPstore, w: Word)
    requires
        is_word(st.n(), w),
    ensures
        enfa_lang(c, st)(w) == enfa_lang(&c.inner, st)(w),
{
    law_closure_from(c, st, c.inner.init(), w);
}

} // verus!
