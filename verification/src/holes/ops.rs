//! Boolean operations on automata.
//!
//! Each operation is a wrapper that asks the automata it is made of; nothing is
//! computed before it is asked for.
use vstd::prelude::*;
use vstd::slice::*;
use crate::holes::aut::{
    deterministic, enfa_lang, lemma_listed_push, lemma_nfa_word, listed, models, moves_on, nfa_word,
    total, Place, StateKey, DFA, ENFA, NFA,
};
use crate::lang::{is_word, lemma_tail, Word};
use crate::sp::Pkt;
use crate::spp::{SPPstore, SPP};

verus! {

/// A list of transitions of relations of the store, to the states `ok`.
pub open spec fn list_ok<S: StateKey>(
    st: SPPstore,
    ts: Seq<(SPP, S)>,
    ok: spec_fn(S::M) -> bool,
) -> bool {
    forall|i: int| 0 <= i < ts.len() ==> st.has((#[trigger] ts[i]).0) && ok(ts[i].1.model())
}

/// A list of transitions is kept when the store grows.
pub proof fn lemma_listed_ext<S: StateKey>(st: SPPstore, o: SPPstore, ts: Seq<(SPP, S)>)
    requires
        st.extends(&o),
        forall|i: int| 0 <= i < ts.len() ==> o.has((#[trigger] ts[i]).0),
    ensures
        forall|i: int| 0 <= i < ts.len() ==> st.has((#[trigger] ts[i]).0),
        forall|p: Pkt, r: S::M, x: Pkt|
            #![trigger listed(st, ts, p, r, x)]
            #![trigger listed(o, ts, p, r, x)]
            p.len() == o.n() && x.len() == o.n() ==> listed(st, ts, p, r, x) == listed(
                o,
                ts,
                p,
                r,
                x,
            ),
{
    assert forall|p: Pkt, r: S::M, x: Pkt|
        #![trigger listed(st, ts, p, r, x)]
        #![trigger listed(o, ts, p, r, x)]
        p.len() == o.n() && x.len() == o.n() implies listed(st, ts, p, r, x) == listed(
        o,
        ts,
        p,
        r,
        x,
    ) by {
        assert forall|i: int| 0 <= i < ts.len() implies st.rel((#[trigger] ts[i]).0, p, x)
            == o.rel(ts[i].0, p, x) by {}
        if listed(st, ts, p, r, x) {
            let i = choose|i: int|
                0 <= i < ts.len() && st.rel((#[trigger] ts[i]).0, p, x) && ts[i].1.model() == r;
            assert(o.rel(ts[i].0, p, x));
        }
        if listed(o, ts, p, r, x) {
            let i = choose|i: int|
                0 <= i < ts.len() && o.rel((#[trigger] ts[i]).0, p, x) && ts[i].1.model() == r;
            assert(st.rel(ts[i].0, p, x));
        }
    }
}

/// Some transition of the list leads from `p` with packet `x`.
pub open spec fn covered<S: StateKey>(st: SPPstore, ts: Seq<(SPP, S)>, p: Pkt, x: Pkt) -> bool {
    exists|r: S::M| #[trigger] listed(st, ts, p, r, x)
}

/// The pairs of packets for which no transition of the list leads anywhere.
fn missing<S: StateKey>(store: &mut SPPstore, ts: &Vec<(SPP, S)>) -> (y: SPP)
    requires
        old(store).wf(),
        forall|i: int| 0 <= i < ts@.len() ==> old(store).has((#[trigger] ts@[i]).0),
    ensures
        final(store).wf(),
        final(store).extends(old(store)),
        final(store).has(y),
        forall|p: Pkt, x: Pkt|
            #![trigger final(store).rel(y, p, x)]
            p.len() == old(store).n() && x.len() == old(store).n() ==> final(store).rel(y, p, x)
                == !covered(*old(store), ts@, p, x),
{
    let ghost o = *store;
    let ghost n = o.n();
    proof {
        o.lemma_wf();
    }
    let mut all = store.zero;
    let mut i: usize = 0;
    while i < ts.len()
        invariant
            store.wf(),
            store.extends(&o),
            o.wf(),
            n == o.n(),
            i <= ts@.len(),
            forall|j: int| 0 <= j < ts@.len() ==> o.has((#[trigger] ts@[j]).0),
            store.has(all),
            forall|p: Pkt, x: Pkt|
                #![trigger store.rel(all, p, x)]
                p.len() == n && x.len() == n ==> (store.rel(all, p, x) <==> covered(
                    o,
                    ts@.take(i as int),
                    p,
                    x,
                )),
        decreases ts.len() - i,
    {
        let ghost s0 = *store;
        let ghost a0 = all;
        let ghost t = ts@[i as int];
        proof {
            assert(o.has(ts@[i as int].0));
            assert(ts@.take(i + 1) =~= ts@.take(i as int).push(t));
        }
        all = store.union(all, ts[i].0);
        proof {
            assert forall|p: Pkt, x: Pkt|
                #![trigger store.rel(all, p, x)]
                p.len() == n && x.len() == n implies (store.rel(all, p, x) <==> covered(
                o,
                ts@.take(i + 1),
                p,
                x,
            )) by {
                let u = ts@.take(i as int);
                assert(s0.rel(t.0, p, x) == o.rel(t.0, p, x));
                if covered(o, u, p, x) {
                    let r = choose|r: S::M| #[trigger] listed(o, u, p, r, x);
                    lemma_listed_push(o, u, t, p, r, x);
                    assert(listed(o, ts@.take(i + 1), p, r, x));
                }
                if o.rel(t.0, p, x) {
                    lemma_listed_push(o, u, t, p, t.1.model(), x);
                    assert(listed(o, ts@.take(i + 1), p, t.1.model(), x));
                }
                if covered(o, ts@.take(i + 1), p, x) {
                    let r = choose|r: S::M| #[trigger] listed(o, ts@.take(i + 1), p, r, x);
                    lemma_listed_push(o, u, t, p, r, x);
                }
            }
        }
        i = i + 1;
    }
    let ghost s1 = *store;
    proof {
        assert(ts@.take(i as int) =~= ts@);
        s1.lemma_wf();
    }
    let top = store.top;
    let y = store.difference(top, all);
    proof {
        assert forall|p: Pkt, x: Pkt|
            #![trigger store.rel(y, p, x)]
            p.len() == n && x.len() == n implies store.rel(y, p, x) == !covered(
            o,
            ts@,
            p,
            x,
        ) by {
            assert(s1.rel(top, p, x));
            assert(s1.rel(all, p, x) == covered(o, ts@, p, x));
        }
    }
    y
}

// ---- complement ----------------------------------------------------------------------

/// A state of the inner automaton, or a sink.
#[derive(Debug, Copy, Clone, PartialEq, Eq, PartialOrd, Ord, Hash)]
pub enum CompState<S> {
    /// A state of the inner automaton.
    Inner(S),
    /// The sink.
    Sink,
}

impl<S: StateKey> StateKey for CompState<S> {
    type M = CompState<S::M>;

    open spec fn model(&self) -> CompState<S::M> {
        match *self {
            CompState::Inner(s) => CompState::Inner(s.model()),
            CompState::Sink => CompState::Sink,
        }
    }

    fn same(&self, o: &Self) -> (r: bool) {
        match (self, o) {
            (CompState::Inner(a), CompState::Inner(b)) => a.same(b),
            (CompState::Sink, CompState::Sink) => true,
            _ => false,
        }
    }

    fn dup(&self) -> (r: Self) {
        match self {
            CompState::Inner(a) => CompState::Inner(a.dup()),
            CompState::Sink => CompState::Sink,
        }
    }
}

/// The transitions of the inner automaton, and those of the missing pairs to the
/// sink.
fn with_sink<S: StateKey>(store: &mut SPPstore, ts: Vec<(SPP, S)>) -> (r: Vec<(SPP, CompState<S>)>)
    requires
        old(store).wf(),
        forall|i: int| 0 <= i < ts@.len() ==> old(store).has((#[trigger] ts@[i]).0),
    ensures
        final(store).wf(),
        final(store).extends(old(store)),
        forall|i: int|
            0 <= i < r@.len() ==> final(store).has((#[trigger] r@[i]).0) && match r@[i].1 {
                CompState::Inner(s) => exists|j: int|
                    0 <= j < ts@.len() && (#[trigger] ts@[j]).1.model() == s.model(),
                CompState::Sink => true,
            },
        forall|p: Pkt, m: CompState<S::M>, x: Pkt|
            #![trigger listed(*final(store), r@, p, m, x)]
            p.len() == old(store).n() && x.len() == old(store).n() ==> listed(
                *final(store),
                r@,
                p,
                m,
                x,
            ) == (match m {
                CompState::Inner(s) => listed(*old(store), ts@, p, s, x),
                CompState::Sink => !covered(*old(store), ts@, p, x),
            }),
{
    let ghost o = *store;
    let ghost n = o.n();
    let rest = missing(store, &ts);
    let ghost s1 = *store;
    let mut r: Vec<(SPP, CompState<S>)> = Vec::new();
    let mut i: usize = 0;
    while i < ts.len()
        invariant
            i <= ts@.len(),
            r@.len() == i,
            s1.extends(&o),
            forall|j: int| 0 <= j < ts@.len() ==> o.has((#[trigger] ts@[j]).0),
            forall|j: int|
                0 <= j < i ==> (#[trigger] r@[j]).0 == ts@[j].0 && r@[j].1.model()
                    == CompState::<S::M>::Inner(ts@[j].1.model()),
        decreases ts.len() - i,
    {
        r.push((ts[i].0, CompState::Inner(ts[i].1.dup())));
        i = i + 1;
    }
    let ghost r0 = r@;
    proof {
        s1.lemma_wf();
        s1.lemma_nonzero(rest);
        lemma_listed_ext(s1, o, ts@);
        assert forall|p: Pkt, m: CompState<S::M>, x: Pkt|
            p.len() == n && x.len() == n implies #[trigger] listed(s1, r0, p, m, x) == (match m {
            CompState::Inner(s) => listed(o, ts@, p, s, x),
            CompState::Sink => false,
        }) by {
            if listed(s1, r0, p, m, x) {
                let j = choose|j: int|
                    0 <= j < r0.len() && s1.rel((#[trigger] r0[j]).0, p, x) && r0[j].1.model()
                        == m;
                assert(s1.rel(ts@[j].0, p, x));
                assert(m == CompState::<S::M>::Inner(ts@[j].1.model()));
                assert(listed(s1, ts@, p, ts@[j].1.model(), x));
            }
            if let CompState::Inner(s) = m {
                if listed(s1, ts@, p, s, x) {
                    let j = choose|j: int|
                        0 <= j < ts@.len() && s1.rel((#[trigger] ts@[j]).0, p, x)
                            && ts@[j].1.model() == s;
                    assert(s1.rel(r0[j].0, p, x) && r0[j].1.model() == m);
                }
            }
        }
    }
    if rest != store.zero {
        r.push((rest, CompState::Sink));
    }
    proof {
        assert forall|p: Pkt, m: CompState<S::M>, x: Pkt|
            p.len() == n && x.len() == n implies #[trigger] listed(s1, r@, p, m, x) == (match m {
            CompState::Inner(s) => listed(o, ts@, p, s, x),
            CompState::Sink => !covered(o, ts@, p, x),
        }) by {
            assert(s1.rel(rest, p, x) == !covered(o, ts@, p, x));
            if r@.len() > r0.len() {
                let last = r@[r0.len() as int];
                assert(r@ =~= r0.push(last));
                lemma_listed_push(s1, r0, last, p, m, x);
            } else {
                assert(!s1.rel(rest, p, x));
            }
        }
        assert forall|j: int| 0 <= j < r@.len() implies s1.has((#[trigger] r@[j]).0) && match r@[j].1 {
            CompState::Inner(s) => exists|k: int|
                0 <= k < ts@.len() && (#[trigger] ts@[k]).1.model() == s.model(),
            CompState::Sink => true,
        } by {
            if j < r0.len() {
                assert(r@[j] == r0[j]);
                assert(ts@[j].1.model() == ts@[j].1.model());
                assert(r0[j].1.model() == CompState::<S::M>::Inner(ts@[j].1.model()));
            }
        }
    }
    r
}

/// The complement of a deterministic automaton.
///
/// Packets for which the inner automaton has no transition lead to a sink that
/// accepts everything.
#[derive(Clone)]
pub struct Complement<T: DFA> {
    pub inner: T,
}

/// The complement of a deterministic automaton.
pub fn complement<T: DFA>(inner: T) -> (r: Complement<T>)
    ensures
        r.inner == inner,
{
    Complement { inner }
}

/// Some transition of the automaton leads from `q` and `p` with packet `x`.
pub open spec fn stirs<T: ENFA>(a: &T, st: SPPstore, q: Place<T>, p: Pkt, x: Pkt) -> bool {
    exists|r: Place<T>| #[trigger] a.step(st, q, p, r, x)
}

/// The steps with a sink for the packets that have none.
pub open spec fn sink_step<T: ENFA>(
    a: &T,
    st: SPPstore,
    q: CompState<Place<T>>,
    p: Pkt,
    r: CompState<Place<T>>,
    x: Pkt,
) -> bool {
    match (q, r) {
        (CompState::Inner(s), CompState::Inner(t)) => a.step(st, s, p, t, x),
        (CompState::Inner(s), CompState::Sink) => !stirs(a, st, s, p, x),
        (CompState::Sink, CompState::Inner(t)) => false,
        (CompState::Sink, CompState::Sink) => true,
    }
}

/// The states of the automaton, and the sink.
pub open spec fn sink_state<T: ENFA>(a: &T, q: CompState<Place<T>>) -> bool {
    match q {
        CompState::Inner(s) => a.is_state(s),
        CompState::Sink => true,
    }
}

proof fn lemma_sink_valid<T: ENFA>(a: &T, st: SPPstore, o: SPPstore)
    requires
        o.wf(),
        st.extends(&o),
        a.valid(o),
    ensures
        forall|q: CompState<Place<T>>, p: Pkt, r: CompState<Place<T>>, x: Pkt|
            #![trigger sink_step(a, st, q, p, r, x)]
            #![trigger sink_step(a, o, q, p, r, x)]
            sink_state(a, q) && p.len() == o.n() && x.len() == o.n() ==> sink_step(
                a,
                st,
                q,
                p,
                r,
                x,
            ) == sink_step(a, o, q, p, r, x),
{
    a.lemma_valid(st, o);
    assert forall|q: CompState<Place<T>>, p: Pkt, r: CompState<Place<T>>, x: Pkt|
        #![trigger sink_step(a, st, q, p, r, x)]
        #![trigger sink_step(a, o, q, p, r, x)]
        sink_state(a, q) && p.len() == o.n() && x.len() == o.n() implies sink_step(
        a,
        st,
        q,
        p,
        r,
        x,
    ) == sink_step(a, o, q, p, r, x) by {
        if let CompState::Inner(s) = q {
            if stirs(a, st, s, p, x) {
                let t = choose|t: Place<T>| #[trigger] a.step(st, s, p, t, x);
                assert(a.step(o, s, p, t, x));
            }
            if stirs(a, o, s, p, x) {
                let t = choose|t: Place<T>| #[trigger] a.step(o, s, p, t, x);
                assert(a.step(st, s, p, t, x));
            }
        }
    }
}

/// The transitions with a sink.
fn sink_transitions<T: ENFA>(a: &T, store: &mut SPPstore, q: &CompState<T::State>) -> (r: Vec<
    (SPP, CompState<T::State>),
>)
    requires
        old(store).wf(),
        a.valid(*old(store)),
        sink_state(a, q.model()),
    ensures
        final(store).wf(),
        final(store).extends(old(store)),
        forall|i: int|
            0 <= i < r@.len() ==> final(store).has((#[trigger] r@[i]).0) && sink_state(
                a,
                r@[i].1.model(),
            ),
        forall|p: Pkt, m: CompState<Place<T>>, x: Pkt|
            #![trigger sink_step(a, *old(store), q.model(), p, m, x)]
            #![trigger listed(*final(store), r@, p, m, x)]
            p.len() == old(store).n() && x.len() == old(store).n() ==> sink_step(
                a,
                *old(store),
                q.model(),
                p,
                m,
                x,
            ) == listed(*final(store), r@, p, m, x),
{
    let ghost o = *store;
    let ghost n = o.n();
    match q {
        CompState::Inner(s) => {
            let ts = a.transitions(store, s);
            let ghost s1 = *store;
            let r = with_sink(store, ts);
            proof {
                assert forall|p: Pkt, m: CompState<Place<T>>, x: Pkt|
                    #![trigger sink_step(a, o, q.model(), p, m, x)]
                    #![trigger listed(*store, r@, p, m, x)]
                    p.len() == n && x.len() == n implies sink_step(a, o, q.model(), p, m, x)
                    == listed(*store, r@, p, m, x) by {
                    let z = s.model();
                    assert(q.model() == CompState::<Place<T>>::Inner(z));
                    if stirs(a, o, z, p, x) {
                        let t = choose|t: Place<T>| #[trigger] a.step(o, z, p, t, x);
                        assert(listed(s1, ts@, p, t, x));
                    }
                    if covered(s1, ts@, p, x) {
                        let t = choose|t: Place<T>| #[trigger] listed(s1, ts@, p, t, x);
                        assert(a.step(o, z, p, t, x));
                    }
                }
                assert forall|i: int| 0 <= i < r@.len() implies store.has((#[trigger] r@[i]).0)
                    && sink_state(a, r@[i].1.model()) by {
                    if let CompState::Inner(t) = r@[i].1 {
                        let j = choose|j: int|
                            0 <= j < ts@.len() && (#[trigger] ts@[j]).1.model() == t.model();
                        assert(a.is_state(ts@[j].1.model()));
                    }
                }
            }
            r
        },
        CompState::Sink => {
            proof {
                o.lemma_wf();
            }
            let mut r: Vec<(SPP, CompState<T::State>)> = Vec::new();
            r.push((store.top, CompState::Sink));
            proof {
                assert forall|p: Pkt, m: CompState<Place<T>>, x: Pkt|
                    #![trigger sink_step(a, o, q.model(), p, m, x)]
                    #![trigger listed(*store, r@, p, m, x)]
                    p.len() == n && x.len() == n implies sink_step(a, o, q.model(), p, m, x)
                    == listed(*store, r@, p, m, x) by {
                    assert(o.rel(r@[0].0, p, x));
                    if m == CompState::<Place<T>>::Sink {
                        assert(r@[0].1.model() == m);
                    }
                }
            }
            r
        },
    }
}

impl<T: DFA> ENFA for Complement<T> {
    type State = CompState<T::State>;

    open spec fn valid(&self, st: SPPstore) -> bool {
        self.inner.valid(st)
    }

    open spec fn is_state(&self, q: CompState<Place<T>>) -> bool {
        sink_state(&self.inner, q)
    }

    open spec fn init(&self) -> CompState<Place<T>> {
        CompState::Inner(self.inner.init())
    }

    open spec fn vis(&self, q: CompState<Place<T>>) -> bool {
        true
    }

    open spec fn step(
        &self,
        st: SPPstore,
        q: CompState<Place<T>>,
        p: Pkt,
        r: CompState<Place<T>>,
        x: Pkt,
    ) -> bool {
        sink_step(&self.inner, st, q, p, r, x)
    }

    open spec fn out(&self, st: SPPstore, q: CompState<Place<T>>, p: Pkt, x: Pkt) -> bool {
        match q {
            CompState::Inner(s) => !self.inner.out(st, s, p, x),
            CompState::Sink => true,
        }
    }

    proof fn lemma_valid(&self, st: SPPstore, o: SPPstore) {
        self.inner.lemma_valid(st, o);
        lemma_sink_valid(&self.inner, st, o);
    }

    proof fn lemma_states(&self, st: SPPstore) {
        self.inner.lemma_states(st);
    }

    fn start(&self, store: &mut SPPstore) -> (q: CompState<T::State>) {
        let s = self.inner.start(store);
        let q = CompState::Inner(s);
        proof {
            assert(q.model() == CompState::<Place<T>>::Inner(self.inner.init()));
        }
        q
    }

    fn is_visible(&self, store: &mut SPPstore, q: &CompState<T::State>) -> (b: bool) {
        true
    }

    fn transitions(&self, store: &mut SPPstore, q: &CompState<T::State>) -> (ts: Vec<
        (SPP, CompState<T::State>),
    >) {
        sink_transitions(&self.inner, store, q)
    }

    fn output(&self, store: &mut SPPstore, q: &CompState<T::State>) -> (y: SPP) {
        match q {
            CompState::Inner(s) => {
                let inner_out = self.inner.output(store, s);
                let ghost s1 = *store;
                let y = store.complement(inner_out);
                proof {
                    assert forall|p: Pkt, x: Pkt|
                        #![trigger self.out(*old(store), q.model(), p, x)]
                        #![trigger store.rel(y, p, x)]
                        p.len() == s1.n() && x.len() == s1.n() implies self.out(
                        *old(store),
                        q.model(),
                        p,
                        x,
                    ) == store.rel(y, p, x) by {
                        assert(self.inner.out(*old(store), s.model(), p, x) == s1.rel(
                            inner_out,
                            p,
                            x,
                        ));
                    }
                }
                y
            },
            CompState::Sink => {
                proof {
                    store.lemma_wf();
                }
                store.top
            },
        }
    }
}

impl<T: DFA> NFA for Complement<T> {
    proof fn lemma_visible(&self) {
    }
}

/// With a sink, packets lead from a state to one state.
proof fn lemma_sink_deterministic<T: DFA>(a: &T, st: SPPstore)
    requires
        st.wf(),
        a.valid(st),
    ensures
        forall|
            q: CompState<Place<T>>,
            p: Pkt,
            r: CompState<Place<T>>,
            s: CompState<Place<T>>,
            x: Pkt,
        |
            #![trigger sink_step(a, st, q, p, r, x), sink_step(a, st, q, p, s, x)]
            sink_state(a, q) && p.len() == st.n() && x.len() == st.n() && sink_step(
                a,
                st,
                q,
                p,
                r,
                x,
            ) && sink_step(a, st, q, p, s, x) ==> r == s,
{
    a.lemma_deterministic(st);
    assert forall|
        q: CompState<Place<T>>,
        p: Pkt,
        r: CompState<Place<T>>,
        s: CompState<Place<T>>,
        x: Pkt,
    |
        #![trigger sink_step(a, st, q, p, r, x), sink_step(a, st, q, p, s, x)]
        sink_state(a, q) && p.len() == st.n() && x.len() == st.n() && sink_step(
            a,
            st,
            q,
            p,
            r,
            x,
        ) && sink_step(a, st, q, p, s, x) implies r == s by {
        if let CompState::Inner(z) = q {
            if let CompState::Inner(t) = r {
                assert(a.step(st, z, p, t, x));
                assert(stirs(a, st, z, p, x));
                if let CompState::Inner(u) = s {
                    assert(a.step(st, z, p, u, x));
                }
            } else if let CompState::Inner(u) = s {
                assert(a.step(st, z, p, u, x));
                assert(stirs(a, st, z, p, x));
            }
        }
    }
}

impl<T: DFA> DFA for Complement<T> {
    proof fn lemma_deterministic(&self, st: SPPstore) {
        lemma_sink_deterministic(&self.inner, st);
        assert forall|
            q: CompState<Place<T>>,
            p: Pkt,
            r: CompState<Place<T>>,
            s: CompState<Place<T>>,
            x: Pkt,
        |
            #![trigger self.step(st, q, p, r, x), self.step(st, q, p, s, x)]
            self.is_state(q) && p.len() == st.n() && x.len() == st.n() && self.step(
                st,
                q,
                p,
                r,
                x,
            ) && self.step(st, q, p, s, x) implies r == s by {
            assert(sink_step(&self.inner, st, q, p, r, x));
            assert(sink_step(&self.inner, st, q, p, s, x));
        }
    }
}

proof fn lemma_complement<T: DFA>(a: &Complement<T>, st: SPPstore, q: CompState<Place<T>>, w: Word)
    requires
        st.wf(),
        a.valid(st),
        a.is_state(q),
        is_word(st.n(), w),
    ensures
        nfa_word(a, st, q, w) == (match q {
            CompState::Inner(s) => !nfa_word(&a.inner, st, s, w),
            CompState::Sink => true,
        }),
    decreases w.len(),
{
    if w.len() >= 3 {
        lemma_tail(st.n(), w, 1);
        assert(w[0].len() == st.n() && w[1].len() == st.n());
        a.inner.lemma_states(st);
        a.inner.lemma_deterministic(st);
        let v = w.skip(1);
        lemma_complement(a, st, CompState::Sink, v);
        match q {
            CompState::Inner(s) => {
                if stirs(&a.inner, st, s, w[0], w[1]) {
                    let t = choose|t: Place<T>| #[trigger] a.inner.step(st, s, w[0], t, w[1]);
                    lemma_complement(a, st, CompState::Inner(t), v);
                    assert(a.step(st, q, w[0], CompState::Inner(t), w[1]));
                    if nfa_word(a, st, q, w) {
                        let m = choose|m: CompState<Place<T>>| #[trigger]
                            a.step(st, q, w[0], m, w[1]) && nfa_word(a, st, m, v);
                        assert(m == CompState::<Place<T>>::Inner(t));
                    }
                    if nfa_word(&a.inner, st, s, w) {
                        let u = choose|u: Place<T>| #[trigger]
                            a.inner.step(st, s, w[0], u, w[1]) && nfa_word(&a.inner, st, u, v);
                        assert(u == t);
                    }
                } else {
                    assert(a.step(st, q, w[0], CompState::Sink, w[1]));
                    if nfa_word(&a.inner, st, s, w) {
                        let u = choose|u: Place<T>| #[trigger]
                            a.inner.step(st, s, w[0], u, w[1]) && nfa_word(&a.inner, st, u, v);
                        assert(stirs(&a.inner, st, s, w[0], w[1]));
                    }
                }
            },
            CompState::Sink => {
                assert(a.step(st, q, w[0], CompState::Sink, w[1]));
            },
        }
    }
}

/// The complement accepts exactly the words that the automaton does not.
pub proof fn law_complement<T: DFA>(a: &Complement<T>, st: SPPstore, w: Word)
    requires
        st.wf(),
        a.valid(st),
        is_word(st.n(), w),
    ensures
        enfa_lang(a, st)(w) == !enfa_lang(&a.inner, st)(w),
{
    a.inner.lemma_visible();
    a.inner.lemma_states(st);
    lemma_nfa_word(a, st, a.init(), w);
    lemma_nfa_word(&a.inner, st, a.inner.init(), w);
    lemma_complement(a, st, a.init(), w);
}

// ---- sink --------------------------------------------------------------------------------

/// A state of the inner automaton, or a sink.
pub type SinkOr<S> = CompState<S>;

/// A deterministic automaton made total: packets for which the inner automaton
/// has no transition lead to a sink that accepts nothing.
#[derive(Clone)]
pub struct WithSinkState<T>(pub T);

impl<T: DFA> ENFA for WithSinkState<T> {
    type State = SinkOr<T::State>;

    open spec fn valid(&self, st: SPPstore) -> bool {
        self.0.valid(st)
    }

    open spec fn is_state(&self, q: SinkOr<Place<T>>) -> bool {
        sink_state(&self.0, q)
    }

    open spec fn init(&self) -> SinkOr<Place<T>> {
        CompState::Inner(self.0.init())
    }

    open spec fn vis(&self, q: SinkOr<Place<T>>) -> bool {
        true
    }

    open spec fn step(
        &self,
        st: SPPstore,
        q: SinkOr<Place<T>>,
        p: Pkt,
        r: SinkOr<Place<T>>,
        x: Pkt,
    ) -> bool {
        sink_step(&self.0, st, q, p, r, x)
    }

    open spec fn out(&self, st: SPPstore, q: SinkOr<Place<T>>, p: Pkt, x: Pkt) -> bool {
        match q {
            CompState::Inner(s) => self.0.out(st, s, p, x),
            CompState::Sink => false,
        }
    }

    proof fn lemma_valid(&self, st: SPPstore, o: SPPstore) {
        self.0.lemma_valid(st, o);
        lemma_sink_valid(&self.0, st, o);
    }

    proof fn lemma_states(&self, st: SPPstore) {
        self.0.lemma_states(st);
    }

    fn start(&self, store: &mut SPPstore) -> (q: SinkOr<T::State>) {
        let s = self.0.start(store);
        let q = CompState::Inner(s);
        proof {
            assert(q.model() == CompState::<Place<T>>::Inner(self.0.init()));
        }
        q
    }

    fn is_visible(&self, store: &mut SPPstore, q: &SinkOr<T::State>) -> (b: bool) {
        true
    }

    fn transitions(&self, store: &mut SPPstore, q: &SinkOr<T::State>) -> (ts: Vec<
        (SPP, SinkOr<T::State>),
    >) {
        sink_transitions(&self.0, store, q)
    }

    fn output(&self, store: &mut SPPstore, q: &SinkOr<T::State>) -> (y: SPP) {
        match q {
            CompState::Inner(s) => {
                let y = self.0.output(store, s);
                proof {
                    assert forall|p: Pkt, x: Pkt|
                        #![trigger self.out(*old(store), q.model(), p, x)]
                        #![trigger store.rel(y, p, x)]
                        p.len() == old(store).n() && x.len() == old(store).n() implies self.out(
                        *old(store),
                        q.model(),
                        p,
                        x,
                    ) == store.rel(y, p, x) by {
                        assert(self.0.out(*old(store), s.model(), p, x) == store.rel(y, p, x));
                    }
                }
                y
            },
            CompState::Sink => {
                proof {
                    store.lemma_wf();
                }
                store.zero
            },
        }
    }
}

impl<T: DFA> NFA for WithSinkState<T> {
    proof fn lemma_visible(&self) {
    }
}

impl<T: DFA> DFA for WithSinkState<T> {
    proof fn lemma_deterministic(&self, st: SPPstore) {
        lemma_sink_deterministic(&self.0, st);
        assert forall|
            q: SinkOr<Place<T>>,
            p: Pkt,
            r: SinkOr<Place<T>>,
            s: SinkOr<Place<T>>,
            x: Pkt,
        |
            #![trigger self.step(st, q, p, r, x), self.step(st, q, p, s, x)]
            self.is_state(q) && p.len() == st.n() && x.len() == st.n() && self.step(
                st,
                q,
                p,
                r,
                x,
            ) && self.step(st, q, p, s, x) implies r == s by {
            assert(sink_step(&self.0, st, q, p, r, x));
            assert(sink_step(&self.0, st, q, p, s, x));
        }
    }
}

proof fn lemma_with_sink<T: DFA>(
    a: &WithSinkState<T>,
    st: SPPstore,
    q: SinkOr<Place<T>>,
    w: Word,
)
    requires
        is_word(st.n(), w),
    ensures
        nfa_word(a, st, q, w) == (match q {
            CompState::Inner(s) => nfa_word(&a.0, st, s, w),
            CompState::Sink => false,
        }),
    decreases w.len(),
{
    if w.len() >= 3 {
        lemma_tail(st.n(), w, 1);
        let v = w.skip(1);
        if nfa_word(a, st, q, w) {
            let m = choose|m: SinkOr<Place<T>>| #[trigger]
                a.step(st, q, w[0], m, w[1]) && nfa_word(a, st, m, v);
            lemma_with_sink(a, st, m, v);
            if let CompState::Inner(s) = q {
                if let CompState::Inner(t) = m {
                    assert(a.0.step(st, s, w[0], t, w[1]) && nfa_word(&a.0, st, t, v));
                }
            }
        }
        if let CompState::Inner(s) = q {
            if nfa_word(&a.0, st, s, w) {
                let t = choose|t: Place<T>| #[trigger]
                    a.0.step(st, s, w[0], t, w[1]) && nfa_word(&a.0, st, t, v);
                lemma_with_sink(a, st, CompState::Inner(t), v);
                assert(a.step(st, q, w[0], CompState::Inner(t), w[1]));
            }
        }
    }
}

/// Adding a sink keeps the words.
pub proof fn law_with_sink_state<T: DFA>(a: &WithSinkState<T>, st: SPPstore, w: Word)
    requires
        is_word(st.n(), w),
    ensures
        enfa_lang(a, st)(w) == enfa_lang(&a.0, st)(w),
{
    a.0.lemma_visible();
    lemma_nfa_word(a, st, a.init(), w);
    lemma_nfa_word(&a.0, st, a.0.init(), w);
    lemma_with_sink(a, st, a.init(), w);
}

/// With a sink, an automaton is total.
pub proof fn law_sink_total<T: DFA>(a: &WithSinkState<T>, st: SPPstore)
    ensures
        total(a, st),
{
    assert forall|q: SinkOr<Place<T>>, p: Pkt, x: Pkt|
        a.is_state(q) && p.len() == st.n() && x.len() == st.n() implies #[trigger] moves_on(
        a,
        st,
        q,
        p,
        x,
    ) by {
        law_total(a, st, q, p, x);
    }
}

/// With a sink, every packet leads on from every state.
pub proof fn law_total<T: DFA>(
    a: &WithSinkState<T>,
    st: SPPstore,
    q: SinkOr<Place<T>>,
    p: Pkt,
    x: Pkt,
)
    ensures
        exists|r: SinkOr<Place<T>>| #[trigger] a.step(st, q, p, r, x),
{
    match q {
        CompState::Inner(s) => {
            if stirs(&a.0, st, s, p, x) {
                let t = choose|t: Place<T>| #[trigger] a.0.step(st, s, p, t, x);
                assert(a.step(st, q, p, CompState::Inner(t), x));
            } else {
                assert(a.step(st, q, p, CompState::Sink, x));
            }
        },
        CompState::Sink => {
            assert(a.step(st, q, p, CompState::Sink, x));
        },
    }
}

// ---- union ---------------------------------------------------------------------------------

/// A fresh start, or a state of either side.
#[derive(Debug, Clone, PartialEq, Eq, PartialOrd, Ord, Hash)]
pub enum UnionState<L, R> {
    /// The start.
    Start,
    /// A state of the left side.
    Left(L),
    /// A state of the right side.
    Right(R),
}

impl<L: StateKey, R: StateKey> StateKey for UnionState<L, R> {
    type M = UnionState<L::M, R::M>;

    open spec fn model(&self) -> UnionState<L::M, R::M> {
        match *self {
            UnionState::Start => UnionState::Start,
            UnionState::Left(s) => UnionState::Left(s.model()),
            UnionState::Right(s) => UnionState::Right(s.model()),
        }
    }

    fn same(&self, o: &Self) -> (r: bool) {
        match (self, o) {
            (UnionState::Start, UnionState::Start) => true,
            (UnionState::Left(a), UnionState::Left(b)) => a.same(b),
            (UnionState::Right(a), UnionState::Right(b)) => a.same(b),
            _ => false,
        }
    }

    fn dup(&self) -> (r: Self) {
        match self {
            UnionState::Start => UnionState::Start,
            UnionState::Left(a) => UnionState::Left(a.dup()),
            UnionState::Right(a) => UnionState::Right(a.dup()),
        }
    }
}

/// The union of two automata: a fresh start has the transitions and outputs of
/// both starts.
#[derive(Clone)]
pub struct Union<A: NFA, B: NFA> {
    pub left: A,
    pub right: B,
}

/// The union of two automata.
pub fn union<A: NFA, B: NFA>(left: A, right: B) -> (r: Union<A, B>)
    ensures
        r.left == left,
        r.right == right,
{
    Union { left, right }
}

/// Adds the transitions of the left side.
fn add_left<L: StateKey, R: StateKey>(
    ts: &Vec<(SPP, L)>,
    r: &mut Vec<(SPP, UnionState<L, R>)>,
    Ghost(st): Ghost<SPPstore>,
)
    ensures
        forall|p: Pkt, m: UnionState<L::M, R::M>, x: Pkt| #[trigger]
            listed(st, final(r)@, p, m, x) <==> listed(st, old(r)@, p, m, x) || (m matches
                UnionState::Left(s) && listed(st, ts@, p, s, x)),
        forall|ok: spec_fn(UnionState<L::M, R::M>) -> bool|
            list_ok(st, old(r)@, ok) && list_ok(st, ts@, |s: L::M| ok(UnionState::Left(s)))
                ==> #[trigger] list_ok(st, final(r)@, ok),
{
    let ghost r0 = r@;
    let mut i: usize = 0;
    while i < ts.len()
        invariant
            i <= ts@.len(),
            forall|p: Pkt, m: UnionState<L::M, R::M>, x: Pkt| #[trigger]
                listed(st, r@, p, m, x) <==> listed(st, r0, p, m, x) || (m matches
                    UnionState::Left(s) && listed(st, ts@.take(i as int), p, s, x)),
            forall|ok: spec_fn(UnionState<L::M, R::M>) -> bool|
                list_ok(st, r0, ok) && list_ok(st, ts@, |s: L::M| ok(UnionState::Left(s)))
                    ==> #[trigger] list_ok(st, r@, ok),
        decreases ts.len() - i,
    {
        let ghost r1 = r@;
        let ghost t = ts@[i as int];
        let q: UnionState<L, R> = UnionState::Left(ts[i].1.dup());
        r.push((ts[i].0, q));
        proof {
            let e = (t.0, q);
            assert(r@ =~= r1.push(e));
            assert(q.model() == UnionState::<L::M, R::M>::Left(t.1.model()));
            assert(ts@.take(i + 1) =~= ts@.take(i as int).push(t));
            assert forall|p: Pkt, m: UnionState<L::M, R::M>, x: Pkt| #[trigger]
                listed(st, r@, p, m, x) <==> listed(st, r0, p, m, x) || (m matches
                    UnionState::Left(s) && listed(st, ts@.take(i + 1), p, s, x)) by {
                lemma_listed_push(st, r1, e, p, m, x);
                if let UnionState::Left(s) = m {
                    lemma_listed_push(st, ts@.take(i as int), t, p, s, x);
                }
            }
            assert forall|ok: spec_fn(UnionState<L::M, R::M>) -> bool|
                list_ok(st, r0, ok) && list_ok(
                    st,
                    ts@,
                    |s: L::M| ok(UnionState::Left(s)),
                ) implies #[trigger] list_ok(st, r@, ok) by {
                assert(list_ok(st, r1, ok));
                let f = |s: L::M| ok(UnionState::Left(s));
                assert(st.has(ts@[i as int].0) && f(ts@[i as int].1.model()));
            }
        }
        i = i + 1;
    }
    proof {
        assert(ts@.take(i as int) =~= ts@);
    }
}

/// Adds the transitions of the right side.
fn add_right<L: StateKey, R: StateKey>(
    ts: &Vec<(SPP, R)>,
    r: &mut Vec<(SPP, UnionState<L, R>)>,
    Ghost(st): Ghost<SPPstore>,
)
    ensures
        forall|p: Pkt, m: UnionState<L::M, R::M>, x: Pkt| #[trigger]
            listed(st, final(r)@, p, m, x) <==> listed(st, old(r)@, p, m, x) || (m matches
                UnionState::Right(s) && listed(st, ts@, p, s, x)),
        forall|ok: spec_fn(UnionState<L::M, R::M>) -> bool|
            list_ok(st, old(r)@, ok) && list_ok(st, ts@, |s: R::M| ok(UnionState::Right(s)))
                ==> #[trigger] list_ok(st, final(r)@, ok),
{
    let ghost r0 = r@;
    let mut i: usize = 0;
    while i < ts.len()
        invariant
            i <= ts@.len(),
            forall|p: Pkt, m: UnionState<L::M, R::M>, x: Pkt| #[trigger]
                listed(st, r@, p, m, x) <==> listed(st, r0, p, m, x) || (m matches
                    UnionState::Right(s) && listed(st, ts@.take(i as int), p, s, x)),
            forall|ok: spec_fn(UnionState<L::M, R::M>) -> bool|
                list_ok(st, r0, ok) && list_ok(st, ts@, |s: R::M| ok(UnionState::Right(s)))
                    ==> #[trigger] list_ok(st, r@, ok),
        decreases ts.len() - i,
    {
        let ghost r1 = r@;
        let ghost t = ts@[i as int];
        let q: UnionState<L, R> = UnionState::Right(ts[i].1.dup());
        r.push((ts[i].0, q));
        proof {
            let e = (t.0, q);
            assert(r@ =~= r1.push(e));
            assert(q.model() == UnionState::<L::M, R::M>::Right(t.1.model()));
            assert(ts@.take(i + 1) =~= ts@.take(i as int).push(t));
            assert forall|p: Pkt, m: UnionState<L::M, R::M>, x: Pkt| #[trigger]
                listed(st, r@, p, m, x) <==> listed(st, r0, p, m, x) || (m matches
                    UnionState::Right(s) && listed(st, ts@.take(i + 1), p, s, x)) by {
                lemma_listed_push(st, r1, e, p, m, x);
                if let UnionState::Right(s) = m {
                    lemma_listed_push(st, ts@.take(i as int), t, p, s, x);
                }
            }
            assert forall|ok: spec_fn(UnionState<L::M, R::M>) -> bool|
                list_ok(st, r0, ok) && list_ok(
                    st,
                    ts@,
                    |s: R::M| ok(UnionState::Right(s)),
                ) implies #[trigger] list_ok(st, r@, ok) by {
                assert(list_ok(st, r1, ok));
                let f = |s: R::M| ok(UnionState::Right(s));
                assert(st.has(ts@[i as int].0) && f(ts@[i as int].1.model()));
            }
        }
        i = i + 1;
    }
    proof {
        assert(ts@.take(i as int) =~= ts@);
    }
}

/// The states of a union.
pub type UnionModel<A, B> = UnionState<Place<A>, Place<B>>;

impl<A: NFA, B: NFA> Union<A, B> {
    /// The predicate of the states, as a function.
    spec fn states(&self) -> spec_fn(UnionModel<A, B>) -> bool {
        |q: UnionModel<A, B>| self.is_state(q)
    }
}

impl<A: NFA, B: NFA> ENFA for Union<A, B> {
    type State = UnionState<A::State, B::State>;

    open spec fn valid(&self, st: SPPstore) -> bool {
        self.left.valid(st) && self.right.valid(st)
    }

    open spec fn is_state(&self, q: UnionModel<A, B>) -> bool {
        match q {
            UnionState::Start => true,
            UnionState::Left(s) => self.left.is_state(s),
            UnionState::Right(s) => self.right.is_state(s),
        }
    }

    open spec fn init(&self) -> UnionModel<A, B> {
        UnionState::Start
    }

    open spec fn vis(&self, q: UnionModel<A, B>) -> bool {
        match q {
            UnionState::Start => true,
            UnionState::Left(s) => self.left.vis(s),
            UnionState::Right(s) => self.right.vis(s),
        }
    }

    open spec fn step(
        &self,
        st: SPPstore,
        q: UnionModel<A, B>,
        p: Pkt,
        r: UnionModel<A, B>,
        x: Pkt,
    ) -> bool {
        match (q, r) {
            (UnionState::Start, UnionState::Left(t)) => self.left.step(
                st,
                self.left.init(),
                p,
                t,
                x,
            ),
            (UnionState::Start, UnionState::Right(t)) => self.right.step(
                st,
                self.right.init(),
                p,
                t,
                x,
            ),
            (UnionState::Left(s), UnionState::Left(t)) => self.left.step(st, s, p, t, x),
            (UnionState::Right(s), UnionState::Right(t)) => self.right.step(st, s, p, t, x),
            _ => false,
        }
    }

    open spec fn out(&self, st: SPPstore, q: UnionModel<A, B>, p: Pkt, x: Pkt) -> bool {
        match q {
            UnionState::Start => self.left.out(st, self.left.init(), p, x) || self.right.out(
                st,
                self.right.init(),
                p,
                x,
            ),
            UnionState::Left(s) => self.left.out(st, s, p, x),
            UnionState::Right(s) => self.right.out(st, s, p, x),
        }
    }

    proof fn lemma_valid(&self, st: SPPstore, o: SPPstore) {
        self.left.lemma_valid(st, o);
        self.right.lemma_valid(st, o);
        self.left.lemma_states(o);
        self.right.lemma_states(o);
    }

    proof fn lemma_states(&self, st: SPPstore) {
        self.left.lemma_states(st);
        self.right.lemma_states(st);
    }

    fn start(&self, store: &mut SPPstore) -> (q: UnionState<A::State, B::State>) {
        UnionState::Start
    }

    fn is_visible(&self, store: &mut SPPstore, q: &UnionState<A::State, B::State>) -> (b: bool) {
        match q {
            UnionState::Start => true,
            UnionState::Left(s) => self.left.is_visible(store, s),
            UnionState::Right(s) => self.right.is_visible(store, s),
        }
    }

    fn transitions(&self, store: &mut SPPstore, q: &UnionState<A::State, B::State>) -> (ts: Vec<
        (SPP, UnionState<A::State, B::State>),
    >) {
        let ghost o = *store;
        let ghost n = o.n();
        let mut r: Vec<(SPP, UnionState<A::State, B::State>)> = Vec::new();
        proof {
            self.left.lemma_states(o);
            self.right.lemma_states(o);
        }
        match q {
            UnionState::Start => {
                let l_start = self.left.start(store);
                let ghost s1 = *store;
                proof {
                    self.left.lemma_valid(s1, o);
                    self.right.lemma_valid(s1, o);
                }
                let r_start = self.right.start(store);
                let ghost s2 = *store;
                proof {
                    self.left.lemma_valid(s2, s1);
                    self.right.lemma_valid(s2, s1);
                }
                let lts = self.left.transitions(store, &l_start);
                let ghost s3 = *store;
                proof {
                    self.right.lemma_valid(s3, s2);
                }
                let rts = self.right.transitions(store, &r_start);
                let ghost s4 = *store;
                proof {
                    lemma_listed_ext(s4, s3, lts@);
                }
                add_left(&lts, &mut r, Ghost(s4));
                add_right(&rts, &mut r, Ghost(s4));
                proof {
                    let ok = self.states();
                    assert(list_ok(s4, lts@, |s: Place<A>| ok(UnionState::Left(s))));
                    assert(list_ok(s4, rts@, |s: Place<B>| ok(UnionState::Right(s))));
                    assert(list_ok(s4, r@, ok));
                    assert forall|p: Pkt, m: UnionModel<A, B>, x: Pkt|
                        #![trigger self.step(o, q.model(), p, m, x)]
                        #![trigger listed(s4, r@, p, m, x)]
                        p.len() == n && x.len() == n implies self.step(o, q.model(), p, m, x)
                        == listed(s4, r@, p, m, x) by {
                        match m {
                            UnionState::Left(t) => {
                                assert(self.left.step(s2, self.left.init(), p, t, x) == listed(
                                    s3,
                                    lts@,
                                    p,
                                    t,
                                    x,
                                ));
                                assert(self.left.step(s2, self.left.init(), p, t, x)
                                    == self.left.step(s1, self.left.init(), p, t, x));
                                assert(listed(s4, lts@, p, t, x) == listed(s3, lts@, p, t, x));
                            },
                            UnionState::Right(t) => {
                                assert(self.right.step(s3, self.right.init(), p, t, x) == listed(
                                    s4,
                                    rts@,
                                    p,
                                    t,
                                    x,
                                ));
                                assert(self.right.step(s3, self.right.init(), p, t, x)
                                    == self.right.step(s2, self.right.init(), p, t, x));
                                assert(self.right.step(s2, self.right.init(), p, t, x)
                                    == self.right.step(s1, self.right.init(), p, t, x));
                            },
                            UnionState::Start => {},
                        }
                    }
                }
            },
            UnionState::Left(s) => {
                let lts = self.left.transitions(store, s);
                let ghost s1 = *store;
                add_left(&lts, &mut r, Ghost(s1));
                proof {
                    let ok = self.states();
                    assert(list_ok(s1, lts@, |s: Place<A>| ok(UnionState::Left(s))));
                    assert(list_ok(s1, r@, ok));
                    assert forall|p: Pkt, m: UnionModel<A, B>, x: Pkt|
                        #![trigger self.step(o, q.model(), p, m, x)]
                        #![trigger listed(s1, r@, p, m, x)]
                        p.len() == n && x.len() == n implies self.step(o, q.model(), p, m, x)
                        == listed(s1, r@, p, m, x) by {
                        if let UnionState::Left(t) = m {
                            assert(self.left.step(o, s.model(), p, t, x) == listed(
                                s1,
                                lts@,
                                p,
                                t,
                                x,
                            ));
                        }
                    }
                }
            },
            UnionState::Right(s) => {
                let rts = self.right.transitions(store, s);
                let ghost s1 = *store;
                add_right(&rts, &mut r, Ghost(s1));
                proof {
                    let ok = self.states();
                    assert(list_ok(s1, rts@, |s: Place<B>| ok(UnionState::Right(s))));
                    assert(list_ok(s1, r@, ok));
                    assert forall|p: Pkt, m: UnionModel<A, B>, x: Pkt|
                        #![trigger self.step(o, q.model(), p, m, x)]
                        #![trigger listed(s1, r@, p, m, x)]
                        p.len() == n && x.len() == n implies self.step(o, q.model(), p, m, x)
                        == listed(s1, r@, p, m, x) by {
                        if let UnionState::Right(t) = m {
                            assert(self.right.step(o, s.model(), p, t, x) == listed(
                                s1,
                                rts@,
                                p,
                                t,
                                x,
                            ));
                        }
                    }
                }
            },
        }
        r
    }

    fn output(&self, store: &mut SPPstore, q: &UnionState<A::State, B::State>) -> (y: SPP) {
        let ghost o = *store;
        let ghost n = o.n();
        proof {
            self.left.lemma_states(o);
            self.right.lemma_states(o);
        }
        match q {
            UnionState::Start => {
                let l_start = self.left.start(store);
                let ghost s1 = *store;
                proof {
                    self.left.lemma_valid(s1, o);
                    self.right.lemma_valid(s1, o);
                }
                let r_start = self.right.start(store);
                let ghost s2 = *store;
                proof {
                    self.left.lemma_valid(s2, s1);
                    self.right.lemma_valid(s2, s1);
                }
                let l_out = self.left.output(store, &l_start);
                let ghost s3 = *store;
                proof {
                    self.right.lemma_valid(s3, s2);
                }
                let r_out = self.right.output(store, &r_start);
                let ghost s4 = *store;
                let y = store.union(l_out, r_out);
                proof {
                    assert forall|p: Pkt, x: Pkt|
                        #![trigger self.out(o, q.model(), p, x)]
                        #![trigger store.rel(y, p, x)]
                        p.len() == n && x.len() == n implies self.out(o, q.model(), p, x)
                        == store.rel(y, p, x) by {
                        let (a, b) = (self.left.init(), self.right.init());
                        assert(self.left.out(s2, a, p, x) == s3.rel(l_out, p, x));
                        assert(self.left.out(s2, a, p, x) == self.left.out(s1, a, p, x));
                        assert(s4.rel(l_out, p, x) == s3.rel(l_out, p, x));
                        assert(self.right.out(s3, b, p, x) == s4.rel(r_out, p, x));
                        assert(self.right.out(s3, b, p, x) == self.right.out(s2, b, p, x));
                        assert(self.right.out(s2, b, p, x) == self.right.out(s1, b, p, x));
                    }
                }
                y
            },
            UnionState::Left(s) => {
                let y = self.left.output(store, s);
                proof {
                    assert forall|p: Pkt, x: Pkt|
                        #![trigger self.out(o, q.model(), p, x)]
                        #![trigger store.rel(y, p, x)]
                        p.len() == n && x.len() == n implies self.out(o, q.model(), p, x)
                        == store.rel(y, p, x) by {
                        assert(self.left.out(o, s.model(), p, x) == store.rel(y, p, x));
                    }
                }
                y
            },
            UnionState::Right(s) => {
                let y = self.right.output(store, s);
                proof {
                    assert forall|p: Pkt, x: Pkt|
                        #![trigger self.out(o, q.model(), p, x)]
                        #![trigger store.rel(y, p, x)]
                        p.len() == n && x.len() == n implies self.out(o, q.model(), p, x)
                        == store.rel(y, p, x) by {
                        assert(self.right.out(o, s.model(), p, x) == store.rel(y, p, x));
                    }
                }
                y
            },
        }
    }
}

impl<A: NFA, B: NFA> NFA for Union<A, B> {
    proof fn lemma_visible(&self) {
        self.left.lemma_visible();
        self.right.lemma_visible();
    }
}

proof fn lemma_union_side<A: NFA, B: NFA>(
    a: &Union<A, B>,
    st: SPPstore,
    q: UnionModel<A, B>,
    w: Word,
)
    requires
        is_word(st.n(), w),
    ensures
        nfa_word(a, st, q, w) == (match q {
            UnionState::Start => nfa_word(&a.left, st, a.left.init(), w) || nfa_word(
                &a.right,
                st,
                a.right.init(),
                w,
            ),
            UnionState::Left(s) => nfa_word(&a.left, st, s, w),
            UnionState::Right(s) => nfa_word(&a.right, st, s, w),
        }),
    decreases w.len(),
{
    if w.len() >= 3 {
        lemma_tail(st.n(), w, 1);
        let v = w.skip(1);
        assert forall|t: Place<A>| #[trigger]
            nfa_word(a, st, UnionState::Left(t), v) == nfa_word(&a.left, st, t, v) by {
            lemma_union_side(a, st, UnionState::Left(t), v);
        }
        assert forall|t: Place<B>| #[trigger]
            nfa_word(a, st, UnionState::Right(t), v) == nfa_word(&a.right, st, t, v) by {
            lemma_union_side(a, st, UnionState::Right(t), v);
        }
        let ls = match q {
            UnionState::Left(s) => s,
            _ => a.left.init(),
        };
        let rs = match q {
            UnionState::Right(s) => s,
            _ => a.right.init(),
        };
        if nfa_word(a, st, q, w) {
            let m = choose|m: UnionModel<A, B>| #[trigger]
                a.step(st, q, w[0], m, w[1]) && nfa_word(a, st, m, v);
            match m {
                UnionState::Left(t) => {
                    assert(a.left.step(st, ls, w[0], t, w[1]) && nfa_word(&a.left, st, t, v));
                },
                UnionState::Right(t) => {
                    assert(a.right.step(st, rs, w[0], t, w[1]) && nfa_word(&a.right, st, t, v));
                },
                UnionState::Start => {},
            }
        }
        if !(q is Right) && nfa_word(&a.left, st, ls, w) {
            let t = choose|t: Place<A>| #[trigger]
                a.left.step(st, ls, w[0], t, w[1]) && nfa_word(&a.left, st, t, v);
            assert(nfa_word(a, st, UnionState::Left(t), v));
            assert(a.step(st, q, w[0], UnionState::Left(t), w[1]));
        }
        if !(q is Left) && nfa_word(&a.right, st, rs, w) {
            let t = choose|t: Place<B>| #[trigger]
                a.right.step(st, rs, w[0], t, w[1]) && nfa_word(&a.right, st, t, v);
            assert(nfa_word(a, st, UnionState::Right(t), v));
            assert(a.step(st, q, w[0], UnionState::Right(t), w[1]));
        }
    }
}

/// The union accepts the words of both sides.
pub proof fn law_union<A: NFA, B: NFA>(a: &Union<A, B>, st: SPPstore, w: Word)
    requires
        is_word(st.n(), w),
    ensures
        enfa_lang(a, st)(w) <==> enfa_lang(&a.left, st)(w) || enfa_lang(&a.right, st)(w),
{
    a.lemma_visible();
    a.left.lemma_visible();
    a.right.lemma_visible();
    lemma_nfa_word(a, st, a.init(), w);
    lemma_nfa_word(&a.left, st, a.left.init(), w);
    lemma_nfa_word(&a.right, st, a.right.init(), w);
    lemma_union_side(a, st, a.init(), w);
}

// ---- intersection ------------------------------------------------------------------------------

/// The pair is made of states of both lists.
pub open spec fn pair_of<L: StateKey, R: StateKey>(
    ls: Seq<(SPP, L)>,
    rs: Seq<(SPP, R)>,
    m: (L::M, R::M),
) -> bool {
    exists|j: int, k: int|
        0 <= j < ls.len() && 0 <= k < rs.len() && m == (
            (#[trigger] ls[j]).1.model(),
            (#[trigger] rs[k]).1.model(),
        )
}

/// The pairs of transitions of both lists with a common pair of packets.
fn paired<L: StateKey, R: StateKey>(
    store: &mut SPPstore,
    ls: &Vec<(SPP, L)>,
    rs: &Vec<(SPP, R)>,
) -> (r: Vec<(SPP, (L, R))>)
    requires
        old(store).wf(),
        forall|i: int| 0 <= i < ls@.len() ==> old(store).has((#[trigger] ls@[i]).0),
        forall|i: int| 0 <= i < rs@.len() ==> old(store).has((#[trigger] rs@[i]).0),
    ensures
        final(store).wf(),
        final(store).extends(old(store)),
        forall|i: int| 0 <= i < r@.len() ==> (#[trigger] r@[i]).0 != final(store).zero,
        forall|i: int|
            0 <= i < r@.len() ==> final(store).has((#[trigger] r@[i]).0) && pair_of(ls@, rs@, r@[i].1.model()),
        forall|p: Pkt, m: (L::M, R::M), x: Pkt|
            #![trigger listed(*final(store), r@, p, m, x)]
            p.len() == old(store).n() && x.len() == old(store).n() ==> (listed(
                *final(store),
                r@,
                p,
                m,
                x,
            ) <==> listed(*old(store), ls@, p, m.0, x) && listed(*old(store), rs@, p, m.1, x)),
{
    let ghost o = *store;
    let ghost n = o.n();
    let mut r: Vec<(SPP, (L, R))> = Vec::new();
    let mut i: usize = 0;
    while i < ls.len()
        invariant
            store.wf(),
            store.extends(&o),
            o.wf(),
            n == o.n(),
            i <= ls@.len(),
            forall|h: int| 0 <= h < r@.len() ==> (#[trigger] r@[h]).0 != store.zero,
            forall|j: int| 0 <= j < ls@.len() ==> o.has((#[trigger] ls@[j]).0),
            forall|j: int| 0 <= j < rs@.len() ==> o.has((#[trigger] rs@[j]).0),
            forall|h: int|
                0 <= h < r@.len() ==> store.has((#[trigger] r@[h]).0) && pair_of(ls@, rs@, r@[h].1.model()),
            forall|p: Pkt, m: (L::M, R::M), x: Pkt|
                #![trigger listed(*store, r@, p, m, x)]
                p.len() == n && x.len() == n ==> (listed(*store, r@, p, m, x) <==> listed(
                    o,
                    ls@.take(i as int),
                    p,
                    m.0,
                    x,
                ) && listed(o, rs@, p, m.1, x)),
        decreases ls.len() - i,
    {
        let ghost s0 = *store;
        let ghost r0 = r@;
        let ghost t = ls@[i as int];
        let mut j: usize = 0;
        while j < rs.len()
            invariant
                store.wf(),
                store.extends(&s0),
                s0.wf(),
                s0.extends(&o),
                o.wf(),
                n == o.n(),
                i < ls@.len(),
                t == ls@[i as int],
                j <= rs@.len(),
                forall|h: int| 0 <= h < r@.len() ==> (#[trigger] r@[h]).0 != store.zero,
                forall|k: int| 0 <= k < ls@.len() ==> o.has((#[trigger] ls@[k]).0),
                forall|k: int| 0 <= k < rs@.len() ==> o.has((#[trigger] rs@[k]).0),
                forall|h: int|
                    0 <= h < r@.len() ==> store.has((#[trigger] r@[h]).0) && pair_of(ls@, rs@, r@[h].1.model()),
                forall|p: Pkt, m: (L::M, R::M), x: Pkt|
                    #![trigger listed(*store, r@, p, m, x)]
                    p.len() == n && x.len() == n ==> (listed(*store, r@, p, m, x) <==> listed(
                        s0,
                        r0,
                        p,
                        m,
                        x,
                    ) || (o.rel(t.0, p, x) && t.1.model() == m.0 && listed(
                        o,
                        rs@.take(j as int),
                        p,
                        m.1,
                        x,
                    ))),
            decreases rs.len() - j,
        {
            let ghost s1 = *store;
            let ghost r1 = r@;
            let ghost u = rs@[j as int];
            proof {
                assert(o.has(ls@[i as int].0) && o.has(rs@[j as int].0));
                assert(rs@.take(j + 1) =~= rs@.take(j as int).push(u));
            }
            let combined = store.intersect(ls[i].0, rs[j].0);
            let ghost s2 = *store;
            proof {
                lemma_listed_ext(s2, s1, r1);
                s2.lemma_wf();
                s2.lemma_nonzero(combined);
            }
            let ghost nonzero = combined != store.zero;
            if combined != store.zero {
                r.push((combined, (ls[i].1.dup(), rs[j].1.dup())));
            }
            proof {
                if nonzero {
                    assert(r@ =~= r1.push(r@[r1.len() as int]));
                    assert(r@[r1.len() as int].1.model() == (
                        ls@[i as int].1.model(),
                        rs@[j as int].1.model(),
                    ));
                    assert(pair_of(ls@, rs@, r@[r1.len() as int].1.model()));
                }
                assert forall|h: int|
                    0 <= h < r@.len() implies s2.has((#[trigger] r@[h]).0) && pair_of(ls@, rs@, r@[h].1.model()) by {
                    if h < r1.len() {
                        assert(r@[h] == r1[h]);
                    }
                }
                assert forall|p: Pkt, m: (L::M, R::M), x: Pkt|
                    #![trigger listed(s2, r@, p, m, x)]
                    p.len() == n && x.len() == n implies (listed(s2, r@, p, m, x) <==> listed(
                    s0,
                    r0,
                    p,
                    m,
                    x,
                ) || (o.rel(t.0, p, x) && t.1.model() == m.0 && listed(
                    o,
                    rs@.take(j + 1),
                    p,
                    m.1,
                    x,
                ))) by {
                    lemma_listed_push(o, rs@.take(j as int), u, p, m.1, x);
                    assert(s1.rel(t.0, p, x) == o.rel(t.0, p, x));
                    assert(s1.rel(u.0, p, x) == o.rel(u.0, p, x));
                    assert(s2.rel(combined, p, x) == (o.rel(t.0, p, x) && o.rel(u.0, p, x)));
                    assert(listed(s2, r1, p, m, x) == listed(s1, r1, p, m, x));
                    if nonzero {
                        lemma_listed_push(s2, r1, r@[r1.len() as int], p, m, x);
                    }
                }
            }
            j = j + 1;
        }
        proof {
            assert(rs@.take(j as int) =~= rs@);
            assert(ls@.take(i + 1) =~= ls@.take(i as int).push(t));
            assert forall|p: Pkt, m: (L::M, R::M), x: Pkt|
                #![trigger listed(*store, r@, p, m, x)]
                p.len() == n && x.len() == n implies (listed(*store, r@, p, m, x) <==> listed(
                o,
                ls@.take(i + 1),
                p,
                m.0,
                x,
            ) && listed(o, rs@, p, m.1, x)) by {
                lemma_listed_push(o, ls@.take(i as int), t, p, m.0, x);
                assert(listed(s0, r0, p, m, x) <==> listed(o, ls@.take(i as int), p, m.0, x)
                    && listed(o, rs@, p, m.1, x));
            }
        }
        i = i + 1;
    }
    proof {
        assert(ls@.take(i as int) =~= ls@);
    }
    r
}

/// The intersection of two automata: the states are pairs.
#[derive(Clone)]
pub struct Intersection<A: NFA, B: NFA> {
    pub left: A,
    pub right: B,
}

/// The intersection of two automata.
pub fn intersection<A: NFA, B: NFA>(left: A, right: B) -> (r: Intersection<A, B>)
    ensures
        r.left == left,
        r.right == right,
{
    Intersection { left, right }
}

impl<A: NFA, B: NFA> ENFA for Intersection<A, B> {
    type State = (A::State, B::State);

    open spec fn valid(&self, st: SPPstore) -> bool {
        self.left.valid(st) && self.right.valid(st)
    }

    open spec fn is_state(&self, q: (Place<A>, Place<B>)) -> bool {
        self.left.is_state(q.0) && self.right.is_state(q.1)
    }

    open spec fn init(&self) -> (Place<A>, Place<B>) {
        (self.left.init(), self.right.init())
    }

    open spec fn vis(&self, q: (Place<A>, Place<B>)) -> bool {
        true
    }

    open spec fn step(
        &self,
        st: SPPstore,
        q: (Place<A>, Place<B>),
        p: Pkt,
        r: (Place<A>, Place<B>),
        x: Pkt,
    ) -> bool {
        self.left.step(st, q.0, p, r.0, x) && self.right.step(st, q.1, p, r.1, x)
    }

    open spec fn out(&self, st: SPPstore, q: (Place<A>, Place<B>), p: Pkt, x: Pkt) -> bool {
        self.left.out(st, q.0, p, x) && self.right.out(st, q.1, p, x)
    }

    proof fn lemma_valid(&self, st: SPPstore, o: SPPstore) {
        self.left.lemma_valid(st, o);
        self.right.lemma_valid(st, o);
    }

    proof fn lemma_states(&self, st: SPPstore) {
        self.left.lemma_states(st);
        self.right.lemma_states(st);
    }

    fn start(&self, store: &mut SPPstore) -> (q: (A::State, B::State)) {
        let ghost o = *store;
        let a = self.left.start(store);
        proof {
            self.right.lemma_valid(*store, o);
        }
        let b = self.right.start(store);
        let q = (a, b);
        proof {
            assert(q.model() == (self.left.init(), self.right.init()));
        }
        q
    }

    fn is_visible(&self, store: &mut SPPstore, q: &(A::State, B::State)) -> (b: bool) {
        true
    }

    fn transitions(&self, store: &mut SPPstore, q: &(A::State, B::State)) -> (ts: Vec<
        (SPP, (A::State, B::State)),
    >)
        ensures
            forall|i: int| 0 <= i < ts@.len() ==> (#[trigger] ts@[i]).0 != final(store).zero,
    {
        let ghost o = *store;
        let ghost n = o.n();
        let trans_a = self.left.transitions(store, &q.0);
        let ghost s1 = *store;
        proof {
            self.right.lemma_valid(s1, o);
        }
        let trans_b = self.right.transitions(store, &q.1);
        let ghost s2 = *store;
        proof {
            lemma_listed_ext(s2, s1, trans_a@);
        }
        let r = paired(store, &trans_a, &trans_b);
        proof {
            let m0 = q.model();
            assert forall|p: Pkt, m: (Place<A>, Place<B>), x: Pkt|
                #![trigger self.step(o, m0, p, m, x)]
                #![trigger listed(*store, r@, p, m, x)]
                p.len() == n && x.len() == n implies self.step(o, m0, p, m, x) == listed(
                *store,
                r@,
                p,
                m,
                x,
            ) by {
                assert(self.left.step(o, m0.0, p, m.0, x) == listed(s1, trans_a@, p, m.0, x));
                assert(listed(s1, trans_a@, p, m.0, x) == listed(s2, trans_a@, p, m.0, x));
                assert(self.right.step(s1, m0.1, p, m.1, x) == listed(s2, trans_b@, p, m.1, x));
                assert(self.right.step(s1, m0.1, p, m.1, x) == self.right.step(
                    o,
                    m0.1,
                    p,
                    m.1,
                    x,
                ));
            }
            assert forall|i: int| 0 <= i < r@.len() implies store.has((#[trigger] r@[i]).0)
                && self.is_state(r@[i].1.model()) by {
                let (j, k) = choose|j: int, k: int|
                    0 <= j < trans_a@.len() && 0 <= k < trans_b@.len() && r@[i].1.model() == (
                        (#[trigger] trans_a@[j]).1.model(),
                        (#[trigger] trans_b@[k]).1.model(),
                    );
                assert(self.left.is_state(trans_a@[j].1.model()));
                assert(self.right.is_state(trans_b@[k].1.model()));
            }
        }
        r
    }

    fn output(&self, store: &mut SPPstore, q: &(A::State, B::State)) -> (y: SPP) {
        let ghost o = *store;
        let out_a = self.left.output(store, &q.0);
        let ghost s1 = *store;
        proof {
            self.right.lemma_valid(s1, o);
        }
        let out_b = self.right.output(store, &q.1);
        let ghost s2 = *store;
        let y = store.intersect(out_a, out_b);
        proof {
            let m0 = q.model();
            assert forall|p: Pkt, x: Pkt|
                #![trigger self.out(o, m0, p, x)]
                #![trigger store.rel(y, p, x)]
                p.len() == o.n() && x.len() == o.n() implies self.out(o, m0, p, x) == store.rel(
                y,
                p,
                x,
            ) by {
                assert(self.left.out(o, m0.0, p, x) == s1.rel(out_a, p, x));
                assert(s1.rel(out_a, p, x) == s2.rel(out_a, p, x));
                assert(self.right.out(s1, m0.1, p, x) == s2.rel(out_b, p, x));
                assert(self.right.out(s1, m0.1, p, x) == self.right.out(o, m0.1, p, x));
            }
        }
        y
    }
}

impl<A: NFA, B: NFA> NFA for Intersection<A, B> {
    proof fn lemma_visible(&self) {
    }
}

impl<A: DFA, B: DFA> DFA for Intersection<A, B> {
    proof fn lemma_deterministic(&self, st: SPPstore) {
        self.left.lemma_deterministic(st);
        self.right.lemma_deterministic(st);
        assert forall|
            q: (Place<A>, Place<B>),
            p: Pkt,
            r: (Place<A>, Place<B>),
            s: (Place<A>, Place<B>),
            x: Pkt,
        |
            #![trigger self.step(st, q, p, r, x), self.step(st, q, p, s, x)]
            self.is_state(q) && p.len() == st.n() && x.len() == st.n() && self.step(
                st,
                q,
                p,
                r,
                x,
            ) && self.step(st, q, p, s, x) implies r == s by {
            assert(self.left.step(st, q.0, p, r.0, x) && self.left.step(st, q.0, p, s.0, x));
            assert(self.right.step(st, q.1, p, r.1, x) && self.right.step(st, q.1, p, s.1, x));
        }
    }
}

proof fn lemma_intersection<A: NFA, B: NFA>(
    a: &Intersection<A, B>,
    st: SPPstore,
    q: (Place<A>, Place<B>),
    w: Word,
)
    requires
        is_word(st.n(), w),
    ensures
        nfa_word(a, st, q, w) <==> nfa_word(&a.left, st, q.0, w) && nfa_word(
            &a.right,
            st,
            q.1,
            w,
        ),
    decreases w.len(),
{
    if w.len() >= 3 {
        lemma_tail(st.n(), w, 1);
        let v = w.skip(1);
        if nfa_word(a, st, q, w) {
            let m = choose|m: (Place<A>, Place<B>)| #[trigger]
                a.step(st, q, w[0], m, w[1]) && nfa_word(a, st, m, v);
            lemma_intersection(a, st, m, v);
            assert(a.left.step(st, q.0, w[0], m.0, w[1]) && a.right.step(
                st,
                q.1,
                w[0],
                m.1,
                w[1],
            ));
        }
        if nfa_word(&a.left, st, q.0, w) && nfa_word(&a.right, st, q.1, w) {
            let s = choose|s: Place<A>| #[trigger]
                a.left.step(st, q.0, w[0], s, w[1]) && nfa_word(&a.left, st, s, v);
            let t = choose|t: Place<B>| #[trigger]
                a.right.step(st, q.1, w[0], t, w[1]) && nfa_word(&a.right, st, t, v);
            lemma_intersection(a, st, (s, t), v);
            assert(a.step(st, q, w[0], (s, t), w[1]));
        }
    }
}

/// The intersection accepts the common words.
pub proof fn law_intersection<A: NFA, B: NFA>(a: &Intersection<A, B>, st: SPPstore, w: Word)
    requires
        is_word(st.n(), w),
    ensures
        enfa_lang(a, st)(w) <==> enfa_lang(&a.left, st)(w) && enfa_lang(&a.right, st)(w),
{
    a.left.lemma_visible();
    a.right.lemma_visible();
    lemma_nfa_word(a, st, a.init(), w);
    lemma_nfa_word(&a.left, st, a.left.init(), w);
    lemma_nfa_word(&a.right, st, a.right.init(), w);
    lemma_intersection(a, st, a.init(), w);
}

// ---- products ----------------------------------------------------------------------------------

/// The transitions of the list, each with a transition of one more component.
fn extended<S: StateKey>(
    store: &mut SPPstore,
    acc: &Vec<(SPP, Vec<S>)>,
    ts: &Vec<(SPP, S)>,
) -> (r: Vec<(SPP, Vec<S>)>)
    requires
        old(store).wf(),
        forall|i: int| 0 <= i < acc@.len() ==> old(store).has((#[trigger] acc@[i]).0),
        forall|i: int| 0 <= i < ts@.len() ==> old(store).has((#[trigger] ts@[i]).0),
    ensures
        final(store).wf(),
        final(store).extends(old(store)),
        forall|i: int|
            0 <= i < r@.len() ==> final(store).has((#[trigger] r@[i]).0) && exists|j: int, k: int|
                0 <= j < acc@.len() && 0 <= k < ts@.len() && r@[i].1.model()
                    == (#[trigger] acc@[j]).1.model().push((#[trigger] ts@[k]).1.model()),
        forall|p: Pkt, m: Seq<S::M>, x: Pkt|
            #![trigger listed(*final(store), r@, p, m, x)]
            p.len() == old(store).n() && x.len() == old(store).n() ==> (listed(
                *final(store),
                r@,
                p,
                m,
                x,
            ) <==> m.len() > 0 && listed(*old(store), acc@, p, m.drop_last(), x) && listed(
                *old(store),
                ts@,
                p,
                m.last(),
                x,
            )),
{
    let ghost o = *store;
    let ghost n = o.n();
    let pairs = paired(store, acc, ts);
    let ghost s1 = *store;
    let mut r: Vec<(SPP, Vec<S>)> = Vec::new();
    let mut i: usize = 0;
    while i < pairs.len()
        invariant
            i <= pairs@.len(),
            r@.len() == i,
            forall|j: int|
                0 <= j < i ==> (#[trigger] r@[j]).0 == pairs@[j].0 && r@[j].1.model()
                    == pairs@[j].1.model().0.push(pairs@[j].1.model().1),
        decreases pairs.len() - i,
    {
        let mut target = pairs[i].1.0.dup();
        let ghost t0 = target@;
        target.push(pairs[i].1.1.dup());
        proof {
            assert(models(target@) =~= models(t0).push(target@[t0.len() as int].model()));
        }
        r.push((pairs[i].0, target));
        i = i + 1;
    }
    proof {
        assert forall|h: int|
            0 <= h < r@.len() implies s1.has((#[trigger] r@[h]).0) && exists|j: int, k: int|
            0 <= j < acc@.len() && 0 <= k < ts@.len() && r@[h].1.model()
                == (#[trigger] acc@[j]).1.model().push((#[trigger] ts@[k]).1.model()) by {
            assert(s1.has(pairs@[h].0));
            let (j, k) = choose|j: int, k: int|
                0 <= j < acc@.len() && 0 <= k < ts@.len() && pairs@[h].1.model() == (
                    (#[trigger] acc@[j]).1.model(),
                    (#[trigger] ts@[k]).1.model(),
                );
            assert(r@[h].1.model() == acc@[j].1.model().push(ts@[k].1.model()));
        }
        assert forall|p: Pkt, m: Seq<S::M>, x: Pkt|
            #![trigger listed(s1, r@, p, m, x)]
            p.len() == n && x.len() == n implies (listed(s1, r@, p, m, x) <==> m.len() > 0
            && listed(o, acc@, p, m.drop_last(), x) && listed(o, ts@, p, m.last(), x)) by {
            if listed(s1, r@, p, m, x) {
                let h = choose|h: int|
                    0 <= h < r@.len() && s1.rel((#[trigger] r@[h]).0, p, x) && r@[h].1.model()
                        == m;
                let d = pairs@[h].1.model();
                assert(m == d.0.push(d.1));
                assert(m.drop_last() =~= d.0 && m.last() == d.1);
                assert(s1.rel(pairs@[h].0, p, x));
                assert(listed(s1, pairs@, p, d, x));
            }
            if m.len() > 0 && listed(o, acc@, p, m.drop_last(), x) && listed(
                o,
                ts@,
                p,
                m.last(),
                x,
            ) {
                let d = (m.drop_last(), m.last());
                assert(listed(s1, pairs@, p, d, x));
                let h = choose|h: int|
                    0 <= h < pairs@.len() && s1.rel((#[trigger] pairs@[h]).0, p, x)
                        && pairs@[h].1.model() == d;
                assert(m =~= d.0.push(d.1));
                assert(s1.rel(r@[h].0, p, x) && r@[h].1.model() == m);
            }
        }
    }
    r
}

/// The list of the empty product: one transition, by every pair of packets.
fn no_components<S: StateKey>(store: &SPPstore) -> (r: Vec<(SPP, Vec<S>)>)
    requires
        store.wf(),
    ensures
        r@.len() == 1,
        r@[0].0 == store.top,
        r@[0].1@.len() == 0,
        forall|i: int| 0 <= i < r@.len() ==> store.has((#[trigger] r@[i]).0),
        forall|i: int| 0 <= i < r@.len() ==> (#[trigger] r@[i]).1.model().len() == 0,
        forall|p: Pkt, m: Seq<S::M>, x: Pkt|
            #![trigger listed(*store, r@, p, m, x)]
            p.len() == store.n() && x.len() == store.n() ==> (listed(*store, r@, p, m, x) <==> m.len()
                == 0),
{
    proof {
        store.lemma_wf();
    }
    let mut r: Vec<(SPP, Vec<S>)> = Vec::new();
    let none: Vec<S> = Vec::new();
    r.push((store.top, none));
    proof {
        assert forall|p: Pkt, m: Seq<S::M>, x: Pkt|
            #![trigger listed(*store, r@, p, m, x)]
            p.len() == store.n() && x.len() == store.n() implies (listed(*store, r@, p, m, x) <==> m.len()
            == 0) by {
            assert(store.rel(r@[0].0, p, x));
            assert(r@[0].1.model().len() == 0);
            if m.len() == 0 {
                assert(r@[0].1.model() =~= m);
            }
        }
    }
    r
}

/// Component `i` takes a step.
pub open spec fn part_steps<T: ENFA>(
    a: T,
    st: SPPstore,
    q: Seq<Place<T>>,
    p: Pkt,
    r: Seq<Place<T>>,
    x: Pkt,
    i: int,
) -> bool {
    a.step(st, q[i], p, r[i], x)
}

/// Tuples of states of one automaton.
pub struct Exponential<A> {
    pub inner: A,
}

impl<A: NFA> Exponential<A> {
    /// The transitions of a tuple of states: each component takes a step, with
    /// the same packets.  Where the automaton is deterministic, no pair of packets leads
    /// to two tuples; where it is total, every pair leads to one.
    pub fn transitions(&self, store: &mut SPPstore, q: &[A::State]) -> (r: Vec<
        (SPP, Vec<A::State>),
    >)
        requires
            old(store).wf(),
            self.inner.valid(*old(store)),
            forall|i: int| 0 <= i < q@.len() ==> self.inner.is_state((#[trigger] q@[i]).model()),
        ensures
            final(store).wf(),
            final(store).extends(old(store)),
            forall|i: int| 0 <= i < r@.len() ==> final(store).has((#[trigger] r@[i]).0),
            forall|p: Pkt, m: Seq<Place<A>>, x: Pkt|
                #![trigger listed(*final(store), r@, p, m, x)]
                p.len() == old(store).n() && x.len() == old(store).n() ==> (listed(
                    *final(store),
                    r@,
                    p,
                    m,
                    x,
                ) <==> m.len() == q@.len() && forall|i: int|
                    0 <= i < q@.len() ==> #[trigger] part_steps(
                        self.inner,
                        *old(store),
                        models(q@),
                        p,
                        m,
                        x,
                        i,
                    )),
            q@.len() == 0 ==> r@.len() == 1 && r@[0].0 == final(store).top && r@[0].1@.len() == 0,
            forall|i: int| 0 <= i < r@.len() ==> (#[trigger] r@[i]).1@.len() == q@.len() || r@[i].0
                == final(store).zero,
            deterministic(&self.inner, *old(store)) ==> forall|i: int, j: int, p: Pkt, x: Pkt|
                #![trigger final(store).rel(r@[i].0, p, x), final(store).rel(r@[j].0, p, x)]
                0 <= i < r@.len() && 0 <= j < r@.len() && p.len() == old(store).n() && x.len()
                    == old(store).n() && final(store).rel(r@[i].0, p, x) && final(store).rel(
                    r@[j].0,
                    p,
                    x,
                ) ==> r@[i].1.model() == r@[j].1.model(),
            total(&self.inner, *old(store)) ==> forall|p: Pkt, x: Pkt|
                p.len() == old(store).n() && x.len() == old(store).n() ==> exists|i: int|
                    0 <= i < r@.len() && #[trigger] final(store).rel(r@[i].0, p, x),
    {
        let ghost o = *store;
        let ghost n = o.n();
        let ghost qs = models(q@);
        let mut acc = no_components::<A::State>(store);
        let mut i: usize = 0;
        while i < q.len()
            invariant
                store.wf(),
                store.extends(&o),
                o.wf(),
                n == o.n(),
                self.inner.valid(o),
                qs == models(q@),
                forall|j: int| 0 <= j < q@.len() ==> self.inner.is_state((#[trigger] q@[j]).model()),
                i <= q@.len(),
                i == 0 ==> acc@.len() == 1 && acc@[0].0 == store.top && acc@[0].1@.len() == 0,
                forall|j: int| 0 <= j < acc@.len() ==> store.has((#[trigger] acc@[j]).0),
                forall|p: Pkt, m: Seq<Place<A>>, x: Pkt|
                    #![trigger listed(*store, acc@, p, m, x)]
                    p.len() == n && x.len() == n ==> (listed(*store, acc@, p, m, x) <==> m.len()
                        == i && forall|j: int|
                        0 <= j < i ==> #[trigger] part_steps(self.inner, o, qs, p, m, x, j)),
            decreases q.len() - i,
        {
            let ghost s0 = *store;
            let ghost a0 = acc@;
            proof {
                self.inner.lemma_valid(s0, o);
                assert(self.inner.is_state(q@[i as int].model()));
            }
            let ts = self.inner.transitions(store, &q[i]);
            let ghost s1 = *store;
            proof {
                lemma_listed_ext(s1, s0, a0);
            }
            let next = extended(store, &acc, &ts);
            proof {
                assert forall|p: Pkt, m: Seq<Place<A>>, x: Pkt|
                    #![trigger listed(*store, next@, p, m, x)]
                    p.len() == n && x.len() == n implies (listed(*store, next@, p, m, x)
                    <==> m.len() == i + 1 && forall|j: int|
                    0 <= j < i + 1 ==> #[trigger] part_steps(
                        self.inner,
                        o,
                        qs,
                        p,
                        m,
                        x,
                        j,
                    )) by {
                    let d = m.drop_last();
                    if m.len() > 0 {
                        assert(listed(s1, a0, p, d, x) == listed(s0, a0, p, d, x));
                        assert(self.inner.step(s0, qs[i as int], p, m.last(), x) == listed(
                            s1,
                            ts@,
                            p,
                            m.last(),
                            x,
                        ));
                        assert(self.inner.step(s0, qs[i as int], p, m.last(), x)
                            == self.inner.step(o, qs[i as int], p, m.last(), x));
                        assert forall|j: int| 0 <= j < d.len() implies (#[trigger] part_steps(
                            self.inner,
                            o,
                            qs,
                            p,
                            d,
                            x,
                            j,
                        ) <==> part_steps(self.inner, o, qs, p, m, x, j)) by {
                            assert(d[j] == m[j]);
                        }
                        if m.len() == i + 1 {
                            assert(part_steps(self.inner, o, qs, p, m, x, i as int)
                                <==> self.inner.step(o, qs[i as int], p, m.last(), x));
                            if forall|j: int|
                                0 <= j < i + 1 ==> #[trigger] part_steps(
                                    self.inner,
                                    o,
                                    qs,
                                    p,
                                    m,
                                    x,
                                    j,
                                ) {
                                assert forall|j: int| 0 <= j < i implies #[trigger] part_steps(
                                    self.inner,
                                    o,
                                    qs,
                                    p,
                                    d,
                                    x,
                                    j,
                                ) by {
                                    assert(part_steps(self.inner, o, qs, p, m, x, j));
                                }
                            }
                            if listed(s0, a0, p, d, x) {
                                assert forall|j: int| 0 <= j < i implies #[trigger] part_steps(
                                    self.inner,
                                    o,
                                    qs,
                                    p,
                                    m,
                                    x,
                                    j,
                                ) by {
                                    assert(part_steps(self.inner, o, qs, p, d, x, j));
                                }
                            }
                        }
                    }
                }
            }
            acc = next;
            i = i + 1;
        }
        proof {
            let st = *store;
            let r = acc@;
            assert forall|i: int| 0 <= i < r.len() implies (#[trigger] r[i]).1@.len() == q@.len()
                || r[i].0 == st.zero by {
                st.lemma_nonzero(r[i].0);
                if r[i].0 != st.zero {
                    let (p, x) = choose|p: Pkt, x: Pkt|
                        p.len() == n && x.len() == n && st.rel(r[i].0, p, x);
                    assert(listed(st, r, p, r[i].1.model(), x));
                    assert(r[i].1.model().len() == q@.len());
                }
            }
            if deterministic(&self.inner, o) {
                assert forall|i: int, j: int, p: Pkt, x: Pkt|
                    #![trigger st.rel(r[i].0, p, x), st.rel(r[j].0, p, x)]
                    0 <= i < r.len() && 0 <= j < r.len() && p.len() == n && x.len() == n && st.rel(
                        r[i].0,
                        p,
                        x,
                    ) && st.rel(r[j].0, p, x) implies r[i].1.model() == r[j].1.model() by {
                    let a = r[i].1.model();
                    let b = r[j].1.model();
                    assert(listed(st, r, p, a, x));
                    assert(listed(st, r, p, b, x));
                    assert forall|k: int| 0 <= k < a.len() implies a[k] == b[k] by {
                        assert(part_steps(self.inner, o, qs, p, a, x, k));
                        assert(part_steps(self.inner, o, qs, p, b, x, k));
                        assert(self.inner.is_state(q@[k].model()));
                    }
                    assert(a =~= b);
                }
            }
            if total(&self.inner, o) {
                assert forall|p: Pkt, x: Pkt| p.len() == n && x.len() == n implies exists|i: int|
                    0 <= i < r.len() && #[trigger] st.rel(r[i].0, p, x) by {
                    let m = Seq::new(
                        qs.len(),
                        |k: int|
                            choose|s: Place<A>| #[trigger] self.inner.step(o, qs[k], p, s, x),
                    );
                    assert forall|k: int| 0 <= k < q@.len() implies #[trigger] part_steps(
                        self.inner,
                        o,
                        qs,
                        p,
                        m,
                        x,
                        k,
                    ) by {
                        assert(self.inner.is_state(q@[k].model()));
                        assert(moves_on(&self.inner, o, qs[k], p, x));
                    }
                    assert(listed(st, r, p, m, x));
                    let i = choose|i: int|
                        0 <= i < r.len() && st.rel((#[trigger] r[i]).0, p, x) && r[i].1.model()
                            == m;
                    assert(st.rel(r[i].0, p, x));
                }
            }
        }
        acc
    }
}

/// The product of any number of deterministic automata: the states are lists,
/// with one state of each.
#[derive(Clone)]
pub struct NAryProduct<'a, T: DFA> {
    pub inner: &'a [T],
}

impl<'a, T: DFA> ENFA for NAryProduct<'a, T> {
    type State = Vec<T::State>;

    open spec fn valid(&self, st: SPPstore) -> bool {
        forall|i: int| 0 <= i < self.inner@.len() ==> (#[trigger] self.inner@[i]).valid(st)
    }

    open spec fn is_state(&self, q: Seq<Place<T>>) -> bool {
        q.len() == self.inner@.len() && forall|i: int|
            0 <= i < q.len() ==> self.inner@[i].is_state(#[trigger] q[i])
    }

    open spec fn init(&self) -> Seq<Place<T>> {
        Seq::new(self.inner@.len(), |i: int| self.inner@[i].init())
    }

    open spec fn vis(&self, q: Seq<Place<T>>) -> bool {
        true
    }

    open spec fn step(
        &self,
        st: SPPstore,
        q: Seq<Place<T>>,
        p: Pkt,
        r: Seq<Place<T>>,
        x: Pkt,
    ) -> bool {
        r.len() == self.inner@.len() && forall|i: int|
            0 <= i < self.inner@.len() ==> #[trigger] part_steps(
                self.inner@[i],
                st,
                q,
                p,
                r,
                x,
                i,
            )
    }

    open spec fn out(&self, st: SPPstore, q: Seq<Place<T>>, p: Pkt, x: Pkt) -> bool {
        forall|i: int|
            0 <= i < self.inner@.len() ==> #[trigger] self.inner@[i].out(st, q[i], p, x)
    }

    proof fn lemma_valid(&self, st: SPPstore, o: SPPstore) {
        assert forall|i: int| 0 <= i < self.inner@.len() implies (#[trigger] self.inner@[i]).valid(
            st,
        ) by {
            assert(self.inner@[i].valid(o));
            self.inner@[i].lemma_valid(st, o);
        }
        assert forall|q: Seq<Place<T>>, p: Pkt, r: Seq<Place<T>>, x: Pkt|
            #![trigger self.step(st, q, p, r, x)]
            #![trigger self.step(o, q, p, r, x)]
            self.is_state(q) && p.len() == o.n() && x.len() == o.n() implies self.step(
            st,
            q,
            p,
            r,
            x,
        ) == self.step(o, q, p, r, x) by {
            assert forall|i: int| 0 <= i < self.inner@.len() implies #[trigger] part_steps(
                self.inner@[i],
                st,
                q,
                p,
                r,
                x,
                i,
            ) == part_steps(self.inner@[i], o, q, p, r, x, i) by {
                assert(self.inner@[i].valid(o));
                self.inner@[i].lemma_valid(st, o);
                assert(self.inner@[i].is_state(q[i]));
                assert(self.inner@[i].step(st, q[i], p, r[i], x) == self.inner@[i].step(
                    o,
                    q[i],
                    p,
                    r[i],
                    x,
                ));
            }
            if self.step(o, q, p, r, x) {
                assert forall|i: int| 0 <= i < self.inner@.len() implies #[trigger] part_steps(
                    self.inner@[i],
                    st,
                    q,
                    p,
                    r,
                    x,
                    i,
                ) by {
                    assert(part_steps(self.inner@[i], o, q, p, r, x, i));
                }
            }
            if self.step(st, q, p, r, x) {
                assert forall|i: int| 0 <= i < self.inner@.len() implies #[trigger] part_steps(
                    self.inner@[i],
                    o,
                    q,
                    p,
                    r,
                    x,
                    i,
                ) by {
                    assert(part_steps(self.inner@[i], st, q, p, r, x, i));
                }
            }
        }
        assert forall|q: Seq<Place<T>>, p: Pkt, x: Pkt|
            #![trigger self.out(st, q, p, x)]
            #![trigger self.out(o, q, p, x)]
            self.is_state(q) && p.len() == o.n() && x.len() == o.n() implies self.out(st, q, p, x)
            == self.out(o, q, p, x) by {
            assert forall|i: int| 0 <= i < self.inner@.len() implies #[trigger] self.inner@[i].out(
                st,
                q[i],
                p,
                x,
            ) == self.inner@[i].out(o, q[i], p, x) by {
                assert(self.inner@[i].valid(o));
                self.inner@[i].lemma_valid(st, o);
                assert(self.inner@[i].is_state(q[i]));
            }
            if self.out(o, q, p, x) {
                assert forall|i: int| 0 <= i < self.inner@.len() implies #[trigger] self.inner@[i].out(
                    st,
                    q[i],
                    p,
                    x,
                ) by {
                    assert(self.inner@[i].out(o, q[i], p, x));
                }
            }
            if self.out(st, q, p, x) {
                assert forall|i: int| 0 <= i < self.inner@.len() implies #[trigger] self.inner@[i].out(
                    o,
                    q[i],
                    p,
                    x,
                ) by {
                    assert(self.inner@[i].out(st, q[i], p, x));
                }
            }
        }
    }

    proof fn lemma_states(&self, st: SPPstore) {
        let q0 = self.init();
        assert forall|i: int| 0 <= i < q0.len() implies self.inner@[i].is_state(
            #[trigger] q0[i],
        ) by {
            assert(self.inner@[i].valid(st));
            self.inner@[i].lemma_states(st);
        }
        assert forall|q: Seq<Place<T>>, p: Pkt, r: Seq<Place<T>>, x: Pkt| #[trigger]
            self.step(st, q, p, r, x) && self.is_state(q) && p.len() == st.n() && x.len()
                == st.n() implies self.is_state(r) by {
            assert forall|i: int| 0 <= i < r.len() implies self.inner@[i].is_state(
                #[trigger] r[i],
            ) by {
                assert(self.inner@[i].valid(st));
                self.inner@[i].lemma_states(st);
                assert(part_steps(self.inner@[i], st, q, p, r, x, i));
                assert(self.inner@[i].is_state(q[i]));
            }
        }
    }

    fn start(&self, store: &mut SPPstore) -> (q: Vec<T::State>) {
        let ghost o = *store;
        let mut q: Vec<T::State> = Vec::new();
        let mut i: usize = 0;
        while i < self.inner.len()
            invariant
                store.wf(),
                store.extends(&o),
                o.wf(),
                self.valid(o),
                i <= self.inner@.len(),
                q@.len() == i,
                forall|j: int| 0 <= j < i ==> (#[trigger] q@[j]).model() == self.inner@[j].init(),
            decreases self.inner.len() - i,
        {
            proof {
                assert(self.inner@[i as int].valid(o));
                self.inner@[i as int].lemma_valid(*store, o);
            }
            q.push(self.inner[i].start(store));
            i = i + 1;
        }
        proof {
            assert(models(q@) =~= self.init());
            assert(q.model() == self.init());
        }
        q
    }

    fn is_visible(&self, store: &mut SPPstore, q: &Vec<T::State>) -> (b: bool) {
        true
    }

    fn transitions(&self, store: &mut SPPstore, q: &Vec<T::State>) -> (ts: Vec<
        (SPP, Vec<T::State>),
    >) {
        let ghost o = *store;
        let ghost n = o.n();
        let ghost qs = models(q@);
        let mut acc = no_components::<T::State>(store);
        let mut i: usize = 0;
        while i < self.inner.len()
            invariant
                store.wf(),
                store.extends(&o),
                o.wf(),
                n == o.n(),
                self.valid(o),
                qs == models(q@),
                self.is_state(qs),
                i <= self.inner@.len(),
                forall|j: int|
                    0 <= j < acc@.len() ==> store.has((#[trigger] acc@[j]).0)
                        && acc@[j].1.model().len() == i,
                forall|j: int, k: int|
                    #![trigger acc@[j].1.model()[k]]
                    0 <= j < acc@.len() && 0 <= k < i ==> self.inner@[k].is_state(
                        acc@[j].1.model()[k],
                    ),
                forall|p: Pkt, m: Seq<Place<T>>, x: Pkt|
                    #![trigger listed(*store, acc@, p, m, x)]
                    p.len() == n && x.len() == n ==> (listed(*store, acc@, p, m, x) <==> m.len()
                        == i && forall|j: int|
                        0 <= j < i ==> #[trigger] part_steps(self.inner@[j], o, qs, p, m, x, j)),
            decreases self.inner.len() - i,
        {
            let ghost s0 = *store;
            let ghost a0 = acc@;
            proof {
                assert(self.inner@[i as int].valid(o));
                self.inner@[i as int].lemma_valid(s0, o);
                assert(self.inner@[i as int].is_state(qs[i as int]));
                assert(qs[i as int] == q@[i as int].model());
            }
            let ts = self.inner[i].transitions(store, &q[i]);
            let ghost s1 = *store;
            proof {
                lemma_listed_ext(s1, s0, a0);
            }
            let next = extended(store, &acc, &ts);
            proof {
                let b = self.inner@[i as int];
                assert forall|h: int| 0 <= h < next@.len() implies store.has(
                    (#[trigger] next@[h]).0,
                ) && next@[h].1.model().len() == i + 1 by {
                    let (j, k) = choose|j: int, k: int|
                        0 <= j < a0.len() && 0 <= k < ts@.len() && next@[h].1.model()
                            == (#[trigger] a0[j]).1.model().push((#[trigger] ts@[k]).1.model());
                }
                assert forall|h: int, k: int|
                    #![trigger next@[h].1.model()[k]]
                    0 <= h < next@.len() && 0 <= k < i + 1 implies self.inner@[k].is_state(
                    next@[h].1.model()[k],
                ) by {
                    assert(store.has(next@[h].0));
                    let (j, l) = choose|j: int, l: int|
                        0 <= j < a0.len() && 0 <= l < ts@.len() && next@[h].1.model()
                            == (#[trigger] a0[j]).1.model().push((#[trigger] ts@[l]).1.model());
                    if k < i {
                        assert(next@[h].1.model()[k] == a0[j].1.model()[k]);
                    } else {
                        assert(b.is_state(ts@[l].1.model()));
                    }
                }
                assert forall|p: Pkt, m: Seq<Place<T>>, x: Pkt|
                    #![trigger listed(*store, next@, p, m, x)]
                    p.len() == n && x.len() == n implies (listed(*store, next@, p, m, x)
                    <==> m.len() == i + 1 && forall|j: int|
                    0 <= j < i + 1 ==> #[trigger] part_steps(
                        self.inner@[j],
                        o,
                        qs,
                        p,
                        m,
                        x,
                        j,
                    )) by {
                    let d = m.drop_last();
                    if m.len() > 0 {
                        assert(listed(s1, a0, p, d, x) == listed(s0, a0, p, d, x));
                        assert(b.step(s0, qs[i as int], p, m.last(), x) == listed(
                            s1,
                            ts@,
                            p,
                            m.last(),
                            x,
                        ));
                        assert(b.step(s0, qs[i as int], p, m.last(), x) == b.step(
                            o,
                            qs[i as int],
                            p,
                            m.last(),
                            x,
                        ));
                        assert forall|j: int| 0 <= j < d.len() implies (#[trigger] part_steps(
                            self.inner@[j],
                            o,
                            qs,
                            p,
                            d,
                            x,
                            j,
                        ) <==> part_steps(self.inner@[j], o, qs, p, m, x, j)) by {
                            assert(d[j] == m[j]);
                        }
                        if m.len() == i + 1 {
                            assert(part_steps(self.inner@[i as int], o, qs, p, m, x, i as int)
                                <==> b.step(o, qs[i as int], p, m.last(), x));
                            if forall|j: int|
                                0 <= j < i + 1 ==> #[trigger] part_steps(
                                    self.inner@[j],
                                    o,
                                    qs,
                                    p,
                                    m,
                                    x,
                                    j,
                                ) {
                                assert forall|j: int| 0 <= j < i implies #[trigger] part_steps(
                                    self.inner@[j],
                                    o,
                                    qs,
                                    p,
                                    d,
                                    x,
                                    j,
                                ) by {
                                    assert(part_steps(self.inner@[j], o, qs, p, m, x, j));
                                }
                            }
                            if listed(s0, a0, p, d, x) {
                                assert forall|j: int| 0 <= j < i implies #[trigger] part_steps(
                                    self.inner@[j],
                                    o,
                                    qs,
                                    p,
                                    m,
                                    x,
                                    j,
                                ) by {
                                    assert(part_steps(self.inner@[j], o, qs, p, d, x, j));
                                }
                            }
                        }
                    }
                }
            }
            acc = next;
            i = i + 1;
        }
        proof {
            assert forall|j: int| 0 <= j < acc@.len() implies store.has((#[trigger] acc@[j]).0)
                && self.is_state(acc@[j].1.model()) by {
                let m = acc@[j].1.model();
                assert forall|k: int| 0 <= k < m.len() implies self.inner@[k].is_state(
                    #[trigger] m[k],
                ) by {
                    assert(self.inner@[k].is_state(acc@[j].1.model()[k]));
                }
            }
        }
        acc
    }

    fn output(&self, store: &mut SPPstore, q: &Vec<T::State>) -> (y: SPP) {
        let ghost o = *store;
        let ghost n = o.n();
        let ghost qs = models(q@);
        proof {
            o.lemma_wf();
        }
        let mut y = store.top;
        let mut i: usize = 0;
        while i < self.inner.len()
            invariant
                store.wf(),
                store.extends(&o),
                o.wf(),
                n == o.n(),
                self.valid(o),
                qs == models(q@),
                self.is_state(qs),
                i <= self.inner@.len(),
                store.has(y),
                forall|p: Pkt, x: Pkt|
                    #![trigger store.rel(y, p, x)]
                    p.len() == n && x.len() == n ==> (store.rel(y, p, x) <==> forall|j: int|
                        0 <= j < i ==> #[trigger] self.inner@[j].out(o, qs[j], p, x)),
            decreases self.inner.len() - i,
        {
            let ghost s0 = *store;
            let ghost y0 = y;
            proof {
                assert(self.inner@[i as int].valid(o));
                self.inner@[i as int].lemma_valid(s0, o);
                assert(self.inner@[i as int].is_state(qs[i as int]));
                assert(qs[i as int] == q@[i as int].model());
            }
            let out_i = self.inner[i].output(store, &q[i]);
            let ghost s1 = *store;
            y = store.intersect(y, out_i);
            proof {
                let b = self.inner@[i as int];
                assert forall|p: Pkt, x: Pkt|
                    #![trigger store.rel(y, p, x)]
                    p.len() == n && x.len() == n implies (store.rel(y, p, x) <==> forall|j: int|
                    0 <= j < i + 1 ==> #[trigger] self.inner@[j].out(o, qs[j], p, x)) by {
                    assert(s1.rel(y0, p, x) == s0.rel(y0, p, x));
                    assert(b.out(s0, qs[i as int], p, x) == s1.rel(out_i, p, x));
                    assert(b.out(s0, qs[i as int], p, x) == b.out(o, qs[i as int], p, x));
                    if forall|j: int|
                        0 <= j < i + 1 ==> #[trigger] self.inner@[j].out(o, qs[j], p, x) {
                        assert(self.inner@[i as int].out(o, qs[i as int], p, x));
                        assert forall|j: int| 0 <= j < i implies #[trigger] self.inner@[j].out(
                            o,
                            qs[j],
                            p,
                            x,
                        ) by {}
                    }
                }
            }
            i = i + 1;
        }
        y
    }
}

impl<'a, T: DFA> NFA for NAryProduct<'a, T> {
    proof fn lemma_visible(&self) {
    }
}

impl<'a, T: DFA> DFA for NAryProduct<'a, T> {
    proof fn lemma_deterministic(&self, st: SPPstore) {
        assert forall|q: Seq<Place<T>>, p: Pkt, r: Seq<Place<T>>, s: Seq<Place<T>>, x: Pkt|
            #![trigger self.step(st, q, p, r, x), self.step(st, q, p, s, x)]
            self.is_state(q) && p.len() == st.n() && x.len() == st.n() && self.step(
                st,
                q,
                p,
                r,
                x,
            ) && self.step(st, q, p, s, x) implies r == s by {
            assert forall|i: int| 0 <= i < r.len() implies r[i] == s[i] by {
                assert(self.inner@[i].valid(st));
                self.inner@[i].lemma_deterministic(st);
                assert(part_steps(self.inner@[i], st, q, p, r, x, i));
                assert(part_steps(self.inner@[i], st, q, p, s, x, i));
                assert(self.inner@[i].is_state(q[i]));
                assert(self.inner@[i].step(st, q[i], p, r[i], x) && self.inner@[i].step(
                    st,
                    q[i],
                    p,
                    s[i],
                    x,
                ));
            }
            assert(r =~= s);
        }
    }
}

/// Every component accepts the word.
pub open spec fn parts_accept<'a, T: DFA>(
    a: &NAryProduct<'a, T>,
    st: SPPstore,
    q: Seq<Place<T>>,
    w: Word,
) -> bool {
    forall|i: int|
        0 <= i < a.inner@.len() ==> #[trigger] nfa_word(&a.inner@[i], st, q[i], w)
}

proof fn lemma_product<'a, T: DFA>(
    a: &NAryProduct<'a, T>,
    st: SPPstore,
    q: Seq<Place<T>>,
    w: Word,
)
    requires
        is_word(st.n(), w),
        q.len() == a.inner@.len(),
    ensures
        nfa_word(a, st, q, w) <==> parts_accept(a, st, q, w),
    decreases w.len(),
{
    if w.len() >= 3 {
        lemma_tail(st.n(), w, 1);
        let v = w.skip(1);
        if nfa_word(a, st, q, w) {
            let m = choose|m: Seq<Place<T>>| #[trigger]
                a.step(st, q, w[0], m, w[1]) && nfa_word(a, st, m, v);
            lemma_product(a, st, m, v);
            assert forall|i: int| 0 <= i < a.inner@.len() implies #[trigger] nfa_word(
                &a.inner@[i],
                st,
                q[i],
                w,
            ) by {
                assert(part_steps(a.inner@[i], st, q, w[0], m, w[1], i));
                assert(nfa_word(&a.inner@[i], st, m[i], v));
                assert(a.inner@[i].step(st, q[i], w[0], m[i], w[1]));
            }
        }
        if parts_accept(a, st, q, w) {
            let m = Seq::new(
                a.inner@.len(),
                |i: int|
                    choose|t: Place<T>| #[trigger]
                        a.inner@[i].step(st, q[i], w[0], t, w[1]) && nfa_word(
                            &a.inner@[i],
                            st,
                            t,
                            v,
                        ),
            );
            assert forall|i: int| 0 <= i < a.inner@.len() implies #[trigger] part_steps(
                a.inner@[i],
                st,
                q,
                w[0],
                m,
                w[1],
                i,
            ) && nfa_word(&a.inner@[i], st, m[i], v) by {
                assert(nfa_word(&a.inner@[i], st, q[i], w));
                let t = choose|t: Place<T>| #[trigger]
                    a.inner@[i].step(st, q[i], w[0], t, w[1]) && nfa_word(&a.inner@[i], st, t, v);
                assert(m[i] == t);
            }
            assert forall|i: int| 0 <= i < a.inner@.len() implies #[trigger] nfa_word(
                &a.inner@[i],
                st,
                m[i],
                v,
            ) by {
                assert(part_steps(a.inner@[i], st, q, w[0], m, w[1], i));
            }
            lemma_product(a, st, m, v);
            assert(a.step(st, q, w[0], m, w[1]));
        }
    } else {
        if nfa_word(a, st, q, w) {
            assert forall|i: int| 0 <= i < a.inner@.len() implies #[trigger] nfa_word(
                &a.inner@[i],
                st,
                q[i],
                w,
            ) by {
                assert(a.inner@[i].out(st, q[i], w[0], w[1]));
            }
        }
        if parts_accept(a, st, q, w) {
            assert forall|i: int| 0 <= i < a.inner@.len() implies #[trigger] a.inner@[i].out(
                st,
                q[i],
                w[0],
                w[1],
            ) by {
                assert(nfa_word(&a.inner@[i], st, q[i], w));
            }
        }
    }
}

/// The product accepts the words that all components accept, and every word if
/// there is none.
pub proof fn law_product<'a, T: DFA>(a: &NAryProduct<'a, T>, st: SPPstore, w: Word)
    requires
        is_word(st.n(), w),
    ensures
        enfa_lang(a, st)(w) <==> forall|i: int|
            0 <= i < a.inner@.len() ==> #[trigger] enfa_lang(&a.inner@[i], st)(w),
{
    let q = a.init();
    lemma_nfa_word(a, st, q, w);
    lemma_product(a, st, q, w);
    assert forall|i: int| 0 <= i < a.inner@.len() implies #[trigger] enfa_lang(
        &a.inner@[i],
        st,
    )(w) == nfa_word(&a.inner@[i], st, q[i], w) by {
        a.inner@[i].lemma_visible();
        lemma_nfa_word(&a.inner@[i], st, q[i], w);
    }
    if parts_accept(a, st, q, w) {
        assert forall|i: int| 0 <= i < a.inner@.len() implies #[trigger] enfa_lang(
            &a.inner@[i],
            st,
        )(w) by {
            assert(nfa_word(&a.inner@[i], st, q[i], w));
        }
    }
    if forall|i: int| 0 <= i < a.inner@.len() ==> #[trigger] enfa_lang(&a.inner@[i], st)(w) {
        assert forall|i: int| 0 <= i < a.inner@.len() implies #[trigger] nfa_word(
            &a.inner@[i],
            st,
            q[i],
            w,
        ) by {
            assert(enfa_lang(&a.inner@[i], st)(w));
        }
    }
}

/// The product of total automata is total.
pub proof fn law_product_total<'a, T: DFA>(a: &NAryProduct<'a, T>, st: SPPstore)
    requires
        forall|i: int| 0 <= i < a.inner@.len() ==> #[trigger] total(&a.inner@[i], st),
    ensures
        total(a, st),
{
    assert forall|q: Seq<Place<T>>, p: Pkt, x: Pkt|
        a.is_state(q) && p.len() == st.n() && x.len() == st.n() implies #[trigger] moves_on(
        a,
        st,
        q,
        p,
        x,
    ) by {
        let r = Seq::new(
            a.inner@.len(),
            |i: int| choose|r: Place<T>| #[trigger] a.inner@[i].step(st, q[i], p, r, x),
        );
        assert forall|i: int| 0 <= i < a.inner@.len() implies #[trigger] part_steps(
            a.inner@[i],
            st,
            q,
            p,
            r,
            x,
            i,
        ) by {
            assert(total(&a.inner@[i], st));
            assert(a.inner@[i].is_state(q[i]));
            assert(moves_on(&a.inner@[i], st, q[i], p, x));
        }
        assert(a.step(st, q, p, r, x));
    }
}

} // verus!
