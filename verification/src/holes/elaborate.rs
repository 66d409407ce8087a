//! From runs without invisible states to runs with them.
use vstd::prelude::*;
use vstd::slice::*;
use crate::holes::aut::{
    is_path, lemma_listed_push, lemma_path_states, listed, moves, run_on, seen, trace_of, Place,
    StateKey, ENFA,
};
use crate::holes::closure::{
    closed_out, closed_step, hidden_path, hides, lemma_seen_add, lemma_seen_none, EpsilonClosure,
};
use crate::holes::ops::lemma_listed_ext;
use crate::holes::search::{
    arrives, get_any_trace_with_states, inhabited, lemma_inhabited, path_of,
};
use crate::lang::packets;
use crate::sp::Pkt;
use crate::spp::{Cell, SPPstore, SPP};
use crate::text::copy_bits;

verus! {

/// The relation of every packet to the given one.
pub(crate) fn force_output_spp(store: &mut SPPstore, packet: &[bool]) -> (r: SPP)
    requires
        old(store).wf(),
        packet@.len() == old(store).n(),
    ensures
        final(store).wf(),
        final(store).extends(old(store)),
        final(store).has(r),
        forall|p: Pkt, x: Pkt|
            #![trigger final(store).rel(r, p, x)]
            p.len() == old(store).n() && x.len() == old(store).n() ==> (final(store).rel(r, p, x)
                <==> x == packet@),
{
    let mut cells: Vec<Cell> = Vec::new();
    let mut i: usize = 0;
    while i < packet.len()
        invariant
            i <= packet@.len(),
            cells@.len() == i,
            forall|j: int|
                0 <= j < i ==> forall|x: bool, y: bool|
                    (#[trigger] cells@[j]).allows(x, y) == (y == packet@[j]),
        decreases packet.len() - i,
    {
        let b = packet[i];
        cells.push(Cell { x00: !b, x01: b, x10: !b, x11: b });
        i = i + 1;
    }
    let r = store.product(&cells);
    proof {
        assert forall|p: Pkt, x: Pkt|
            #![trigger store.rel(r, p, x)]
            p.len() == old(store).n() && x.len() == old(store).n() implies (store.rel(r, p, x)
            <==> x == packet@) by {
            if store.rel(r, p, x) {
                assert forall|j: int| 0 <= j < x.len() implies x[j] == packet@[j] by {
                    assert(cells@[j].allows(p[j], x[j]));
                }
                assert(x =~= packet@);
            }
            if x == packet@ {
                assert forall|j: int| 0 <= j < p.len() implies (#[trigger] cells@[j]).allows(
                    p[j],
                    x[j],
                ) by {}
            }
        }
    }
    r
}

/// The relation of the given packet to every packet.
pub(crate) fn filter_input_spp(store: &mut SPPstore, packet: &[bool]) -> (r: SPP)
    requires
        old(store).wf(),
        packet@.len() == old(store).n(),
    ensures
        final(store).wf(),
        final(store).extends(old(store)),
        final(store).has(r),
        forall|p: Pkt, x: Pkt|
            #![trigger final(store).rel(r, p, x)]
            p.len() == old(store).n() && x.len() == old(store).n() ==> (final(store).rel(r, p, x)
                <==> p == packet@),
{
    let mut cells: Vec<Cell> = Vec::new();
    let mut i: usize = 0;
    while i < packet.len()
        invariant
            i <= packet@.len(),
            cells@.len() == i,
            forall|j: int|
                0 <= j < i ==> forall|x: bool, y: bool|
                    (#[trigger] cells@[j]).allows(x, y) == (x == packet@[j]),
        decreases packet.len() - i,
    {
        let b = packet[i];
        cells.push(Cell { x00: !b, x01: !b, x10: b, x11: b });
        i = i + 1;
    }
    let r = store.product(&cells);
    proof {
        assert forall|p: Pkt, x: Pkt|
            #![trigger store.rel(r, p, x)]
            p.len() == old(store).n() && x.len() == old(store).n() implies (store.rel(r, p, x)
            <==> p == packet@) by {
            if store.rel(r, p, x) {
                assert forall|j: int| 0 <= j < p.len() implies p[j] == packet@[j] by {
                    assert(cells@[j].allows(p[j], x[j]));
                }
                assert(p =~= packet@);
            }
            if p == packet@ {
                assert forall|j: int| 0 <= j < p.len() implies (#[trigger] cells@[j]).allows(
                    p[j],
                    x[j],
                ) by {}
            }
        }
    }
    r
}

/// A start before the states of an automaton, or one of them.
#[derive(Debug, Clone, PartialEq, Eq, PartialOrd, Ord, Hash)]
pub enum HelperState<S> {
    /// The start.
    Start,
    /// A state of the automaton.
    Inner(S),
}

impl<S: StateKey> StateKey for HelperState<S> {
    type M = HelperState<S::M>;

    open spec fn model(&self) -> HelperState<S::M> {
        match *self {
            HelperState::Start => HelperState::Start,
            HelperState::Inner(s) => HelperState::Inner(s.model()),
        }
    }

    fn same(&self, o: &Self) -> (r: bool) {
        match (self, o) {
            (HelperState::Start, HelperState::Start) => true,
            (HelperState::Inner(a), HelperState::Inner(b)) => a.same(b),
            _ => false,
        }
    }

    fn dup(&self) -> (r: Self) {
        match self {
            HelperState::Start => HelperState::Start,
            HelperState::Inner(a) => HelperState::Inner(a.dup()),
        }
    }
}

/// The transitions of the list that lead to an invisible state or to the given
/// one, each after a step of `before` if there is one.
fn helper_transitions<T: ENFA>(
    a: &T,
    store: &mut SPPstore,
    ts: Vec<(SPP, T::State)>,
    end: Option<&T::State>,
    before: Option<SPP>,
) -> (r: Vec<(SPP, HelperState<T::State>)>)
    requires
        old(store).wf(),
        a.valid(*old(store)),
        forall|i: int|
            0 <= i < ts@.len() ==> old(store).has((#[trigger] ts@[i]).0) && a.is_state(
                ts@[i].1.model(),
            ),
        before matches Some(b) ==> old(store).has(b),
    ensures
        final(store).wf(),
        final(store).extends(old(store)),
        forall|i: int|
            0 <= i < r@.len() ==> final(store).has((#[trigger] r@[i]).0) && match r@[i].1 {
                HelperState::Start => false,
                HelperState::Inner(s) => a.is_state(s.model()),
            },
        forall|p: Pkt, m: HelperState<Place<T>>, x: Pkt|
            #![trigger listed(*final(store), r@, p, m, x)]
            p.len() == old(store).n() && x.len() == old(store).n() ==> listed(
                *final(store),
                r@,
                p,
                m,
                x,
            ) == (match m {
                HelperState::Start => false,
                HelperState::Inner(s) => allowed(a, end, s) && preceded(
                    *old(store),
                    before,
                    ts@,
                    p,
                    s,
                    x,
                ),
            }),
{
    let ghost o = *store;
    let ghost n = o.n();
    let mut r: Vec<(SPP, HelperState<T::State>)> = Vec::new();
    let mut i: usize = 0;
    while i < ts.len()
        invariant
            store.wf(),
            o.wf(),
            store.extends(&o),
            n == o.n(),
            a.valid(o),
            forall|j: int|
                0 <= j < ts@.len() ==> o.has((#[trigger] ts@[j]).0) && a.is_state(
                    ts@[j].1.model(),
                ),
            before matches Some(b) ==> o.has(b),
            i <= ts@.len(),
            forall|j: int|
                0 <= j < r@.len() ==> store.has((#[trigger] r@[j]).0) && match r@[j].1 {
                    HelperState::Start => false,
                    HelperState::Inner(s) => a.is_state(s.model()),
                },
            forall|p: Pkt, m: HelperState<Place<T>>, x: Pkt|
                #![trigger listed(*store, r@, p, m, x)]
                p.len() == n && x.len() == n ==> listed(*store, r@, p, m, x) == (match m {
                    HelperState::Start => false,
                    HelperState::Inner(s) => allowed(a, end, s) && preceded(
                        o,
                        before,
                        ts@.take(i as int),
                        p,
                        s,
                        x,
                    ),
                }),
        decreases ts.len() - i,
    {
        let ghost s0 = *store;
        let ghost r0 = r@;
        let ghost t = ts@[i as int];
        let ghost tm = t.1.model();
        proof {
            assert(o.has(ts@[i as int].0) && a.is_state(ts@[i as int].1.model()));
            a.lemma_valid(s0, o);
            assert(ts@.take(i + 1) =~= ts@.take(i as int).push(t));
        }
        let b = a.is_visible(store, &ts[i].1);
        let is_end = match end {
            Some(e) => ts[i].1.same(e),
            None => false,
        };
        let ok = !b || is_end;
        let ghost s1 = *store;
        let spp = match before {
            Some(f) => store.sequence(f, ts[i].0),
            None => ts[i].0,
        };
        let ghost s2 = *store;
        proof {
            lemma_listed_ext(s2, s0, r0);
            assert(ok == allowed(a, end, tm));
            assert forall|p: Pkt, x: Pkt| #![trigger s2.rel(spp, p, x)]
                p.len() == n && x.len() == n implies s2.rel(spp, p, x) == first_then(
                o,
                before,
                t.0,
                p,
                x,
            ) by {
                match before {
                    Some(f) => {
                        if s2.rel(spp, p, x) {
                            let y = choose|y: Pkt|
                                y.len() == n && #[trigger] s1.rel(f, p, y) && s1.rel(t.0, y, x);
                            assert(o.rel(f, p, y) && o.rel(t.0, y, x));
                        }
                        if first_then(o, before, t.0, p, x) {
                            let y = choose|y: Pkt|
                                y.len() == o.n() && #[trigger] o.rel(f, p, y) && o.rel(t.0, y, x);
                            assert(s1.rel(f, p, y) && s1.rel(t.0, y, x));
                        }
                    },
                    None => {
                        assert(s2.rel(t.0, p, x) == o.rel(t.0, p, x));
                    },
                }
            }
        }
        if ok {
            let q = HelperState::Inner(ts[i].1.dup());
            proof {
                assert(q.model() == HelperState::<Place<T>>::Inner(tm));
            }
            r.push((spp, q));
        }
        proof {
            assert forall|j: int| 0 <= j < r@.len() implies s2.has((#[trigger] r@[j]).0)
                && match r@[j].1 {
                HelperState::Start => false,
                HelperState::Inner(s) => a.is_state(s.model()),
            } by {
                if j < r0.len() {
                    assert(r@[j] == r0[j]);
                    assert(s0.has(r0[j].0));
                }
            }
            assert forall|p: Pkt, m: HelperState<Place<T>>, x: Pkt|
                #![trigger listed(s2, r@, p, m, x)]
                p.len() == n && x.len() == n implies listed(s2, r@, p, m, x) == (match m {
                HelperState::Start => false,
                HelperState::Inner(s) => allowed(a, end, s) && preceded(
                    o,
                    before,
                    ts@.take(i + 1),
                    p,
                    s,
                    x,
                ),
            }) by {
                assert(listed(s2, r0, p, m, x) == listed(s0, r0, p, m, x));
                if ok {
                    let e = r@[r0.len() as int];
                    assert(r@ =~= r0.push(e));
                    lemma_listed_push(s2, r0, e, p, m, x);
                }
                if let HelperState::Inner(s) = m {
                    lemma_preceded_push(o, before, ts@.take(i as int), t, p, s, x);
                }
            }
        }
        i = i + 1;
    }
    proof {
        assert(ts@.take(i as int) =~= ts@);
    }
    r
}

/// The state is invisible, or the given one.
pub open spec fn allowed<T: ENFA>(a: &T, end: Option<&T::State>, s: Place<T>) -> bool {
    !a.vis(s) || (end matches Some(e) && e.model() == s)
}

/// A step of `before`, if there is one, and then one of `spp`.
spec fn first_then(st: SPPstore, before: Option<SPP>, spp: SPP, p: Pkt, x: Pkt) -> bool {
    match before {
        Some(f) => exists|y: Pkt|
            y.len() == st.n() && #[trigger] st.rel(f, p, y) && st.rel(spp, y, x),
        None => st.rel(spp, p, x),
    }
}

/// A step of `before`, if there is one, and then a transition of the list.
spec fn preceded<S: StateKey>(
    st: SPPstore,
    before: Option<SPP>,
    ts: Seq<(SPP, S)>,
    p: Pkt,
    r: S::M,
    x: Pkt,
) -> bool {
    match before {
        Some(f) => exists|y: Pkt|
            y.len() == st.n() && #[trigger] st.rel(f, p, y) && listed(st, ts, y, r, x),
        None => listed(st, ts, p, r, x),
    }
}

proof fn lemma_preceded_push<S: StateKey>(
    st: SPPstore,
    before: Option<SPP>,
    ts: Seq<(SPP, S)>,
    t: (SPP, S),
    p: Pkt,
    r: S::M,
    x: Pkt,
)
    ensures
        preceded(st, before, ts.push(t), p, r, x) <==> preceded(st, before, ts, p, r, x) || (
        t.1.model() == r && first_then(st, before, t.0, p, x)),
{
    match before {
        None => {
            lemma_listed_push(st, ts, t, p, r, x);
        },
        Some(f) => {
            assert forall|y: Pkt| #[trigger] listed(st, ts.push(t), y, r, x) <==> listed(
                st,
                ts,
                y,
                r,
                x,
            ) || (st.rel(t.0, y, x) && t.1.model() == r) by {
                lemma_listed_push(st, ts, t, y, r, x);
            }
            if preceded(st, before, ts.push(t), p, r, x) {
                let y = choose|y: Pkt|
                    y.len() == st.n() && #[trigger] st.rel(f, p, y) && listed(
                        st,
                        ts.push(t),
                        y,
                        r,
                        x,
                    );
                assert(listed(st, ts, y, r, x) || (st.rel(t.0, y, x) && t.1.model() == r));
            }
            if preceded(st, before, ts, p, r, x) {
                let y = choose|y: Pkt|
                    y.len() == st.n() && #[trigger] st.rel(f, p, y) && listed(st, ts, y, r, x);
                assert(listed(st, ts.push(t), y, r, x));
            }
            if t.1.model() == r && first_then(st, before, t.0, p, x) {
                let y = choose|y: Pkt|
                    y.len() == st.n() && #[trigger] st.rel(f, p, y) && st.rel(t.0, y, x);
                assert(listed(st, ts.push(t), y, r, x));
            }
        },
    }
}

// ---- between two visible states ----------------------------------------------------------------

/// From a start, by a pinned packet at the source, over invisible states to a
/// visible end.
pub struct ElaborateStepHelper<'a, T: ENFA> {
    pub inner: &'a T,
    /// Relates every packet to the packet at the source.
    pub start_to_source_spp: SPP,
    pub source: T::State,
    pub end: T::State,
    pub end_output: SPP,
}

/// A step of the relation, and then one of the automaton from the source.
pub open spec fn first_step<T: ENFA>(
    a: &T,
    st: SPPstore,
    force: SPP,
    source: Place<T>,
    p: Pkt,
    r: Place<T>,
    x: Pkt,
) -> bool {
    exists|y: Pkt| y.len() == st.n() && #[trigger] st.rel(force, p, y) && a.step(st, source, y, r, x)
}

proof fn lemma_first_step_ext<T: ENFA>(
    a: &T,
    st: SPPstore,
    o: SPPstore,
    force: SPP,
    source: Place<T>,
    p: Pkt,
    r: Place<T>,
    x: Pkt,
)
    requires
        o.wf(),
        st.extends(&o),
        a.valid(o),
        a.is_state(source),
        o.has(force),
        p.len() == o.n(),
        x.len() == o.n(),
    ensures
        first_step(a, st, force, source, p, r, x) == first_step(a, o, force, source, p, r, x),
{
    a.lemma_valid(st, o);
    if first_step(a, st, force, source, p, r, x) {
        let y = choose|y: Pkt|
            y.len() == st.n() && #[trigger] st.rel(force, p, y) && a.step(st, source, y, r, x);
        assert(o.rel(force, p, y) && a.step(o, source, y, r, x));
    }
    if first_step(a, o, force, source, p, r, x) {
        let y = choose|y: Pkt|
            y.len() == o.n() && #[trigger] o.rel(force, p, y) && a.step(o, source, y, r, x);
        assert(st.rel(force, p, y) && a.step(st, source, y, r, x));
    }
}

impl<'a, T: ENFA> ENFA for ElaborateStepHelper<'a, T> {
    type State = HelperState<T::State>;

    open spec fn valid(&self, st: SPPstore) -> bool {
        &&& self.inner.valid(st)
        &&& self.inner.is_state(self.source.model())
        &&& self.inner.is_state(self.end.model())
        &&& st.has(self.start_to_source_spp)
        &&& st.has(self.end_output)
    }

    open spec fn is_state(&self, q: HelperState<Place<T>>) -> bool {
        q matches HelperState::Inner(s) ==> self.inner.is_state(s)
    }

    open spec fn init(&self) -> HelperState<Place<T>> {
        HelperState::Start
    }

    open spec fn vis(&self, q: HelperState<Place<T>>) -> bool {
        true
    }

    open spec fn step(
        &self,
        st: SPPstore,
        q: HelperState<Place<T>>,
        p: Pkt,
        r: HelperState<Place<T>>,
        x: Pkt,
    ) -> bool {
        r matches HelperState::Inner(m) && allowed(self.inner, Some(&self.end), m) && match q {
            HelperState::Start => first_step(
                self.inner,
                st,
                self.start_to_source_spp,
                self.source.model(),
                p,
                m,
                x,
            ),
            HelperState::Inner(s) => s != self.end.model() && self.inner.step(st, s, p, m, x),
        }
    }

    open spec fn out(&self, st: SPPstore, q: HelperState<Place<T>>, p: Pkt, x: Pkt) -> bool {
        q matches HelperState::Inner(s) && s == self.end.model() && st.rel(self.end_output, p, x)
    }

    proof fn lemma_valid(&self, st: SPPstore, o: SPPstore) {
        self.inner.lemma_valid(st, o);
        assert forall|
            q: HelperState<Place<T>>,
            p: Pkt,
            r: HelperState<Place<T>>,
            x: Pkt,
        |
            #![trigger self.step(st, q, p, r, x)]
            #![trigger self.step(o, q, p, r, x)]
            self.is_state(q) && p.len() == o.n() && x.len() == o.n() implies self.step(
            st,
            q,
            p,
            r,
            x,
        ) == self.step(o, q, p, r, x) by {
            if let HelperState::Inner(m) = r {
                lemma_first_step_ext(
                    self.inner,
                    st,
                    o,
                    self.start_to_source_spp,
                    self.source.model(),
                    p,
                    m,
                    x,
                );
            }
        }
    }

    proof fn lemma_states(&self, st: SPPstore) {
        self.inner.lemma_states(st);
        assert forall|
            q: HelperState<Place<T>>,
            p: Pkt,
            r: HelperState<Place<T>>,
            x: Pkt,
        | #[trigger]
            self.step(st, q, p, r, x) && self.is_state(q) && p.len() == st.n() && x.len()
                == st.n() implies self.is_state(r) by {
            if let HelperState::Inner(m) = r {
                match q {
                    HelperState::Start => {
                        let y = choose|y: Pkt|
                            y.len() == st.n() && #[trigger] st.rel(self.start_to_source_spp, p, y)
                                && self.inner.step(st, self.source.model(), y, m, x);
                        assert(self.inner.step(st, self.source.model(), y, m, x));
                    },
                    HelperState::Inner(s) => {
                        assert(self.inner.step(st, s, p, m, x));
                    },
                }
            }
        }
    }

    fn start(&self, store: &mut SPPstore) -> (q: HelperState<T::State>) {
        HelperState::Start
    }

    fn is_visible(&self, store: &mut SPPstore, q: &HelperState<T::State>) -> (b: bool) {
        true
    }

    fn transitions(&self, store: &mut SPPstore, q: &HelperState<T::State>) -> (ts: Vec<
        (SPP, HelperState<T::State>),
    >) {
        let ghost o = *store;
        let ghost n = o.n();
        match q {
            HelperState::Start => {
                let ts = self.inner.transitions(store, &self.source);
                let ghost s1 = *store;
                proof {
                    self.inner.lemma_valid(s1, o);
                }
                let r = helper_transitions(
                    self.inner,
                    store,
                    ts,
                    Some(&self.end),
                    Some(self.start_to_source_spp),
                );
                proof {
                    let f = self.start_to_source_spp;
                    let z = self.source.model();
                    assert forall|p: Pkt, m: HelperState<Place<T>>, x: Pkt|
                        #![trigger self.step(o, q.model(), p, m, x)]
                        #![trigger listed(*store, r@, p, m, x)]
                        p.len() == n && x.len() == n implies self.step(o, q.model(), p, m, x)
                        == listed(*store, r@, p, m, x) by {
                        if let HelperState::Inner(s) = m {
                            if preceded(s1, Some(f), ts@, p, s, x) {
                                let y = choose|y: Pkt|
                                    y.len() == s1.n() && #[trigger] s1.rel(f, p, y) && listed(
                                        s1,
                                        ts@,
                                        y,
                                        s,
                                        x,
                                    );
                                assert(o.rel(f, p, y));
                                assert(self.inner.step(o, z, y, s, x));
                            }
                            if first_step(self.inner, o, f, z, p, s, x) {
                                let y = choose|y: Pkt|
                                    y.len() == o.n() && #[trigger] o.rel(f, p, y)
                                        && self.inner.step(o, z, y, s, x);
                                assert(s1.rel(f, p, y) && listed(s1, ts@, y, s, x));
                            }
                        }
                    }
                }
                r
            },
            HelperState::Inner(s) => {
                if s.same(&self.end) {
                    let r: Vec<(SPP, HelperState<T::State>)> = Vec::new();
                    return r;
                }
                let ts = self.inner.transitions(store, s);
                let ghost s1 = *store;
                proof {
                    self.inner.lemma_valid(s1, o);
                }
                let r = helper_transitions(self.inner, store, ts, Some(&self.end), None);
                proof {
                    assert forall|p: Pkt, m: HelperState<Place<T>>, x: Pkt|
                        #![trigger self.step(o, q.model(), p, m, x)]
                        #![trigger listed(*store, r@, p, m, x)]
                        p.len() == n && x.len() == n implies self.step(o, q.model(), p, m, x)
                        == listed(*store, r@, p, m, x) by {
                        if let HelperState::Inner(y) = m {
                            assert(self.inner.step(o, s.model(), p, y, x) == listed(
                                s1,
                                ts@,
                                p,
                                y,
                                x,
                            ));
                        }
                    }
                }
                r
            },
        }
    }

    fn output(&self, store: &mut SPPstore, q: &HelperState<T::State>) -> (y: SPP) {
        proof {
            store.lemma_wf();
        }
        match q {
            HelperState::Start => store.zero,
            HelperState::Inner(s) => {
                if s.same(&self.end) {
                    self.end_output
                } else {
                    store.zero
                }
            },
        }
    }
}

/// The path without its first `k` states, as a path of the inner automaton.
fn inner_path<S: StateKey>(path: &Vec<(HelperState<S>, Vec<bool>)>, k: usize) -> (r: Vec<
    (S, Vec<bool>),
>)
    requires
        k <= path@.len(),
        forall|i: int| k <= i < path@.len() ==> !((#[trigger] path@[i]).0 is Start),
    ensures
        r@.len() == path@.len() - k,
        forall|i: int|
            0 <= i < r@.len() ==> path@[i + k].0.model() == HelperState::<S::M>::Inner(
                (#[trigger] r@[i]).0.model(),
            ) && r@[i].1@ == path@[i + k].1@,
{
    let mut r: Vec<(S, Vec<bool>)> = Vec::new();
    let mut i: usize = k;
    while i < path.len()
        invariant
            k <= i <= path@.len(),
            r@.len() == i - k,
            forall|j: int| k <= j < path@.len() ==> !((#[trigger] path@[j]).0 is Start),
            forall|j: int|
                0 <= j < r@.len() ==> path@[j + k].0.model() == HelperState::<S::M>::Inner(
                    (#[trigger] r@[j]).0.model(),
                ) && r@[j].1@ == path@[j + k].1@,
        decreases path.len() - i,
    {
        match &path[i].0 {
            HelperState::Inner(s) => {
                r.push((s.dup(), copy_bits(&path[i].1)));
            },
            HelperState::Start => {},
        }
        i = i + 1;
    }
    r
}

/// A path from the source: invisible states, and then the destination.
pub open spec fn bridges<T: ENFA>(
    a: &T,
    st: SPPstore,
    q: Place<T>,
    p: Pkt,
    rest: Seq<(Place<T>, Pkt)>,
    r: Place<T>,
    x: Pkt,
) -> bool {
    &&& is_path(a, st, seq![(q, p)] + rest)
    &&& rest.len() >= 1
    &&& rest.last() == (r, x)
    &&& forall|i: int| 0 <= i < rest.len() - 1 ==> !a.vis((#[trigger] rest[i]).0)
}

/// The states after a visible one, up to the next visible one: some path of the
/// automaton for a step of its closure.
pub fn elaborate_step<T: ENFA>(
    inner: &T,
    store: &mut SPPstore,
    q_source: &T::State,
    p_source: &[bool],
    q_dest: &T::State,
    p_dest: &[bool],
) -> (r: Vec<(T::State, Vec<bool>)>)
    requires
        old(store).wf(),
        inner.valid(*old(store)),
        inner.is_state(q_source.model()),
        p_source@.len() == old(store).n(),
        p_dest@.len() == old(store).n(),
        closed_step(
            inner,
            *old(store),
            q_source.model(),
            p_source@,
            q_dest.model(),
            p_dest@,
        ),
    ensures
        final(store).wf(),
        final(store).extends(old(store)),
        bridges(
            inner,
            *old(store),
            q_source.model(),
            p_source@,
            path_of(r@),
            q_dest.model(),
            p_dest@,
        ),
{
    let ghost o = *store;
    let ghost n = o.n();
    let ghost (z, e) = (q_source.model(), q_dest.model());
    let start_spp = force_output_spp(store, p_source);
    let ghost s1 = *store;
    let output_spp = filter_input_spp(store, p_dest);
    let ghost s2 = *store;
    proof {
        inner.lemma_valid(s1, o);
        inner.lemma_valid(s2, s1);
        inner.lemma_states(o);
        let (m, y) = choose|m: Place<T>, y: Pkt| #[trigger]
            hides(inner, o, z, p_source@, m, y) && inner.step(o, m, y, e, p_dest@);
        let hp = choose|path: Seq<(Place<T>, Pkt)>| #[trigger]
            hidden_path(inner, o, z, p_source@, path) && path.last() == (m, y);
        lemma_path_states(inner, o, hp, hp.len() - 1);
        assert(hp[hp.len() - 1].1.len() == n);
    }
    let helper = ElaborateStepHelper {
        inner,
        start_to_source_spp: start_spp,
        source: q_source.dup(),
        end: q_dest.dup(),
        end_output: output_spp,
    };
    proof {
        assert forall|p: Pkt, x: Pkt| #![trigger s2.rel(start_spp, p, x)]
            p.len() == n && x.len() == n implies (s2.rel(start_spp, p, x) <==> x
            == p_source@) by {
            assert(s1.rel(start_spp, p, x) == s2.rel(start_spp, p, x));
        }
        lemma_bridge_exists(&helper, s2, o, p_source@, p_dest@);
    }
    let found = get_any_trace_with_states(&helper, store);
    match found {
        None => {
            proof {
                assert(false);
            }
            Vec::new()
        },
        Some((path, output)) => {
            let ghost m = path_of(path@);
            proof {
                lemma_helper_path(&helper, s2, m);
                assert forall|i: int| 1 <= i < path@.len() implies !(
                (#[trigger] path@[i]).0 is Start) by {
                    assert(m[i].0 is Inner);
                    assert(m[i].0 == path@[i].0.model());
                }
            }
            let r = inner_path(&path, 1);
            proof {
                assert forall|i: int| 0 <= i < r@.len() implies m[i + 1].0
                    == HelperState::<Place<T>>::Inner((#[trigger] path_of(r@)[i]).0)
                    && path_of(r@)[i].1 == m[i + 1].1 by {
                    assert(path@[i + 1].0.model() == HelperState::<Place<T>>::Inner(
                        r@[i].0.model(),
                    ));
                }
                lemma_bridge(&helper, s2, o, m, path_of(r@), p_source@, p_dest@, output@);
            }
            r
        },
    }
}

/// All but the first state of a run of the helper are inner states.
proof fn lemma_helper_path<'a, T: ENFA>(
    h: &ElaborateStepHelper<'a, T>,
    st: SPPstore,
    m: Seq<(HelperState<Place<T>>, Pkt)>,
)
    requires
        is_path(h, st, m),
    ensures
        forall|i: int| 1 <= i < m.len() ==> (#[trigger] m[i]).0 is Inner,
{
    assert forall|i: int| 1 <= i < m.len() implies (#[trigger] m[i]).0 is Inner by {
        assert(moves(h, st, m, i - 1));
    }
}

/// A step of the closure is a run of the helper.
proof fn lemma_bridge_exists<'a, T: ENFA>(
    h: &ElaborateStepHelper<'a, T>,
    st: SPPstore,
    o: SPPstore,
    p: Pkt,
    x: Pkt,
)
    requires
        o.wf(),
        st.wf(),
        st.extends(&o),
        h.valid(st),
        h.inner.valid(o),
        p.len() == o.n(),
        x.len() == o.n(),
        closed_step(h.inner, o, h.source.model(), p, h.end.model(), x),
        forall|y: Pkt, v: Pkt|
            #![trigger st.rel(h.start_to_source_spp, y, v)]
            y.len() == o.n() && v.len() == o.n() ==> (st.rel(h.start_to_source_spp, y, v) <==> v
                == p),
        forall|y: Pkt, v: Pkt|
            #![trigger st.rel(h.end_output, y, v)]
            y.len() == o.n() && v.len() == o.n() ==> (st.rel(h.end_output, y, v) <==> y == x),
    ensures
        inhabited(h, st),
{
    let a = h.inner;
    let n = o.n();
    let (z, e) = (h.source.model(), h.end.model());
    let (m, y) = choose|m: Place<T>, y: Pkt| #[trigger]
        hides(a, o, z, p, m, y) && a.step(o, m, y, e, x);
    let hp = choose|path: Seq<(Place<T>, Pkt)>| #[trigger]
        hidden_path(a, o, z, p, path) && path.last() == (m, y);
    a.lemma_valid(st, o);
    let full = hp.push((e, x));
    assert(a.vis(e));
    assert(forall|i: int| 1 <= i < hp.len() ==> (#[trigger] hp[i]).0 != e);
    let path = Seq::new(
        full.len(),
        |i: int|
            if i == 0 {
                (HelperState::<Place<T>>::Start, p)
            } else {
                (HelperState::Inner(full[i].0), full[i].1)
            },
    );
    assert forall|i: int| 0 <= i < path.len() - 1 implies #[trigger] moves(h, st, path, i) by {
        if i < hp.len() - 1 {
            assert(moves(a, o, hp, i));
            assert(!a.vis(hp[i + 1].0));
        }
        lemma_path_states(a, o, hp, if i < hp.len() {
            i
        } else {
            hp.len() - 1
        });
        let (q1, p1) = full[i];
        let (q2, p2) = full[i + 1];
        assert(hp[i].1.len() == n);
        assert(p2.len() == n) by {
            if i + 1 < hp.len() {
                assert(hp[i + 1].1.len() == n);
            }
        }
        assert(a.step(o, q1, p1, q2, p2));
        assert(a.step(st, q1, p1, q2, p2));
        assert(allowed(a, Some(&h.end), q2));
        if i == 0 {
            assert(st.rel(h.start_to_source_spp, p, p));
            assert(first_step(a, st, h.start_to_source_spp, z, p, q2, p2));
        } else {
            assert(q1 == hp[i].0);
            assert(q1 != e);
        }
    }
    assert forall|i: int| 0 <= i < path.len() implies (#[trigger] path[i]).1.len() == st.n() by {
        if 0 < i < hp.len() {
            assert(hp[i].1.len() == n);
        }
    }
    assert(is_path(h, st, path));
    let last = HelperState::<Place<T>>::Inner(e);
    assert(path.last() == (last, x));
    assert(arrives(h, st, last, x));
    assert(h.out(st, last, x, x));
    lemma_inhabited(h, st);
}

/// A run of the helper is a bridge.
proof fn lemma_bridge<'a, T: ENFA>(
    h: &ElaborateStepHelper<'a, T>,
    st: SPPstore,
    o: SPPstore,
    m: Seq<(HelperState<Place<T>>, Pkt)>,
    rest: Seq<(Place<T>, Pkt)>,
    p: Pkt,
    x: Pkt,
    output: Pkt,
)
    requires
        o.wf(),
        st.wf(),
        st.extends(&o),
        h.valid(st),
        h.inner.valid(o),
        p.len() == o.n(),
        x.len() == o.n(),
        output.len() == o.n(),
        forall|y: Pkt, v: Pkt|
            #![trigger st.rel(h.start_to_source_spp, y, v)]
            y.len() == o.n() && v.len() == o.n() ==> (st.rel(h.start_to_source_spp, y, v) <==> v
                == p),
        forall|y: Pkt, v: Pkt|
            #![trigger st.rel(h.end_output, y, v)]
            y.len() == o.n() && v.len() == o.n() ==> (st.rel(h.end_output, y, v) <==> y == x),
        is_path(h, st, m),
        m[0].0 == HelperState::<Place<T>>::Start,
        h.out(st, m.last().0, m.last().1, output),
        rest.len() == m.len() - 1,
        forall|i: int|
            0 <= i < rest.len() ==> m[i + 1].0 == HelperState::<Place<T>>::Inner(
                (#[trigger] rest[i]).0,
            ) && rest[i].1 == m[i + 1].1,
    ensures
        bridges(h.inner, o, h.source.model(), p, rest, h.end.model(), x),
{
    let a = h.inner;
    let n = o.n();
    let (z, e) = (h.source.model(), h.end.model());
    a.lemma_valid(st, o);
    a.lemma_states(o);
    let full = seq![(z, p)] + rest;
    assert(rest.len() >= 1) by {
        if m.len() == 1 {
            assert(m.last() == m[0]);
        }
    }
    assert(m[m.len() - 1].1.len() == n);
    assert(rest[rest.len() - 1].0 == e) by {
        assert(m[rest.len() as int].0 == HelperState::<Place<T>>::Inner(rest[rest.len() - 1].0));
    }
    assert(rest.last() == (e, x));
    assert forall|i: int| 0 <= i < full.len() implies (#[trigger] full[i]).1.len() == n by {
        if i > 0 {
            assert(full[i] == rest[i - 1]);
            assert(m[i].1.len() == n);
        }
    }
    assert forall|i: int| 0 <= i < rest.len() implies allowed(
        a,
        Some(&h.end),
        (#[trigger] rest[i]).0,
    ) by {
        assert(moves(h, st, m, i));
    }
    assert forall|i: int| 0 <= i < rest.len() - 1 implies (#[trigger] rest[i]).0 != e by {
        assert(moves(h, st, m, i + 1));
        assert(m[i + 1].0 == HelperState::<Place<T>>::Inner(rest[i].0));
    }
    lemma_bridge_moves(h, st, o, m, rest, p, full.len() - 1);
    assert forall|i: int| 0 <= i < rest.len() - 1 implies !a.vis((#[trigger] rest[i]).0) by {
        assert(allowed(a, Some(&h.end), rest[i].0));
    }
}

proof fn lemma_bridge_moves<'a, T: ENFA>(
    h: &ElaborateStepHelper<'a, T>,
    st: SPPstore,
    o: SPPstore,
    m: Seq<(HelperState<Place<T>>, Pkt)>,
    rest: Seq<(Place<T>, Pkt)>,
    p: Pkt,
    k: int,
)
    requires
        o.wf(),
        st.wf(),
        st.extends(&o),
        h.valid(st),
        h.inner.valid(o),
        p.len() == o.n(),
        forall|y: Pkt, v: Pkt|
            #![trigger st.rel(h.start_to_source_spp, y, v)]
            y.len() == o.n() && v.len() == o.n() ==> (st.rel(h.start_to_source_spp, y, v) <==> v
                == p),
        is_path(h, st, m),
        m[0].0 == HelperState::<Place<T>>::Start,
        rest.len() == m.len() - 1,
        forall|i: int|
            0 <= i < rest.len() ==> m[i + 1].0 == HelperState::<Place<T>>::Inner(
                (#[trigger] rest[i]).0,
            ) && rest[i].1 == m[i + 1].1,
        0 <= k < m.len(),
    ensures
        forall|i: int|
            0 <= i < k ==> #[trigger] moves(
                h.inner,
                o,
                seq![(h.source.model(), p)] + rest,
                i,
            ),
        h.inner.is_state((seq![(h.source.model(), p)] + rest)[k].0),
    decreases k,
{
    let a = h.inner;
    let n = o.n();
    let z = h.source.model();
    let full = seq![(z, p)] + rest;
    a.lemma_valid(st, o);
    a.lemma_states(o);
    if k > 0 {
        lemma_bridge_moves(h, st, o, m, rest, p, k - 1);
        assert(moves(h, st, m, k - 1));
        assert(m[k - 1].1.len() == n && m[k].1.len() == n);
        assert(full[k] == rest[k - 1]);
        assert(m[k].0 == HelperState::<Place<T>>::Inner(rest[k - 1].0));
        if k == 1 {
            let y = choose|y: Pkt|
                y.len() == st.n() && #[trigger] st.rel(h.start_to_source_spp, m[0].1, y)
                    && a.step(st, z, y, rest[0].0, rest[0].1);
            assert(y == p);
            assert(a.step(o, z, p, rest[0].0, rest[0].1));
        } else {
            assert(full[k - 1] == rest[k - 2]);
            assert(m[k - 1].0 == HelperState::<Place<T>>::Inner(rest[k - 2].0));
            assert(a.step(st, full[k - 1].0, full[k - 1].1, full[k].0, full[k].1));
            assert(a.step(o, full[k - 1].0, full[k - 1].1, full[k].0, full[k].1));
        }
        assert(moves(a, o, full, k - 1));
    }
}

// ---- after the last visible state -----------------------------------------------------------------

/// From a start, by a pinned packet at the source, over invisible states to an
/// output of the given packet.
pub struct ElaborateTailHelper<'a, T: ENFA> {
    pub inner: &'a T,
    /// Relates every packet to the packet at the source.
    pub start_to_source_spp: SPP,
    pub source: T::State,
    /// Relates every packet to the output.
    pub force_output: SPP,
}

impl<'a, T: ENFA> ENFA for ElaborateTailHelper<'a, T> {
    type State = HelperState<T::State>;

    open spec fn valid(&self, st: SPPstore) -> bool {
        &&& self.inner.valid(st)
        &&& self.inner.is_state(self.source.model())
        &&& st.has(self.start_to_source_spp)
        &&& st.has(self.force_output)
    }

    open spec fn is_state(&self, q: HelperState<Place<T>>) -> bool {
        q matches HelperState::Inner(s) ==> self.inner.is_state(s)
    }

    open spec fn init(&self) -> HelperState<Place<T>> {
        HelperState::Start
    }

    open spec fn vis(&self, q: HelperState<Place<T>>) -> bool {
        true
    }

    open spec fn step(
        &self,
        st: SPPstore,
        q: HelperState<Place<T>>,
        p: Pkt,
        r: HelperState<Place<T>>,
        x: Pkt,
    ) -> bool {
        r matches HelperState::Inner(m) && match q {
            HelperState::Start => m == self.source.model() && st.rel(
                self.start_to_source_spp,
                p,
                x,
            ),
            HelperState::Inner(s) => !self.inner.vis(m) && self.inner.step(st, s, p, m, x),
        }
    }

    open spec fn out(&self, st: SPPstore, q: HelperState<Place<T>>, p: Pkt, x: Pkt) -> bool {
        q matches HelperState::Inner(s) && self.inner.out(st, s, p, x) && st.rel(
            self.force_output,
            p,
            x,
        )
    }

    proof fn lemma_valid(&self, st: SPPstore, o: SPPstore) {
        self.inner.lemma_valid(st, o);
    }

    proof fn lemma_states(&self, st: SPPstore) {
        self.inner.lemma_states(st);
    }

    fn start(&self, store: &mut SPPstore) -> (q: HelperState<T::State>) {
        HelperState::Start
    }

    fn is_visible(&self, store: &mut SPPstore, q: &HelperState<T::State>) -> (b: bool) {
        true
    }

    fn transitions(&self, store: &mut SPPstore, q: &HelperState<T::State>) -> (ts: Vec<
        (SPP, HelperState<T::State>),
    >) {
        let ghost o = *store;
        let ghost n = o.n();
        match q {
            HelperState::Start => {
                let mut r: Vec<(SPP, HelperState<T::State>)> = Vec::new();
                let s = HelperState::Inner(self.source.dup());
                proof {
                    assert(s.model() == HelperState::<Place<T>>::Inner(self.source.model()));
                }
                r.push((self.start_to_source_spp, s));
                proof {
                    assert forall|p: Pkt, m: HelperState<Place<T>>, x: Pkt|
                        #![trigger self.step(o, q.model(), p, m, x)]
                        #![trigger listed(o, r@, p, m, x)]
                        p.len() == n && x.len() == n implies self.step(o, q.model(), p, m, x)
                        == listed(o, r@, p, m, x) by {
                        if self.step(o, q.model(), p, m, x) {
                            assert(r@[0].1.model() == m);
                            assert(o.rel(r@[0].0, p, x));
                        }
                    }
                }
                r
            },
            HelperState::Inner(s) => {
                let ts = self.inner.transitions(store, s);
                let ghost s1 = *store;
                proof {
                    self.inner.lemma_valid(s1, o);
                }
                let r = helper_transitions(self.inner, store, ts, None, None);
                proof {
                    assert forall|p: Pkt, m: HelperState<Place<T>>, x: Pkt|
                        #![trigger self.step(o, q.model(), p, m, x)]
                        #![trigger listed(*store, r@, p, m, x)]
                        p.len() == n && x.len() == n implies self.step(o, q.model(), p, m, x)
                        == listed(*store, r@, p, m, x) by {
                        if let HelperState::Inner(y) = m {
                            assert(self.inner.step(o, s.model(), p, y, x) == listed(
                                s1,
                                ts@,
                                p,
                                y,
                                x,
                            ));
                        }
                    }
                }
                r
            },
        }
    }

    fn output(&self, store: &mut SPPstore, q: &HelperState<T::State>) -> (y: SPP) {
        let ghost o = *store;
        match q {
            HelperState::Start => {
                proof {
                    store.lemma_wf();
                }
                store.zero
            },
            HelperState::Inner(s) => {
                let out = self.inner.output(store, s);
                let ghost s1 = *store;
                let y = store.intersect(out, self.force_output);
                proof {
                    assert forall|p: Pkt, x: Pkt|
                        #![trigger self.out(o, q.model(), p, x)]
                        #![trigger store.rel(y, p, x)]
                        p.len() == o.n() && x.len() == o.n() implies self.out(o, q.model(), p, x)
                        == store.rel(y, p, x) by {
                        assert(self.inner.out(o, s.model(), p, x) == s1.rel(out, p, x));
                        assert(s1.rel(self.force_output, p, x) == o.rel(self.force_output, p, x));
                    }
                }
                y
            },
        }
    }
}

/// The states after the last visible one: some path of the automaton, over
/// invisible states, to where the output is.  There are none if the last visible state
/// has the output itself.
pub fn elaborate_tail<T: ENFA>(
    inner: &T,
    store: &mut SPPstore,
    q_last: &T::State,
    p_last: &[bool],
    output_pkt: &[bool],
) -> (r: Vec<(T::State, Vec<bool>)>)
    requires
        old(store).wf(),
        inner.valid(*old(store)),
        inner.is_state(q_last.model()),
        p_last@.len() == old(store).n(),
        output_pkt@.len() == old(store).n(),
        closed_out(inner, *old(store), q_last.model(), p_last@, output_pkt@),
    ensures
        final(store).wf(),
        final(store).extends(old(store)),
        hidden_path(
            inner,
            *old(store),
            q_last.model(),
            p_last@,
            seq![(q_last.model(), p_last@)] + path_of(r@),
        ),
        inner.out(
            *old(store),
            (seq![(q_last.model(), p_last@)] + path_of(r@)).last().0,
            (seq![(q_last.model(), p_last@)] + path_of(r@)).last().1,
            output_pkt@,
        ),
        r@.len() == 0 <==> inner.out(*old(store), q_last.model(), p_last@, output_pkt@),
{
    let ghost b = *store;
    let ghost n = b.n();
    let ghost z = q_last.model();
    let direct = inner.output(store, q_last);
    if store.accepts(direct, p_last, output_pkt) {
        let none: Vec<(T::State, Vec<bool>)> = Vec::new();
        proof {
            assert(path_of(none@) =~= Seq::<(Place<T>, Pkt)>::empty());
            assert(seq![(z, p_last@)] + path_of(none@) =~= seq![(z, p_last@)]);
        }
        return none;
    }
    let ghost o = *store;
    proof {
        assert(!inner.out(b, z, p_last@, output_pkt@));
        inner.lemma_valid(o, b);
        lemma_closed_out_kept(inner, o, b, z, p_last@, output_pkt@);
    }
    let start_spp = force_output_spp(store, p_last);
    let ghost s1 = *store;
    let force_output = force_output_spp(store, output_pkt);
    let ghost s2 = *store;
    proof {
        inner.lemma_valid(s1, o);
        inner.lemma_valid(s2, s1);
    }
    let helper = ElaborateTailHelper {
        inner,
        start_to_source_spp: start_spp,
        source: q_last.dup(),
        force_output,
    };
    proof {
        assert forall|p: Pkt, x: Pkt| #![trigger s2.rel(start_spp, p, x)]
            p.len() == n && x.len() == n implies (s2.rel(start_spp, p, x) <==> x == p_last@) by {
            assert(s1.rel(start_spp, p, x) == s2.rel(start_spp, p, x));
        }
        lemma_tail_exists(&helper, s2, o, p_last@, output_pkt@);
    }
    let found = get_any_trace_with_states(&helper, store);
    match found {
        None => {
            proof {
                assert(false);
            }
            Vec::new()
        },
        Some((path, output)) => {
            let ghost m = path_of(path@);
            proof {
                assert forall|i: int| 1 <= i < m.len() implies (#[trigger] m[i]).0 is Inner by {
                    assert(moves(&helper, s2, m, i - 1));
                }
                assert forall|i: int| 1 <= i < path@.len() implies !(
                (#[trigger] path@[i]).0 is Start) by {
                    assert(m[i].0 is Inner);
                    assert(m[i].0 == path@[i].0.model());
                }
                assert(m.len() >= 2) by {
                    if m.len() == 1 {
                        assert(m.last() == m[0]);
                    }
                }
            }
            let r = inner_path(&path, 2);
            proof {
                assert forall|i: int| 0 <= i < r@.len() implies m[i + 2].0
                    == HelperState::<Place<T>>::Inner((#[trigger] path_of(r@)[i]).0)
                    && path_of(r@)[i].1 == m[i + 2].1 by {
                    assert(path@[i + 2].0.model() == HelperState::<Place<T>>::Inner(
                        r@[i].0.model(),
                    ));
                }
                lemma_tail_path(&helper, s2, o, m, path_of(r@), p_last@, output_pkt@, output@);
                let whole = seq![(z, p_last@)] + path_of(r@);
                lemma_hidden_back(inner, o, b, z, p_last@, whole);
                let k = whole.len() - 1;
                assert(whole[k] == whole.last());
                assert(inner.out(b, whole[k].0, whole[k].1, output_pkt@));
                if r@.len() == 0 {
                    assert(whole.last() == (z, p_last@));
                }
            }
            r
        },
    }
}

/// A path over invisible states of a store that has grown is one of the store before.
proof fn lemma_hidden_back<T: ENFA>(
    a: &T,
    st: SPPstore,
    o: SPPstore,
    z: Place<T>,
    p: Pkt,
    path: Seq<(Place<T>, Pkt)>,
)
    requires
        o.wf(),
        st.wf(),
        st.extends(&o),
        a.valid(o),
        a.is_state(z),
        hidden_path(a, st, z, p, path),
    ensures
        hidden_path(a, o, z, p, path),
        a.is_state(path.last().0),
        path.last().1.len() == o.n(),
{
    lemma_path_back(a, st, o, path, path.len() - 1);
}

/// An output over invisible states is kept when the store grows.
proof fn lemma_closed_out_kept<T: ENFA>(
    a: &T,
    st: SPPstore,
    o: SPPstore,
    z: Place<T>,
    p: Pkt,
    x: Pkt,
)
    requires
        o.wf(),
        st.wf(),
        st.extends(&o),
        a.valid(o),
        a.is_state(z),
        x.len() == o.n(),
        closed_out(a, o, z, p, x),
    ensures
        closed_out(a, st, z, p, x),
{
    let (m, y) = choose|m: Place<T>, y: Pkt| #[trigger]
        hides(a, o, z, p, m, y) && a.out(o, m, y, x);
    let hp = choose|path: Seq<(Place<T>, Pkt)>| #[trigger]
        hidden_path(a, o, z, p, path) && path.last() == (m, y);
    a.lemma_valid(st, o);
    assert forall|i: int| 0 <= i < hp.len() - 1 implies #[trigger] moves(a, st, hp, i) by {
        assert(moves(a, o, hp, i));
        lemma_path_states(a, o, hp, i);
        assert(hp[i].1.len() == o.n() && hp[i + 1].1.len() == o.n());
    }
    let k = hp.len() - 1;
    lemma_path_states(a, o, hp, k);
    assert(hp[k].1.len() == o.n());
    assert(hidden_path(a, st, z, p, hp));
    assert(hides(a, st, z, p, m, y));
    assert(a.out(st, m, y, x));
}

/// An output of the closure is a run of the helper.
proof fn lemma_tail_exists<'a, T: ENFA>(
    h: &ElaborateTailHelper<'a, T>,
    st: SPPstore,
    o: SPPstore,
    p: Pkt,
    x: Pkt,
)
    requires
        o.wf(),
        st.wf(),
        st.extends(&o),
        h.valid(st),
        h.inner.valid(o),
        p.len() == o.n(),
        x.len() == o.n(),
        closed_out(h.inner, o, h.source.model(), p, x),
        forall|y: Pkt, v: Pkt|
            #![trigger st.rel(h.start_to_source_spp, y, v)]
            y.len() == o.n() && v.len() == o.n() ==> (st.rel(h.start_to_source_spp, y, v) <==> v
                == p),
        forall|y: Pkt, v: Pkt|
            #![trigger st.rel(h.force_output, y, v)]
            y.len() == o.n() && v.len() == o.n() ==> (st.rel(h.force_output, y, v) <==> v == x),
    ensures
        inhabited(h, st),
{
    let a = h.inner;
    let n = o.n();
    let z = h.source.model();
    let (m, y) = choose|m: Place<T>, y: Pkt| #[trigger]
        hides(a, o, z, p, m, y) && a.out(o, m, y, x);
    let hp = choose|path: Seq<(Place<T>, Pkt)>| #[trigger]
        hidden_path(a, o, z, p, path) && path.last() == (m, y);
    a.lemma_valid(st, o);
    let path = Seq::new(
        hp.len() + 1,
        |i: int|
            if i == 0 {
                (HelperState::<Place<T>>::Start, p)
            } else {
                (HelperState::Inner(hp[i - 1].0), hp[i - 1].1)
            },
    );
    assert forall|i: int| 0 <= i < path.len() - 1 implies #[trigger] moves(h, st, path, i) by {
        if i == 0 {
            assert(st.rel(h.start_to_source_spp, p, p));
        } else {
            assert(moves(a, o, hp, i - 1));
            lemma_path_states(a, o, hp, i - 1);
            assert(hp[i - 1].1.len() == n && hp[i].1.len() == n);
            assert(!a.vis(hp[i].0));
        }
    }
    assert forall|i: int| 0 <= i < path.len() implies (#[trigger] path[i]).1.len() == st.n() by {
        if i > 0 {
            assert(hp[i - 1].1.len() == n);
        }
    }
    assert(is_path(h, st, path));
    let last = HelperState::<Place<T>>::Inner(m);
    assert(path.last() == (last, y));
    assert(arrives(h, st, last, y));
    lemma_path_states(a, o, hp, hp.len() - 1);
    assert(hp[hp.len() - 1].1.len() == n);
    assert(a.out(st, m, y, x));
    assert(st.rel(h.force_output, y, x));
    assert(h.out(st, last, y, x));
    lemma_inhabited(h, st);
}

/// A run of the helper is a path over invisible states to the output.
proof fn lemma_tail_path<'a, T: ENFA>(
    h: &ElaborateTailHelper<'a, T>,
    st: SPPstore,
    o: SPPstore,
    m: Seq<(HelperState<Place<T>>, Pkt)>,
    rest: Seq<(Place<T>, Pkt)>,
    p: Pkt,
    x: Pkt,
    output: Pkt,
)
    requires
        o.wf(),
        st.wf(),
        st.extends(&o),
        h.valid(st),
        h.inner.valid(o),
        p.len() == o.n(),
        x.len() == o.n(),
        output.len() == o.n(),
        forall|y: Pkt, v: Pkt|
            #![trigger st.rel(h.start_to_source_spp, y, v)]
            y.len() == o.n() && v.len() == o.n() ==> (st.rel(h.start_to_source_spp, y, v) <==> v
                == p),
        forall|y: Pkt, v: Pkt|
            #![trigger st.rel(h.force_output, y, v)]
            y.len() == o.n() && v.len() == o.n() ==> (st.rel(h.force_output, y, v) <==> v == x),
        is_path(h, st, m),
        m.len() >= 2,
        m[0].0 == HelperState::<Place<T>>::Start,
        h.out(st, m.last().0, m.last().1, output),
        rest.len() == m.len() - 2,
        forall|i: int|
            0 <= i < rest.len() ==> m[i + 2].0 == HelperState::<Place<T>>::Inner(
                (#[trigger] rest[i]).0,
            ) && rest[i].1 == m[i + 2].1,
    ensures
        hidden_path(
            h.inner,
            o,
            h.source.model(),
            p,
            seq![(h.source.model(), p)] + rest,
        ),
        h.inner.out(
            o,
            (seq![(h.source.model(), p)] + rest).last().0,
            (seq![(h.source.model(), p)] + rest).last().1,
            x,
        ),
{
    let a = h.inner;
    let n = o.n();
    let z = h.source.model();
    let full = seq![(z, p)] + rest;
    a.lemma_valid(st, o);
    assert(moves(h, st, m, 0));
    assert(m[0].1.len() == n && m[1].1.len() == n);
    assert(m[1].1 == p);
    assert forall|i: int| 0 <= i < full.len() implies m[i + 1] == (
        HelperState::<Place<T>>::Inner((#[trigger] full[i]).0),
        full[i].1,
    ) && full[i].1.len() == n by {
        if i > 0 {
            assert(full[i] == rest[i - 1]);
            assert(m[i + 1].1.len() == n);
        }
    }
    assert forall|i: int| 1 <= i < full.len() implies !a.vis((#[trigger] full[i]).0) by {
        assert(moves(h, st, m, i));
        assert(m[i + 1] == (HelperState::<Place<T>>::Inner(full[i].0), full[i].1));
        assert(m[i] == (HelperState::<Place<T>>::Inner(full[i - 1].0), full[i - 1].1));
    }
    lemma_tail_moves(h, st, o, m, full, full.len() - 1);
    assert(is_path(a, o, full));
    let k = full.len() - 1;
    assert(m.last() == (HelperState::<Place<T>>::Inner(full[k].0), full[k].1));
    assert(full.last() == full[k]);
    assert(output == x);
    assert(a.out(st, full[k].0, full[k].1, x));
}

proof fn lemma_tail_moves<'a, T: ENFA>(
    h: &ElaborateTailHelper<'a, T>,
    st: SPPstore,
    o: SPPstore,
    m: Seq<(HelperState<Place<T>>, Pkt)>,
    full: Seq<(Place<T>, Pkt)>,
    k: int,
)
    requires
        o.wf(),
        st.wf(),
        st.extends(&o),
        h.valid(st),
        h.inner.valid(o),
        is_path(h, st, m),
        full.len() == m.len() - 1,
        full.len() >= 1,
        full[0].0 == h.source.model(),
        forall|i: int|
            0 <= i < full.len() ==> m[i + 1] == (
                HelperState::<Place<T>>::Inner((#[trigger] full[i]).0),
                full[i].1,
            ) && full[i].1.len() == o.n(),
        0 <= k < full.len(),
    ensures
        forall|i: int| 0 <= i < k ==> #[trigger] moves(h.inner, o, full, i),
        h.inner.is_state(full[k].0),
    decreases k,
{
    if k > 0 {
        let a = h.inner;
        a.lemma_valid(st, o);
        a.lemma_states(o);
        lemma_tail_moves(h, st, o, m, full, k - 1);
        assert(moves(h, st, m, k));
        assert(m[k] == (HelperState::<Place<T>>::Inner(full[k - 1].0), full[k - 1].1));
        assert(m[k + 1] == (HelperState::<Place<T>>::Inner(full[k].0), full[k].1));
        assert(a.step(st, full[k - 1].0, full[k - 1].1, full[k].0, full[k].1));
        assert(a.step(o, full[k - 1].0, full[k - 1].1, full[k].0, full[k].1));
        assert(moves(a, o, full, k - 1));
    }
}

// ---- whole runs ----------------------------------------------------------------------------------

/// The packets of a path.
pub open spec fn packets_of<M>(path: Seq<(M, Pkt)>) -> Seq<Pkt> {
    path.map_values(|e: (M, Pkt)| e.1)
}

/// A path goes on with a bridge: its trace goes on with the packet at the end.
proof fn lemma_extend<T: ENFA>(
    a: &T,
    st: SPPstore,
    full: Seq<(Place<T>, Pkt)>,
    rest: Seq<(Place<T>, Pkt)>,
)
    requires
        is_path(a, st, full),
        is_path(a, st, seq![full.last()] + rest),
    ensures
        is_path(a, st, full + rest),
        (full + rest).last() == (seq![full.last()] + rest).last(),
        (full + rest)[0] == full[0],
        trace_of(a, full + rest) == trace_of(a, full) + seen(a, rest),
{
    let all = full + rest;
    let tail = seq![full.last()] + rest;
    assert forall|i: int| 0 <= i < all.len() - 1 implies #[trigger] moves(a, st, all, i) by {
        if i < full.len() - 1 {
            assert(moves(a, st, full, i));
        } else {
            let j = i - (full.len() - 1);
            assert(moves(a, st, tail, j));
            assert(tail[j] == all[i]);
            assert(tail[j + 1] == all[i + 1]);
        }
    }
    assert forall|i: int| 0 <= i < all.len() implies (#[trigger] all[i]).1.len() == st.n() by {
        if i < full.len() {
            assert(all[i] == full[i]);
        } else {
            let j = i - (full.len() - 1);
            assert(all[i] == tail[j]);
        }
    }
    assert(all.skip(1) =~= full.skip(1) + rest);
    lemma_seen_add(a, full.skip(1), rest);
    assert(trace_of(a, all) =~= trace_of(a, full) + seen(a, rest));
    if rest.len() > 0 {
        assert(all.last() == rest.last());
        assert(tail.last() == rest.last());
    } else {
        assert(all =~= full);
        assert(tail =~= seq![full.last()]);
    }
}

/// Only the last state of a bridge is seen.
proof fn lemma_seen_bridge<T: ENFA>(a: &T, rest: Seq<(Place<T>, Pkt)>)
    requires
        rest.len() >= 1,
        a.vis(rest.last().0),
        forall|i: int| 0 <= i < rest.len() - 1 ==> !a.vis((#[trigger] rest[i]).0),
    ensures
        seen(a, rest) == seq![rest.last().1],
{
    let front = rest.drop_last();
    assert forall|i: int| 0 <= i < front.len() implies !a.vis((#[trigger] front[i]).0) by {
        assert(front[i] == rest[i]);
    }
    lemma_seen_none(a, front);
    assert(seen(a, rest) =~= seq![rest.last().1]);
}

/// Appends copies of the entries.
fn append_path<S: StateKey>(full: &mut Vec<(S, Vec<bool>)>, more: &Vec<(S, Vec<bool>)>)
    ensures
        path_of(final(full)@) == path_of(old(full)@) + path_of(more@),
        final(full)@.len() == old(full)@.len() + more@.len(),
{
    let ghost f0 = full@;
    let mut i: usize = 0;
    while i < more.len()
        invariant
            i <= more@.len(),
            full@.len() == f0.len() + i,
            path_of(full@) == path_of(f0) + path_of(more@.take(i as int)),
        decreases more.len() - i,
    {
        let ghost f1 = full@;
        full.push((more[i].0.dup(), copy_bits(&more[i].1)));
        proof {
            assert(more@.take(i + 1) =~= more@.take(i as int).push(more@[i as int]));
            assert(path_of(full@) =~= path_of(f1).push(path_of(more@)[i as int]));
            assert(path_of(more@.take(i + 1)) =~= path_of(more@.take(i as int)).push(
                path_of(more@)[i as int],
            ));
            assert(path_of(full@) =~= path_of(f0) + path_of(more@.take(i + 1)));
        }
        i = i + 1;
    }
    proof {
        assert(more@.take(i as int) =~= more@);
        assert(path_of(full@) =~= path_of(f0) + path_of(more@));
    }
}

/// The entries of `a` are those of `b` at the positions `at`, in order.
pub open spec fn picked_at<A>(a: Seq<A>, b: Seq<A>, at: Seq<int>) -> bool {
    &&& at.len() == a.len()
    &&& forall|i: int| 0 <= i < at.len() ==> 0 <= #[trigger] at[i] < b.len() && b[at[i]] == a[i]
    &&& forall|i: int, j: int|
        #![trigger at[i], at[j]]
        0 <= i < j < at.len() ==> at[i] < at[j]
}

/// `a` is `b` with entries left out.
pub open spec fn subsequence<A>(a: Seq<A>, b: Seq<A>) -> bool {
    exists|at: Seq<int>| #[trigger] picked_at(a, b, at)
}

impl<T: ENFA> EpsilonClosure<T> {
    /// A run of the automaton for a run of its closure with an output: the same
    /// states and packets, with the invisible states between and after them.
    pub fn elaborate_trace(
        &self,
        store: &mut SPPstore,
        visible_path: &Vec<(T::State, Vec<bool>)>,
        output_pkt: &[bool],
    ) -> (full: Vec<(T::State, Vec<bool>)>)
        requires
            old(store).wf(),
            self.valid(*old(store)),
            is_path(self, *old(store), path_of(visible_path@)),
            self.is_state(path_of(visible_path@)[0].0),
            output_pkt@.len() == old(store).n(),
            self.out(
                *old(store),
                path_of(visible_path@).last().0,
                path_of(visible_path@).last().1,
                output_pkt@,
            ),
        ensures
            final(store).wf(),
            final(store).extends(old(store)),
            run_on(
                &self.inner,
                *old(store),
                path_of(visible_path@)[0].0,
                path_of(full@),
                packets_of(path_of(visible_path@)).push(output_pkt@),
            ),
            path_of(full@)[0] == path_of(visible_path@)[0],
            subsequence(path_of(visible_path@), path_of(full@)),
    {
        let ghost o = *store;
        let ghost n = o.n();
        let ghost vp = path_of(visible_path@);
        let ghost a = &self.inner;
        let mut full: Vec<(T::State, Vec<bool>)> = Vec::new();
        full.push((visible_path[0].0.dup(), copy_bits(&visible_path[0].1)));
        proof {
            assert(path_of(full@) =~= seq![vp[0]]);
            assert(vp[0].1.len() == n);
            assert(is_path(a, o, path_of(full@)));
            assert(path_of(full@).skip(1) =~= Seq::<(Place<T>, Pkt)>::empty());
            assert(trace_of(a, path_of(full@)) =~= packets_of(vp.take(1)));
        }
        let mut i: usize = 1;
        let ghost mut at: Seq<int> = seq![0int];
        proof {
            assert(vp.take(1) =~= seq![vp[0]]);
            assert(picked_at(vp.take(1), path_of(full@), at));
        }
        while i < visible_path.len()
            invariant
                store.wf(),
                o.wf(),
                store.extends(&o),
                n == o.n(),
                a == &self.inner,
                self.valid(o),
                vp == path_of(visible_path@),
                is_path(self, o, vp),
                self.is_state(vp[0].0),
                1 <= i <= visible_path@.len(),
                is_path(a, o, path_of(full@)),
                path_of(full@)[0] == vp[0],
                picked_at(vp.take(i as int), path_of(full@), at),
                at[i - 1] < path_of(full@).len(),
                path_of(full@).last() == vp[i - 1],
                trace_of(a, path_of(full@)) == packets_of(vp.take(i as int)),
            decreases visible_path.len() - i,
        {
            let ghost s0 = *store;
            let ghost f0 = path_of(full@);
            let ghost (q1, p1) = vp[i - 1];
            let ghost (q2, p2) = vp[i as int];
            proof {
                lemma_path_states(self, o, vp, i - 1);
                self.lemma_valid(s0, o);
                a.lemma_valid(s0, o);
                assert(moves(self, o, vp, i - 1));
                assert(vp[i - 1].1.len() == n && vp[i as int].1.len() == n);
                assert(self.step(s0, q1, p1, q2, p2));
            }
            let step = elaborate_step(
                &self.inner,
                store,
                &visible_path[i - 1].0,
                visible_path[i - 1].1.as_slice(),
                &visible_path[i].0,
                visible_path[i].1.as_slice(),
            );
            proof {
                let rest = path_of(step@);
                lemma_path_back(a, s0, o, seq![(q1, p1)] + rest, rest.len() as int);
                assert(f0.last() == (q1, p1));
                lemma_extend(a, o, f0, rest);
                lemma_seen_bridge(a, rest);
                assert(packets_of(vp.take(i + 1)) =~= packets_of(vp.take(i as int)).push(p2));
                assert((seq![(q1, p1)] + rest).last() == rest.last());
                assert(trace_of(a, f0 + rest) =~= packets_of(vp.take(i + 1)));
            }
            append_path(&mut full, &step);
            proof {
                let f1 = path_of(full@);
                let at0 = at;
                at = at0.push(f1.len() - 1);
                assert(f1[f1.len() - 1] == vp[i as int]);
                assert forall|j: int| 0 <= j < at.len() implies 0 <= #[trigger] at[j] < f1.len()
                    && f1[at[j]] == vp.take(i + 1)[j] by {
                    if j < i {
                        assert(at[j] == at0[j]);
                        assert(0 <= at0[j] < f0.len() && f0[at0[j]] == vp.take(i as int)[j]);
                    }
                }
                assert forall|j: int, k: int|
                    #![trigger at[j], at[k]]
                    0 <= j < k < at.len() implies at[j] < at[k] by {
                    assert(at[j] == at0[j]);
                    assert(0 <= at0[j] < f0.len());
                    if k < i {
                        assert(at[k] == at0[k]);
                    }
                }
                assert(picked_at(vp.take(i + 1), f1, at));
            }
            i = i + 1;
        }
        let ghost s0 = *store;
        let ghost f0 = path_of(full@);
        let last: usize = visible_path.len() - 1;
        let ghost (q, p) = vp[last as int];
        proof {
            assert(vp.take(i as int) =~= vp);
            lemma_path_states(self, o, vp, last as int);
            self.lemma_valid(s0, o);
            a.lemma_valid(s0, o);
            assert(vp[last as int].1.len() == n);
            assert(vp.last() == vp[last as int]);
            assert(self.out(s0, q, p, output_pkt@));
        }
        let tail = elaborate_tail(
            &self.inner,
            store,
            &visible_path[last].0,
            visible_path[last].1.as_slice(),
            output_pkt,
        );
        proof {
            let rest = path_of(tail@);
            let whole = seq![(q, p)] + rest;
            lemma_path_back(a, s0, o, whole, rest.len() as int);
            lemma_extend(a, o, f0, rest);
            assert forall|j: int| 0 <= j < rest.len() implies !a.vis((#[trigger] rest[j]).0) by {
                assert(whole[j + 1] == rest[j]);
            }
            lemma_seen_none(a, rest);
            let w = packets_of(vp).push(output_pkt@);
            assert(trace_of(a, f0 + rest) =~= packets_of(vp));
            assert(w.drop_last() =~= packets_of(vp));
            assert(whole[whole.len() - 1] == whole.last());
            assert(a.out(o, whole.last().0, whole.last().1, output_pkt@));
        }
        append_path(&mut full, &tail);
        proof {
            let f1 = path_of(full@);
            assert forall|j: int| 0 <= j < at.len() implies 0 <= #[trigger] at[j] < f1.len()
                && f1[at[j]] == vp[j] by {
                assert(0 <= at[j] < f0.len() && f0[at[j]] == vp[j]);
            }
            assert(picked_at(vp, f1, at));
        }
        full
    }
}

/// A path of a store that has grown is a path of the store before.
proof fn lemma_path_back<T: ENFA>(
    a: &T,
    st: SPPstore,
    o: SPPstore,
    path: Seq<(Place<T>, Pkt)>,
    k: int,
)
    requires
        o.wf(),
        st.wf(),
        st.extends(&o),
        a.valid(o),
        is_path(a, st, path),
        a.is_state(path[0].0),
        k == path.len() - 1,
    ensures
        is_path(a, o, path),
        a.is_state(path[k].0),
        path[k].1.len() == o.n(),
{
    a.lemma_valid(st, o);
    assert forall|i: int| 0 <= i < path.len() - 1 implies #[trigger] moves(a, o, path, i) by {
        assert(moves(a, st, path, i));
        lemma_path_states(a, st, path, i);
        assert(path[i].1.len() == o.n() && path[i + 1].1.len() == o.n());
    }
    lemma_path_states(a, st, path, k);
    assert(path[k].1.len() == o.n());
}

} // verus!
