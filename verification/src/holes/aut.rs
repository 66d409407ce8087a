//! Symbolic automata: states, and transitions that are relations on packets.
//!
//! An [`ENFA`] has visible and invisible states.  Entering a visible state
//! records the packet; entering an invisible one does not.  The first packet of
//! a word is the packet at the start state, whether or not that is visible, and
//! its last packet is an output of the state in which the run ends.
use vstd::prelude::*;
use vstd::slice::*;
use crate::lang::{is_word, lemma_tail, packets, pair, same, Lang, Word};
use crate::sp::Pkt;
use crate::spp::{SPPstore, SPP};

verus! {

// ---- states ------------------------------------------------------------------------

/// A type of states.  Two values are the same state if they have the same model.
pub trait StateKey: Sized {
    /// What a state stands for.
    type M;

    /// The state that this value stands for.
    spec fn model(&self) -> Self::M;

    /// Whether both are the same state.
    fn same(&self, o: &Self) -> (r: bool)
        ensures
            r == (self.model() == o.model()),
    ;

    /// The same state again.
    fn dup(&self) -> (r: Self)
        ensures
            r.model() == self.model(),
    ;
}

impl StateKey for usize {
    type M = usize;

    open spec fn model(&self) -> usize {
        *self
    }

    fn same(&self, o: &usize) -> (r: bool) {
        *self == *o
    }

    fn dup(&self) -> (r: usize) {
        *self
    }
}

impl StateKey for () {
    type M = ();

    open spec fn model(&self) -> () {
        ()
    }

    fn same(&self, o: &()) -> (r: bool) {
        true
    }

    fn dup(&self) -> (r: ()) {
        ()
    }
}

impl<A: StateKey, B: StateKey> StateKey for (A, B) {
    type M = (A::M, B::M);

    open spec fn model(&self) -> (A::M, B::M) {
        (self.0.model(), self.1.model())
    }

    fn same(&self, o: &(A, B)) -> (r: bool) {
        self.0.same(&o.0) && self.1.same(&o.1)
    }

    fn dup(&self) -> (r: (A, B)) {
        (self.0.dup(), self.1.dup())
    }
}

/// The models of a list of states.
pub open spec fn models<S: StateKey>(v: Seq<S>) -> Seq<S::M> {
    v.map_values(|s: S| s.model())
}

impl<S: StateKey> StateKey for Vec<S> {
    type M = Seq<S::M>;

    open spec fn model(&self) -> Seq<S::M> {
        models(self@)
    }

    fn same(&self, o: &Vec<S>) -> (r: bool) {
        if self.len() != o.len() {
            proof {
                assert(models(self@).len() != models(o@).len());
            }
            return false;
        }
        let mut i: usize = 0;
        while i < self.len()
            invariant
                self@.len() == o@.len(),
                i <= self@.len(),
                forall|j: int| 0 <= j < i ==> (#[trigger] self@[j]).model() == o@[j].model(),
            decreases self.len() - i,
        {
            if !self[i].same(&o[i]) {
                proof {
                    assert(models(self@)[i as int] != models(o@)[i as int]);
                }
                return false;
            }
            i = i + 1;
        }
        proof {
            assert(models(self@) =~= models(o@));
        }
        true
    }

    fn dup(&self) -> (r: Vec<S>) {
        let mut r: Vec<S> = Vec::new();
        let mut i: usize = 0;
        while i < self.len()
            invariant
                i <= self@.len(),
                r@.len() == i,
                forall|j: int| 0 <= j < i ==> (#[trigger] r@[j]).model() == self@[j].model(),
            decreases self.len() - i,
        {
            r.push(self[i].dup());
            i = i + 1;
        }
        proof {
            assert(models(r@) =~= models(self@));
        }
        r
    }
}

/// The position of a state in a list.
pub fn position<S: StateKey>(v: &Vec<S>, q: &S) -> (r: Option<usize>)
    ensures
        match r {
            Some(i) => i < v@.len() && v@[i as int].model() == q.model() && forall|j: int|
                0 <= j < i ==> (#[trigger] v@[j]).model() != q.model(),
            None => forall|j: int| 0 <= j < v@.len() ==> (#[trigger] v@[j]).model() != q.model(),
        },
{
    let mut i: usize = 0;
    while i < v.len()
        invariant
            i <= v@.len(),
            forall|j: int| 0 <= j < i ==> (#[trigger] v@[j]).model() != q.model(),
        decreases v.len() - i,
    {
        if v[i].same(q) {
            return Some(i);
        }
        i = i + 1;
    }
    None
}

// ---- automata ----------------------------------------------------------------------

/// What the states of an automaton stand for.
pub type Place<A> = <<A as ENFA>::State as StateKey>::M;

/// The list has a transition from `p` to state `r` with packet `q`.
pub open spec fn listed<S: StateKey>(
    st: SPPstore,
    ts: Seq<(SPP, S)>,
    p: Pkt,
    r: S::M,
    q: Pkt,
) -> bool {
    exists|i: int| 0 <= i < ts.len() && st.rel((#[trigger] ts[i]).0, p, q) && ts[i].1.model() == r
}

/// Nondeterministic symbolic automaton with invisible states.
///
/// There is one start state.  The first packet of a word is the packet there,
/// so the start state counts as visible at the start of a run, whatever
/// [`ENFA::is_visible`] says of it.
pub trait ENFA: Sized {
    /// The type of the states.
    type State: StateKey;

    /// The automaton's relations are of this store.
    spec fn valid(&self, st: SPPstore) -> bool;

    /// The state belongs to the automaton.
    spec fn is_state(&self, q: Place<Self>) -> bool;

    /// The start state.
    spec fn init(&self) -> Place<Self>;

    /// Entering the state records the packet.
    spec fn vis(&self, q: Place<Self>) -> bool;

    /// A transition leads from `q` with packet `p` to `r` with packet `x`.
    spec fn step(&self, st: SPPstore, q: Place<Self>, p: Pkt, r: Place<Self>, x: Pkt) -> bool;

    /// The state `q` with packet `p` outputs `x`.
    spec fn out(&self, st: SPPstore, q: Place<Self>, p: Pkt, x: Pkt) -> bool;

    /// A store that grows keeps the automaton.
    proof fn lemma_valid(&self, st: SPPstore, o: SPPstore)
        requires
            o.wf(),
            st.extends(&o),
            self.valid(o),
        ensures
            self.valid(st),
            forall|q: Place<Self>, p: Pkt, r: Place<Self>, x: Pkt|
                #![trigger self.step(st, q, p, r, x)]
                #![trigger self.step(o, q, p, r, x)]
                self.is_state(q) && p.len() == o.n() && x.len() == o.n() ==> self.step(
                    st,
                    q,
                    p,
                    r,
                    x,
                ) == self.step(o, q, p, r, x),
            forall|q: Place<Self>, p: Pkt, x: Pkt|
                #![trigger self.out(st, q, p, x)]
                #![trigger self.out(o, q, p, x)]
                self.is_state(q) && p.len() == o.n() && x.len() == o.n() ==> self.out(
                    st,
                    q,
                    p,
                    x,
                ) == self.out(o, q, p, x),
    ;

    /// The start state is a state, and transitions lead to states.
    proof fn lemma_states(&self, st: SPPstore)
        requires
            st.wf(),
            self.valid(st),
        ensures
            self.is_state(self.init()),
            forall|q: Place<Self>, p: Pkt, r: Place<Self>, x: Pkt| #[trigger]
                self.step(st, q, p, r, x) && self.is_state(q) && p.len() == st.n() && x.len()
                    == st.n() ==> self.is_state(r),
    ;

    /// The start state.
    fn start(&self, store: &mut SPPstore) -> (q: Self::State)
        requires
            old(store).wf(),
            self.valid(*old(store)),
        ensures
            final(store).wf(),
            final(store).extends(old(store)),
            q.model() == self.init(),
    ;

    /// Whether entering the state records the packet.
    fn is_visible(&self, store: &mut SPPstore, q: &Self::State) -> (b: bool)
        requires
            old(store).wf(),
            self.valid(*old(store)),
            self.is_state(q.model()),
        ensures
            final(store).wf(),
            final(store).extends(old(store)),
            b == self.vis(q.model()),
    ;

    /// The transitions from a state, each a relation and the state it leads to.
    fn transitions(&self, store: &mut SPPstore, q: &Self::State) -> (ts: Vec<(SPP, Self::State)>)
        requires
            old(store).wf(),
            self.valid(*old(store)),
            self.is_state(q.model()),
        ensures
            final(store).wf(),
            final(store).extends(old(store)),
            forall|i: int|
                0 <= i < ts@.len() ==> final(store).has((#[trigger] ts@[i]).0) && self.is_state(
                    ts@[i].1.model(),
                ),
            forall|p: Pkt, r: Place<Self>, x: Pkt|
                #![trigger self.step(*old(store), q.model(), p, r, x)]
                #![trigger listed(*final(store), ts@, p, r, x)]
                p.len() == old(store).n() && x.len() == old(store).n() ==> self.step(
                    *old(store),
                    q.model(),
                    p,
                    r,
                    x,
                ) == listed(*final(store), ts@, p, r, x),
    ;

    /// The relation between a packet at the state and the outputs.
    fn output(&self, store: &mut SPPstore, q: &Self::State) -> (y: SPP)
        requires
            old(store).wf(),
            self.valid(*old(store)),
            self.is_state(q.model()),
        ensures
            final(store).wf(),
            final(store).extends(old(store)),
            final(store).has(y),
            forall|p: Pkt, x: Pkt|
                #![trigger self.out(*old(store), q.model(), p, x)]
                #![trigger final(store).rel(y, p, x)]
                p.len() == old(store).n() && x.len() == old(store).n() ==> self.out(
                    *old(store),
                    q.model(),
                    p,
                    x,
                ) == final(store).rel(y, p, x),
    ;
}

// ---- runs --------------------------------------------------------------------------

/// Step `i` of a path is a transition.
pub open spec fn moves<A: ENFA>(a: &A, st: SPPstore, path: Seq<(Place<A>, Pkt)>, i: int) -> bool {
    a.step(st, path[i].0, path[i].1, path[i + 1].0, path[i + 1].1)
}

/// A path along transitions.
pub open spec fn is_path<A: ENFA>(a: &A, st: SPPstore, path: Seq<(Place<A>, Pkt)>) -> bool {
    &&& path.len() >= 1
    &&& forall|i: int| 0 <= i < path.len() ==> (#[trigger] path[i]).1.len() == st.n()
    &&& forall|i: int| 0 <= i < path.len() - 1 ==> #[trigger] moves(a, st, path, i)
}

/// Some transition leads from `q` with packet `p` to packet `x`.
pub open spec fn moves_on<A: ENFA>(a: &A, st: SPPstore, q: Place<A>, p: Pkt, x: Pkt) -> bool {
    exists|r: Place<A>| #[trigger] a.step(st, q, p, r, x)
}

/// Every packet leads on to every packet from every state.
pub open spec fn total<A: ENFA>(a: &A, st: SPPstore) -> bool {
    forall|q: Place<A>, p: Pkt, x: Pkt|
        a.is_state(q) && p.len() == st.n() && x.len() == st.n() ==> #[trigger] moves_on(
            a,
            st,
            q,
            p,
            x,
        )
}

/// The packets at the visible states of a path.
pub open spec fn seen<A: ENFA>(a: &A, path: Seq<(Place<A>, Pkt)>) -> Seq<Pkt>
    decreases path.len(),
{
    if path.len() == 0 {
        Seq::empty()
    } else if a.vis(path.last().0) {
        seen(a, path.drop_last()).push(path.last().1)
    } else {
        seen(a, path.drop_last())
    }
}

/// The packets that a run records: the first, and those at visible states.
pub open spec fn trace_of<A: ENFA>(a: &A, path: Seq<(Place<A>, Pkt)>) -> Seq<Pkt> {
    seq![path[0].1] + seen(a, path.skip(1))
}

/// The path from state `q` records all packets of the word but the last, and
/// outputs the last.
pub open spec fn run_on<A: ENFA>(
    a: &A,
    st: SPPstore,
    q: Place<A>,
    path: Seq<(Place<A>, Pkt)>,
    w: Word,
) -> bool {
    &&& is_path(a, st, path)
    &&& path[0].0 == q
    &&& w.len() >= 2
    &&& trace_of(a, path) == w.drop_last()
    &&& a.out(st, path.last().0, path.last().1, w.last())
}

/// Some run from state `q` has the word.
pub open spec fn accepts_from<A: ENFA>(a: &A, st: SPPstore, q: Place<A>, w: Word) -> bool {
    exists|path: Seq<(Place<A>, Pkt)>| #[trigger] run_on(a, st, q, path, w)
}

/// The language of an automaton.
pub open spec fn enfa_lang<A: ENFA>(a: &A, st: SPPstore) -> Lang {
    |w: Word| accepts_from(a, st, a.init(), w)
}

/// The first step of a run: the word goes on in `r` with packet `x`.
pub open spec fn onward<A: ENFA>(
    a: &A,
    st: SPPstore,
    q: Place<A>,
    w: Word,
    r: Place<A>,
    x: Pkt,
) -> bool {
    &&& x.len() == st.n()
    &&& a.step(st, q, w[0], r, x)
    &&& if a.vis(r) {
        w.len() >= 3 && x == w[1] && accepts_from(a, st, r, w.skip(1))
    } else {
        accepts_from(a, st, r, w.update(0, x))
    }
}

/// What is seen of a path is what is seen of its first state, and then of the
/// rest.
pub proof fn lemma_seen_first<A: ENFA>(a: &A, path: Seq<(Place<A>, Pkt)>)
    requires
        path.len() >= 1,
    ensures
        seen(a, path) == (if a.vis(path[0].0) {
            seq![path[0].1]
        } else {
            Seq::empty()
        }) + seen(a, path.skip(1)),
    decreases path.len(),
{
    let rest = path.skip(1);
    if path.len() == 1 {
        assert(path.drop_last() =~= Seq::<(Place<A>, Pkt)>::empty());
        assert(rest =~= Seq::<(Place<A>, Pkt)>::empty());
        assert(path.last() == path[0]);
        reveal_with_fuel(seen, 2);
        assert(seen(a, path) =~= (if a.vis(path[0].0) {
            seq![path[0].1]
        } else {
            Seq::empty()
        }) + seen(a, rest));
    } else {
        let front = path.drop_last();
        lemma_seen_first(a, front);
        assert(front.skip(1) =~= rest.drop_last());
        assert(rest.last() == path.last());
        assert(front[0] == path[0]);
        assert(seen(a, path) =~= (if a.vis(path[0].0) {
            seq![path[0].1]
        } else {
            Seq::empty()
        }) + seen(a, rest));
    }
}

/// The rest of a run after its first step is a run on the rest of the word.
pub proof fn lemma_run_rest<A: ENFA>(
    a: &A,
    st: SPPstore,
    q: Place<A>,
    path: Seq<(Place<A>, Pkt)>,
    w: Word,
)
    requires
        run_on(a, st, q, path, w),
        path.len() >= 2,
    ensures
        path[0].1 == w[0],
        path[1].1.len() == st.n(),
        a.step(st, q, w[0], path[1].0, path[1].1),
        if a.vis(path[1].0) {
            w.len() >= 3 && path[1].1 == w[1] && run_on(
                a,
                st,
                path[1].0,
                path.skip(1),
                w.skip(1),
            )
        } else {
            run_on(a, st, path[1].0, path.skip(1), w.update(0, path[1].1))
        },
{
    assert(trace_of(a, path)[0] == path[0].1);
    assert(path[0].1 == w[0]);
    let rest = path.skip(1);
    let (r, x) = rest[0];
    assert(path[1] == rest[0]);
    assert(moves(a, st, path, 0));
    assert forall|i: int| 0 <= i < rest.len() - 1 implies #[trigger] moves(a, st, rest, i) by {
        assert(moves(a, st, path, i + 1));
    }
    assert(is_path(a, st, rest));
    lemma_seen_first(a, rest);
    assert(rest.last() == path.last());
    if a.vis(r) {
        assert(trace_of(a, path) =~= seq![w[0]] + trace_of(a, rest));
        let v = w.skip(1);
        assert(v.drop_last() =~= w.drop_last().skip(1));
        assert(w.drop_last() == trace_of(a, path));
        assert(w.drop_last().skip(1) =~= trace_of(a, rest));
        assert(trace_of(a, rest)[0] == x);
        assert(w.drop_last()[1] == x);
        assert(v.last() == w.last());
        assert(run_on(a, st, r, rest, v));
    } else {
        let v = w.update(0, x);
        assert(v.drop_last() =~= seq![x] + w.drop_last().skip(1));
        assert(w.drop_last().skip(1) =~= seen(a, rest));
        assert(seen(a, rest) =~= seen(a, rest.skip(1)));
        assert(v.last() == w.last());
        assert(run_on(a, st, r, rest, v));
    }
}

/// A run ends at once, or takes a first step.
pub proof fn lemma_first<A: ENFA>(a: &A, st: SPPstore, q: Place<A>, w: Word)
    requires
        is_word(st.n(), w),
    ensures
        accepts_from(a, st, q, w) <==> (w.len() == 2 && a.out(st, q, w[0], w[1])) || exists|
            r: Place<A>,
            x: Pkt,
        | #[trigger]
            onward(a, st, q, w, r, x),
{
    if accepts_from(a, st, q, w) {
        let path = choose|path: Seq<(Place<A>, Pkt)>| #[trigger] run_on(a, st, q, path, w);
        assert(trace_of(a, path)[0] == path[0].1);
        assert(path[0].1 == w[0]);
        if path.len() == 1 {
            assert(path.skip(1) =~= Seq::<(Place<A>, Pkt)>::empty());
            assert(trace_of(a, path) =~= seq![path[0].1]);
            assert(w.drop_last().len() == 1);
            assert(path.last() == path[0]);
            assert(w.last() == w[1]);
        } else {
            lemma_run_rest(a, st, q, path, w);
            let (r, x) = path[1];
            assert(onward(a, st, q, w, r, x));
        }
    }
    if w.len() == 2 && a.out(st, q, w[0], w[1]) {
        let path = seq![(q, w[0])];
        assert(path.skip(1) =~= Seq::<(Place<A>, Pkt)>::empty());
        assert(trace_of(a, path) =~= w.drop_last());
        assert(run_on(a, st, q, path, w));
    }
    if exists|r: Place<A>, x: Pkt| #[trigger] onward(a, st, q, w, r, x) {
        let (r, x) = choose|r: Place<A>, x: Pkt| #[trigger] onward(a, st, q, w, r, x);
        let v = if a.vis(r) {
            w.skip(1)
        } else {
            w.update(0, x)
        };
        let rest = choose|path: Seq<(Place<A>, Pkt)>| #[trigger] run_on(a, st, r, path, v);
        assert(trace_of(a, rest)[0] == rest[0].1);
        assert(v.drop_last()[0] == v[0]);
        assert(rest[0] == (r, x));
        let path = seq![(q, w[0])] + rest;
        assert(path.skip(1) =~= rest);
        assert forall|i: int| 0 <= i < path.len() - 1 implies #[trigger] moves(
            a,
            st,
            path,
            i,
        ) by {
            if i > 0 {
                assert(moves(a, st, rest, i - 1));
            }
        }
        lemma_seen_first(a, rest);
        assert(path.last() == rest.last());
        if a.vis(r) {
            assert(trace_of(a, path) =~= seq![w[0]] + trace_of(a, rest));
            assert(w.drop_last() =~= seq![w[0]] + v.drop_last());
        } else {
            assert(trace_of(a, rest) =~= seq![x] + seen(a, rest));
            assert(v.drop_last().skip(1) =~= w.drop_last().skip(1));
            assert(trace_of(a, rest).skip(1) =~= seen(a, rest));
            assert(trace_of(a, path) =~= seq![w[0]] + seen(a, rest));
            assert(w.drop_last() =~= seq![w[0]] + w.drop_last().skip(1));
        }
        assert(v.last() == w.last());
        assert(run_on(a, st, q, path, w));
    }
}

/// A path stays within the states.
pub proof fn lemma_path_states<A: ENFA>(a: &A, st: SPPstore, path: Seq<(Place<A>, Pkt)>, i: int)
    requires
        st.wf(),
        a.valid(st),
        is_path(a, st, path),
        a.is_state(path[0].0),
        0 <= i < path.len(),
    ensures
        a.is_state(path[i].0),
    decreases i,
{
    if i > 0 {
        lemma_path_states(a, st, path, i - 1);
        assert(moves(a, st, path, i - 1));
        a.lemma_states(st);
        assert(path[i - 1].1.len() == st.n() && path[i].1.len() == st.n());
    }
}

/// A store that grows keeps the words.
pub proof fn lemma_lang_valid<A: ENFA>(a: &A, st: SPPstore, o: SPPstore, q: Place<A>, w: Word)
    requires
        o.wf(),
        st.wf(),
        st.extends(&o),
        a.valid(o),
        a.is_state(q),
        is_word(o.n(), w),
    ensures
        accepts_from(a, st, q, w) == accepts_from(a, o, q, w),
{
    a.lemma_valid(st, o);
    if accepts_from(a, o, q, w) {
        let path = choose|path: Seq<(Place<A>, Pkt)>| #[trigger] run_on(a, o, q, path, w);
        assert forall|i: int| 0 <= i < path.len() - 1 implies #[trigger] moves(
            a,
            st,
            path,
            i,
        ) by {
            assert(moves(a, o, path, i));
            lemma_path_states(a, o, path, i);
            assert(path[i].1.len() == o.n() && path[i + 1].1.len() == o.n());
        }
        lemma_path_states(a, o, path, path.len() - 1);
        assert(path[path.len() - 1].1.len() == o.n());
        assert(run_on(a, st, q, path, w));
    }
    if accepts_from(a, st, q, w) {
        let path = choose|path: Seq<(Place<A>, Pkt)>| #[trigger] run_on(a, st, q, path, w);
        assert forall|i: int| 0 <= i < path.len() - 1 implies #[trigger] moves(a, o, path, i) by {
            assert(moves(a, st, path, i));
            lemma_path_states(a, st, path, i);
            assert(path[i].1.len() == o.n() && path[i + 1].1.len() == o.n());
        }
        lemma_path_states(a, st, path, path.len() - 1);
        assert(path[path.len() - 1].1.len() == o.n());
        assert(run_on(a, o, q, path, w));
    }
}

// ---- automata without invisible states ---------------------------------------------------

/// The word is accepted from state `q`, if every state is visible.
pub open spec fn nfa_word<A: ENFA>(a: &A, st: SPPstore, q: Place<A>, w: Word) -> bool
    decreases w.len(),
{
    if w.len() < 2 {
        false
    } else if w.len() == 2 {
        a.out(st, q, w[0], w[1])
    } else {
        exists|r: Place<A>| #[trigger]
            a.step(st, q, w[0], r, w[1]) && nfa_word(a, st, r, w.skip(1))
    }
}

/// The packets lead from the start to state `r`, if every state is visible.
pub open spec fn leads_to<A: ENFA>(a: &A, st: SPPstore, t: Seq<Pkt>, r: Place<A>) -> bool
    decreases t.len(),
{
    if t.len() == 0 {
        false
    } else if t.len() == 1 {
        r == a.init()
    } else {
        exists|q: Place<A>|
            leads_to(a, st, t.drop_last(), q) && #[trigger] a.step(
                st,
                q,
                t[t.len() - 2],
                r,
                t[t.len() - 1],
            )
    }
}

/// The state is in the list.
pub open spec fn among<S: StateKey>(v: Seq<S>, r: S::M) -> bool {
    exists|i: int| 0 <= i < v.len() && (#[trigger] v[i]).model() == r
}

/// The states of the list are different.
pub open spec fn distinct<S: StateKey>(v: Seq<S>) -> bool {
    forall|i: int, j: int|
        #![trigger v[i], v[j]]
        0 <= i < j < v.len() ==> v[i].model() != v[j].model()
}

pub proof fn lemma_among_push<S: StateKey>(v: Seq<S>, s: S, r: S::M)
    ensures
        among(v.push(s), r) <==> among(v, r) || s.model() == r,
{
    let u = v.push(s);
    assert(u[v.len() as int] == s);
    if among(v, r) {
        let i = choose|i: int| 0 <= i < v.len() && (#[trigger] v[i]).model() == r;
        assert(u[i] == v[i]);
    }
    if among(u, r) && s.model() != r {
        let i = choose|i: int| 0 <= i < u.len() && (#[trigger] u[i]).model() == r;
        assert(u[i] == v[i]);
    }
}

pub proof fn lemma_listed_push<S: StateKey>(
    st: SPPstore,
    ts: Seq<(SPP, S)>,
    t: (SPP, S),
    p: Pkt,
    r: S::M,
    x: Pkt,
)
    ensures
        listed(st, ts.push(t), p, r, x) <==> listed(st, ts, p, r, x) || (st.rel(t.0, p, x)
            && t.1.model() == r),
{
    let us = ts.push(t);
    assert(us[ts.len() as int] == t);
    if listed(st, ts, p, r, x) {
        let i = choose|i: int|
            0 <= i < ts.len() && st.rel((#[trigger] ts[i]).0, p, x) && ts[i].1.model() == r;
        assert(us[i] == ts[i]);
    }
    if listed(st, us, p, r, x) && !(st.rel(t.0, p, x) && t.1.model() == r) {
        let i = choose|i: int|
            0 <= i < us.len() && st.rel((#[trigger] us[i]).0, p, x) && us[i].1.model() == r;
        assert(us[i] == ts[i]);
    }
}

/// The packets `t` lead to a state that accepts the word `v`.
pub open spec fn led<A: ENFA>(a: &A, st: SPPstore, t: Seq<Pkt>, v: Word) -> bool {
    exists|r: Place<A>| #[trigger] leads_to(a, st, t, r) && nfa_word(a, st, r, v)
}

/// A word is accepted if the start of it leads to a state that accepts the rest.
pub proof fn lemma_split<A: ENFA>(a: &A, st: SPPstore, w: Word, i: int)
    requires
        is_word(st.n(), w),
        0 <= i <= w.len() - 2,
    ensures
        nfa_word(a, st, a.init(), w) == led(a, st, w.take(i + 1), w.skip(i)),
    decreases i,
{
    if i == 0 {
        assert(w.skip(0) =~= w);
        assert(leads_to(a, st, w.take(1), a.init()));
    } else {
        lemma_split(a, st, w, i - 1);
        let t0 = w.take(i);
        let t1 = w.take(i + 1);
        let v = w.skip(i - 1);
        assert(t1.drop_last() =~= t0);
        assert(v.skip(1) =~= w.skip(i));
        assert(v[0] == w[i - 1] && v[1] == w[i]);
        assert(t1[t1.len() - 2] == w[i - 1] && t1[t1.len() - 1] == w[i]);
        if led(a, st, t0, v) {
            let q = choose|r: Place<A>| #[trigger]
                leads_to(a, st, t0, r) && nfa_word(a, st, r, v);
            let r = choose|r: Place<A>| #[trigger]
                a.step(st, q, v[0], r, v[1]) && nfa_word(a, st, r, v.skip(1));
            assert(leads_to(a, st, t1, r));
        }
        if led(a, st, t1, w.skip(i)) {
            let r = choose|r: Place<A>| #[trigger]
                leads_to(a, st, t1, r) && nfa_word(a, st, r, w.skip(i));
            let q = choose|q: Place<A>|
                leads_to(a, st, t1.drop_last(), q) && #[trigger] a.step(
                    st,
                    q,
                    t1[t1.len() - 2],
                    r,
                    t1[t1.len() - 1],
                );
            assert(a.step(st, q, v[0], r, v[1]));
            assert(nfa_word(a, st, q, v));
            assert(leads_to(a, st, t0, q));
        }
    }
}

/// The packets lead to states of the automaton.
pub proof fn lemma_leads_states<A: ENFA>(a: &A, st: SPPstore, t: Seq<Pkt>, r: Place<A>)
    requires
        st.wf(),
        a.valid(st),
        forall|i: int| 0 <= i < t.len() ==> (#[trigger] t[i]).len() == st.n(),
        leads_to(a, st, t, r),
    ensures
        a.is_state(r),
    decreases t.len(),
{
    a.lemma_states(st);
    if t.len() > 1 {
        let q = choose|q: Place<A>|
            leads_to(a, st, t.drop_last(), q) && #[trigger] a.step(
                st,
                q,
                t[t.len() - 2],
                r,
                t[t.len() - 1],
            );
        assert forall|i: int| 0 <= i < t.drop_last().len() implies (#[trigger] t.drop_last()[i]).len()
            == st.n() by {
            assert(t.drop_last()[i] == t[i]);
        }
        lemma_leads_states(a, st, t.drop_last(), q);
        assert(t[t.len() - 2].len() == st.n() && t[t.len() - 1].len() == st.n());
    }
}

/// A store that grows keeps where packets lead.
pub proof fn lemma_leads_valid<A: ENFA>(
    a: &A,
    st: SPPstore,
    o: SPPstore,
    t: Seq<Pkt>,
    r: Place<A>,
)
    requires
        o.wf(),
        st.wf(),
        st.extends(&o),
        a.valid(o),
        forall|i: int| 0 <= i < t.len() ==> (#[trigger] t[i]).len() == o.n(),
    ensures
        leads_to(a, st, t, r) == leads_to(a, o, t, r),
    decreases t.len(),
{
    a.lemma_valid(st, o);
    if t.len() > 1 {
        let u = t.drop_last();
        let (p, x) = (t[t.len() - 2], t[t.len() - 1]);
        assert(p.len() == o.n() && x.len() == o.n());
        assert forall|i: int| 0 <= i < u.len() implies (#[trigger] u[i]).len() == o.n() by {
            assert(u[i] == t[i]);
        }
        if leads_to(a, st, t, r) {
            let q = choose|q: Place<A>|
                leads_to(a, st, u, q) && #[trigger] a.step(st, q, p, r, x);
            lemma_leads_valid(a, st, o, u, q);
            lemma_leads_states(a, o, u, q);
            assert(a.step(o, q, p, r, x));
        }
        if leads_to(a, o, t, r) {
            let q = choose|q: Place<A>|
                leads_to(a, o, u, q) && #[trigger] a.step(o, q, p, r, x);
            lemma_leads_valid(a, st, o, u, q);
            lemma_leads_states(a, o, u, q);
            assert(a.step(st, q, p, r, x));
        }
    }
}

/// Every state of the automaton is visible.
pub open spec fn all_visible<A: ENFA>(a: &A) -> bool {
    forall|q: Place<A>| #[trigger] a.vis(q)
}

/// Nondeterministic symbolic automaton without invisible states.
pub trait NFA: ENFA {
    /// Every state is visible.
    proof fn lemma_visible(&self)
        ensures
            all_visible(self),
    ;

    /// Whether the word of the trace and then the output is accepted.  No word
    /// is, if the trace is empty.
    fn nfa_accepts(&self, store: &mut SPPstore, trace: &[Vec<bool>], output: &[bool]) -> (b: bool)
        requires
            old(store).wf(),
            self.valid(*old(store)),
            forall|i: int| 0 <= i < trace@.len() ==> (#[trigger] trace@[i])@.len() == old(store).n(),
            output@.len() == old(store).n(),
        ensures
            final(store).wf(),
            final(store).extends(old(store)),
            b <==> enfa_lang(self, *old(store))(packets(trace@).push(output@)),
    {
        proof {
            self.lemma_visible();
        }
        accepts_by_frontier(self, store, trace, output)
    }

    /// The states that the starts of the trace lead to, each with the last packet
    /// of the start.  A state is given once for every start that leads to it.
    fn reachable_from_trace<'a>(&self, store: &mut SPPstore, trace: &'a [Vec<bool>]) -> (r: Vec<
        (Self::State, &'a [bool]),
    >)
        requires
            old(store).wf(),
            self.valid(*old(store)),
            forall|i: int| 0 <= i < trace@.len() ==> (#[trigger] trace@[i])@.len() == old(store).n(),
        ensures
            final(store).wf(),
            final(store).extends(old(store)),
            exists|at: Seq<int>| #[trigger]
                reached_at(self, *old(store), packets(trace@), r@, at) && forall|
                    i: int,
                    q: Place<Self>,
                |
                    0 <= i < trace@.len() && #[trigger] leads_to(
                        self,
                        *old(store),
                        packets(trace@).take(i + 1),
                        q,
                    ) ==> exists|k: int|
                        0 <= k < r@.len() && (#[trigger] r@[k]).0.model() == q && at[k] == i,
    {
        walk_trace(self, store, trace)
    }
}

/// Every word of an automaton without invisible states is accepted state by
/// state.
pub proof fn lemma_nfa_word<A: ENFA>(a: &A, st: SPPstore, q: Place<A>, w: Word)
    requires
        all_visible(a),
        is_word(st.n(), w),
    ensures
        accepts_from(a, st, q, w) == nfa_word(a, st, q, w),
    decreases w.len(),
{
    lemma_first(a, st, q, w);
    if w.len() >= 3 {
        lemma_tail(st.n(), w, 1);
        assert(w[1].len() == st.n());
        assert forall|r: Place<A>| accepts_from(a, st, r, w.skip(1)) == #[trigger] nfa_word(
            a,
            st,
            r,
            w.skip(1),
        ) by {
            lemma_nfa_word(a, st, r, w.skip(1));
        }
        if accepts_from(a, st, q, w) {
            let (r, x) = choose|r: Place<A>, x: Pkt| #[trigger] onward(a, st, q, w, r, x);
            assert(a.vis(r));
            assert(a.step(st, q, w[0], r, w[1]) && nfa_word(a, st, r, w.skip(1)));
        }
        if nfa_word(a, st, q, w) {
            let r = choose|r: Place<A>| #[trigger]
                a.step(st, q, w[0], r, w[1]) && nfa_word(a, st, r, w.skip(1));
            assert(a.vis(r));
            assert(onward(a, st, q, w, r, w[1]));
        }
    } else {
        if exists|r: Place<A>, x: Pkt| #[trigger] onward(a, st, q, w, r, x) {
            let (r, x) = choose|r: Place<A>, x: Pkt| #[trigger] onward(a, st, q, w, r, x);
            assert(a.vis(r));
        }
    }
}

/// The states that the transitions from the states of `frontier` lead to with
/// packet `next`, from packet `cur`.
fn step_frontier<A: ENFA>(
    a: &A,
    store: &mut SPPstore,
    frontier: &Vec<A::State>,
    cur: &Vec<bool>,
    next: &Vec<bool>,
) -> (r: Vec<A::State>)
    requires
        old(store).wf(),
        a.valid(*old(store)),
        cur@.len() == old(store).n(),
        next@.len() == old(store).n(),
        forall|i: int| 0 <= i < frontier@.len() ==> a.is_state((#[trigger] frontier@[i]).model()),
    ensures
        final(store).wf(),
        final(store).extends(old(store)),
        distinct(r@),
        forall|i: int| 0 <= i < r@.len() ==> a.is_state((#[trigger] r@[i]).model()),
        forall|x: Place<A>| #[trigger]
            among(r@, x) <==> exists|q: Place<A>| #[trigger]
                among(frontier@, q) && a.step(*old(store), q, cur@, x, next@),
{
    let ghost o = *store;
    let mut r: Vec<A::State> = Vec::new();
    let mut i: usize = 0;
    while i < frontier.len()
        invariant
            store.wf(),
            store.extends(&o),
            o.wf(),
            a.valid(o),
            cur@.len() == o.n(),
            next@.len() == o.n(),
            forall|j: int|
                0 <= j < frontier@.len() ==> a.is_state((#[trigger] frontier@[j]).model()),
            i <= frontier@.len(),
            distinct(r@),
            forall|j: int| 0 <= j < r@.len() ==> a.is_state((#[trigger] r@[j]).model()),
            forall|x: Place<A>| #[trigger]
                among(r@, x) <==> exists|q: Place<A>| #[trigger]
                    among(frontier@.take(i as int), q) && a.step(o, q, cur@, x, next@),
        decreases frontier.len() - i,
    {
        let ghost s0 = *store;
        let ghost r0 = r@;
        let ghost q = frontier@[i as int].model();
        proof {
            a.lemma_valid(s0, o);
            assert(a.is_state(frontier@[i as int].model()));
        }
        let ts = a.transitions(store, &frontier[i]);
        let ghost s1 = *store;
        let mut j: usize = 0;
        while j < ts.len()
            invariant
                *store == s1,
                store.wf(),
                s1.n() == o.n(),
                cur@.len() == o.n(),
                next@.len() == o.n(),
                j <= ts@.len(),
                forall|k: int|
                    0 <= k < ts@.len() ==> s1.has((#[trigger] ts@[k]).0) && a.is_state(
                        ts@[k].1.model(),
                    ),
                distinct(r@),
                forall|k: int| 0 <= k < r@.len() ==> a.is_state((#[trigger] r@[k]).model()),
                forall|x: Place<A>| #[trigger]
                    among(r@, x) <==> among(r0, x) || listed(
                        s1,
                        ts@.take(j as int),
                        cur@,
                        x,
                        next@,
                    ),
            decreases ts.len() - j,
        {
            let ghost r1 = r@;
            let ghost t = ts@[j as int];
            proof {
                assert(s1.has(ts@[j as int].0));
                assert(ts@.take(j + 1) =~= ts@.take(j as int).push(t));
            }
            let hit = store.accepts(ts[j].0, cur.as_slice(), next.as_slice());
            if hit && position(&r, &ts[j].1).is_none() {
                r.push(ts[j].1.dup());
            }
            proof {
                assert forall|x: Place<A>| #[trigger] among(r@, x) <==> among(r0, x) || listed(
                    s1,
                    ts@.take(j + 1),
                    cur@,
                    x,
                    next@,
                ) by {
                    lemma_listed_push(s1, ts@.take(j as int), t, cur@, x, next@);
                    if r@.len() > r1.len() {
                        lemma_among_push(r1, r@[r1.len() as int], x);
                        assert(r@ =~= r1.push(r@[r1.len() as int]));
                    } else if hit {
                        let k = choose|k: int|
                            0 <= k < r1.len() && (#[trigger] r1[k]).model() == t.1.model();
                        assert(among(r1, t.1.model()));
                    }
                }
            }
            j = j + 1;
        }
        proof {
            assert(ts@.take(j as int) =~= ts@);
            assert(frontier@.take(i + 1) =~= frontier@.take(i as int).push(frontier@[i as int]));
            assert forall|x: Place<A>| #[trigger] among(r@, x) <==> exists|y: Place<A>| #[trigger]
                among(frontier@.take(i + 1), y) && a.step(o, y, cur@, x, next@) by {
                assert(a.step(s0, q, cur@, x, next@) == listed(s1, ts@, cur@, x, next@));
                assert(a.step(s0, q, cur@, x, next@) == a.step(o, q, cur@, x, next@));
                lemma_among_push(frontier@.take(i as int), frontier@[i as int], q);
                if among(r@, x) {
                    if among(r0, x) {
                        let y = choose|y: Place<A>| #[trigger]
                            among(frontier@.take(i as int), y) && a.step(o, y, cur@, x, next@);
                        lemma_among_push(frontier@.take(i as int), frontier@[i as int], y);
                        assert(among(frontier@.take(i + 1), y));
                    } else {
                        assert(among(frontier@.take(i + 1), q));
                    }
                }
                if exists|y: Place<A>| #[trigger]
                    among(frontier@.take(i + 1), y) && a.step(o, y, cur@, x, next@) {
                    let y = choose|y: Place<A>| #[trigger]
                        among(frontier@.take(i + 1), y) && a.step(o, y, cur@, x, next@);
                    lemma_among_push(frontier@.take(i as int), frontier@[i as int], y);
                }
            }
        }
        i = i + 1;
    }
    proof {
        assert(frontier@.take(i as int) =~= frontier@);
    }
    r
}

/// The states of `frontier` are those that the packets lead to.
spec fn frontier_of<A: ENFA>(a: &A, st: SPPstore, t: Seq<Pkt>, frontier: Seq<A::State>) -> bool {
    &&& distinct(frontier)
    &&& forall|i: int| 0 <= i < frontier.len() ==> a.is_state((#[trigger] frontier[i]).model())
    &&& forall|x: Place<A>| #[trigger] among(frontier, x) <==> leads_to(a, st, t, x)
}

proof fn lemma_frontier<A: ENFA>(
    a: &A,
    st: SPPstore,
    o: SPPstore,
    t: Seq<Pkt>,
    i: int,
    f0: Seq<A::State>,
    f1: Seq<A::State>,
)
    requires
        o.wf(),
        st.wf(),
        st.extends(&o),
        a.valid(o),
        forall|j: int| 0 <= j < t.len() ==> (#[trigger] t[j]).len() == o.n(),
        1 <= i < t.len(),
        frontier_of(a, o, t.take(i), f0),
        distinct(f1),
        forall|j: int| 0 <= j < f1.len() ==> a.is_state((#[trigger] f1[j]).model()),
        forall|x: Place<A>| #[trigger]
            among(f1, x) <==> exists|q: Place<A>| #[trigger]
                among(f0, q) && a.step(st, q, t[i - 1], x, t[i]),
    ensures
        frontier_of(a, o, t.take(i + 1), f1),
{
    a.lemma_valid(st, o);
    let t1 = t.take(i + 1);
    assert(t1.drop_last() =~= t.take(i));
    assert(t1[t1.len() - 2] == t[i - 1] && t1[t1.len() - 1] == t[i]);
    assert(t[i - 1].len() == o.n() && t[i].len() == o.n());
    assert forall|x: Place<A>| #[trigger] among(f1, x) <==> leads_to(a, o, t1, x) by {
        if among(f1, x) {
            let q = choose|q: Place<A>| #[trigger]
                among(f0, q) && a.step(st, q, t[i - 1], x, t[i]);
            let k = choose|k: int| 0 <= k < f0.len() && (#[trigger] f0[k]).model() == q;
            assert(a.is_state(q));
            assert(leads_to(a, o, t.take(i), q));
            assert(leads_to(a, o, t1.drop_last(), q) && a.step(o, q, t[i - 1], x, t[i]));
        }
        if leads_to(a, o, t1, x) {
            let q = choose|q: Place<A>|
                leads_to(a, o, t1.drop_last(), q) && #[trigger] a.step(o, q, t[i - 1], x, t[i]);
            assert(among(f0, q));
            let k = choose|k: int| 0 <= k < f0.len() && (#[trigger] f0[k]).model() == q;
            assert(a.is_state(q));
            assert(a.step(st, q, t[i - 1], x, t[i]));
        }
    }
}

/// The list of the start state alone.
fn first_frontier<A: ENFA>(a: &A, store: &mut SPPstore, Ghost(p): Ghost<Pkt>) -> (r: Vec<A::State>)
    requires
        old(store).wf(),
        a.valid(*old(store)),
    ensures
        final(store).wf(),
        final(store).extends(old(store)),
        r@.len() == 1,
        frontier_of(a, *old(store), seq![p], r@),
{
    let ghost o = *store;
    let mut frontier: Vec<A::State> = Vec::new();
    let q = a.start(store);
    frontier.push(q);
    proof {
        a.lemma_states(o);
        assert forall|x: Place<A>| #[trigger] among(frontier@, x) <==> leads_to(
            a,
            o,
            seq![p],
            x,
        ) by {
            if x == a.init() {
                assert(frontier@[0].model() == x);
            }
        }
    }
    frontier
}

/// Whether the word of the trace and then the output is accepted: all states are
/// followed at once.
fn accepts_by_frontier<A: ENFA>(
    a: &A,
    store: &mut SPPstore,
    trace: &[Vec<bool>],
    output: &[bool],
) -> (b: bool)
    requires
        old(store).wf(),
        a.valid(*old(store)),
        all_visible(a),
        forall|i: int| 0 <= i < trace@.len() ==> (#[trigger] trace@[i])@.len() == old(store).n(),
        output@.len() == old(store).n(),
    ensures
        final(store).wf(),
        final(store).extends(old(store)),
        b <==> enfa_lang(a, *old(store))(packets(trace@).push(output@)),
{
    let ghost o = *store;
    let ghost n = o.n();
    let ghost t = packets(trace@);
    let ghost w = t.push(output@);
    let len: usize = trace.len();
    if len == 0 {
        proof {
            if accepts_from(a, o, a.init(), w) {
                let path = choose|path: Seq<(Place<A>, Pkt)>| #[trigger]
                    run_on(a, o, a.init(), path, w);
                assert(w.len() == 1);
            }
        }
        return false;
    }
    proof {
        assert forall|j: int| 0 <= j < t.len() implies (#[trigger] t[j]).len() == n by {
            assert(t[j] == trace@[j]@);
        }
        assert forall|j: int| 0 <= j < w.len() implies (#[trigger] w[j]).len() == n by {
            if j < t.len() {
                assert(w[j] == t[j]);
            }
        }
        lemma_nfa_word(a, o, a.init(), w);
        lemma_split(a, o, w, len - 1);
        assert(w.take(len as int) =~= t);
        assert(w.skip(len - 1) =~= pair(t[len - 1], output@));
        assert(t.take(1) =~= seq![t[0]]);
    }
    let mut frontier = first_frontier(a, store, Ghost(t[0]));
    let mut i: usize = 1;
    while i < len
        invariant
            o == *old(store),
            store.wf(),
            store.extends(&o),
            o.wf(),
            a.valid(o),
            n == o.n(),
            len == trace@.len(),
            t == packets(trace@),
            1 <= i <= len,
            forall|j: int| 0 <= j < t.len() ==> (#[trigger] t[j]).len() == n,
            frontier_of(a, o, t.take(i as int), frontier@),
        decreases len - i,
    {
        let ghost s0 = *store;
        let ghost f0 = frontier@;
        proof {
            a.lemma_valid(s0, o);
            assert(t[i - 1].len() == n && t[i as int].len() == n);
            assert(t[i - 1] == trace@[i - 1]@ && t[i as int] == trace@[i as int]@);
        }
        let next = step_frontier(a, store, &frontier, &trace[i - 1], &trace[i]);
        proof {
            lemma_frontier(a, s0, o, t, i as int, f0, next@);
        }
        frontier = next;
        i = i + 1;
    }
    proof {
        assert(t.take(i as int) =~= t);
    }
    let mut k: usize = 0;
    while k < frontier.len()
        invariant
            o == *old(store),
            store.wf(),
            store.extends(&o),
            o.wf(),
            a.valid(o),
            n == o.n(),
            len == trace@.len(),
            len >= 1,
            t == packets(trace@),
            output@.len() == n,
            w == t.push(output@),
            k <= frontier@.len(),
            forall|j: int| 0 <= j < t.len() ==> (#[trigger] t[j]).len() == n,
            frontier_of(a, o, t, frontier@),
            w.take(len as int) == t,
            w.skip(len - 1) == pair(t[len - 1], output@),
            enfa_lang(a, o)(w) == led(a, o, w.take(len as int), w.skip(len - 1)),
            forall|j: int|
                0 <= j < k ==> !a.out(o, (#[trigger] frontier@[j]).model(), t[len - 1], output@),
        decreases frontier.len() - k,
    {
        let ghost s0 = *store;
        let ghost r = frontier@[k as int].model();
        proof {
            a.lemma_valid(s0, o);
            assert(a.is_state(frontier@[k as int].model()));
            assert(t[len - 1] == trace@[len - 1]@);
            assert(t[len - 1].len() == n);
        }
        let y = a.output(store, &frontier[k]);
        if store.accepts(y, trace[len - 1].as_slice(), output) {
            proof {
                assert(a.out(s0, r, t[len - 1], output@));
                assert(among(frontier@, r));
                assert(leads_to(a, o, w.take(len as int), r));
                assert(nfa_word(a, o, r, w.skip(len - 1)));
            }
            return true;
        }
        proof {
            assert(!a.out(s0, r, t[len - 1], output@));
        }
        k = k + 1;
    }
    proof {
        if enfa_lang(a, o)(w) {
            let r = choose|r: Place<A>| #[trigger]
                leads_to(a, o, w.take(len as int), r) && nfa_word(a, o, r, w.skip(len - 1));
            assert(among(frontier@, r));
            let j = choose|j: int| 0 <= j < frontier@.len() && (#[trigger] frontier@[j]).model()
                == r;
            assert(!a.out(o, frontier@[j].model(), t[len - 1], output@));
        }
    }
    false
}

/// Entry `k` of `r` is a state that the first `at[k] + 1` packets lead to, with
/// the last of them; the entries are in the order of the packets, and differ.
pub open spec fn reached_at<A: ENFA>(
    a: &A,
    st: SPPstore,
    t: Seq<Pkt>,
    r: Seq<(A::State, &[bool])>,
    at: Seq<int>,
) -> bool {
    &&& at.len() == r.len()
    &&& forall|k: int|
        0 <= k < r.len() ==> 0 <= #[trigger] at[k] < t.len() && r[k].1@ == t[at[k]] && leads_to(
            a,
            st,
            t.take(at[k] + 1),
            r[k].0.model(),
        )
    &&& forall|k: int, l: int|
        #![trigger at[k], at[l]]
        0 <= k < l < r.len() ==> at[k] < at[l] || (at[k] == at[l] && r[k].0.model()
            != r[l].0.model())
}

/// Adds the states of the frontier, with packet `i` of the trace.
fn add_frontier<'a, A: ENFA>(
    a: &A,
    trace: &'a [Vec<bool>],
    i: usize,
    frontier: &Vec<A::State>,
    r: &mut Vec<(A::State, &'a [bool])>,
    Ghost(st): Ghost<SPPstore>,
    Ghost(at): Ghost<Seq<int>>,
) -> (out: Ghost<Seq<int>>)
    requires
        i < trace@.len(),
        frontier_of(a, st, packets(trace@).take(i + 1), frontier@),
        reached_at(a, st, packets(trace@), old(r)@, at),
        forall|k: int| 0 <= k < at.len() ==> #[trigger] at[k] < i,
    ensures
        reached_at(a, st, packets(trace@), final(r)@, out@),
        forall|k: int| 0 <= k < out@.len() ==> #[trigger] out@[k] <= i,
        old(r)@.len() <= final(r)@.len(),
        forall|k: int|
            0 <= k < old(r)@.len() ==> final(r)@[k] == #[trigger] old(r)@[k] && out@[k] == at[k],
        forall|q: Place<A>| #[trigger]
            leads_to(a, st, packets(trace@).take(i + 1), q) ==> exists|k: int|
                0 <= k < final(r)@.len() && (#[trigger] final(r)@[k]).0.model() == q && out@[k]
                    == i,
{
    let ghost t = packets(trace@);
    let ghost r0 = r@;
    let ghost mut at1 = at;
    let mut j: usize = 0;
    while j < frontier.len()
        invariant
            i < trace@.len(),
            t == packets(trace@),
            frontier_of(a, st, t.take(i + 1), frontier@),
            j <= frontier@.len(),
            reached_at(a, st, t, r@, at1),
            at.len() == r0.len(),
            r@.len() == r0.len() + j,
            forall|k: int| 0 <= k < at1.len() ==> #[trigger] at1[k] <= i,
            forall|k: int| 0 <= k < r0.len() ==> r@[k] == #[trigger] r0[k] && at1[k] == at[k],
            forall|k: int| 0 <= k < r0.len() ==> #[trigger] at[k] < i,
            forall|k: int|
                0 <= k < j ==> (#[trigger] r@[r0.len() + k]).0.model() == frontier@[k].model()
                    && at1[r0.len() + k] == i,
        decreases frontier.len() - j,
    {
        let ghost r1 = r@;
        let ghost at0 = at1;
        proof {
            assert(among(frontier@, frontier@[j as int].model()));
            assert(t[i as int] == trace@[i as int]@);
        }
        r.push((frontier[j].dup(), trace[i].as_slice()));
        proof {
            at1 = at1.push(i as int);
            assert forall|k: int| 0 <= k < r@.len() implies 0 <= #[trigger] at1[k] < t.len()
                && r@[k].1@ == t[at1[k]] && leads_to(
                a,
                st,
                t.take(at1[k] + 1),
                r@[k].0.model(),
            ) by {
                if k < r1.len() {
                    assert(at1[k] == at0[k] && r@[k] == r1[k]);
                }
            }
            assert forall|k: int, l: int|
                #![trigger at1[k], at1[l]]
                0 <= k < l < r@.len() implies at1[k] < at1[l] || (at1[k] == at1[l]
                && r@[k].0.model() != r@[l].0.model()) by {
                if l < r1.len() {
                    assert(at0[k] == at1[k] && at0[l] == at1[l]);
                    assert(r@[k] == r1[k] && r@[l] == r1[l]);
                } else if k < r0.len() {
                    assert(r1[k] == r0[k]);
                    assert(at0[k] == at[k]);
                } else {
                    let h = k - r0.len();
                    assert(r1[r0.len() + h].0.model() == frontier@[h].model());
                    assert(r@[k] == r1[k]);
                }
            }
            assert forall|k: int|
                0 <= k < j + 1 implies (#[trigger] r@[r0.len() + k]).0.model()
                == frontier@[k].model() && at1[r0.len() + k] == i by {
                if k < j {
                    assert(r@[r0.len() + k] == r1[r0.len() + k]);
                }
            }
        }
        j = j + 1;
    }
    proof {
        assert forall|q: Place<A>| #[trigger] leads_to(a, st, t.take(i + 1), q) implies exists|
            k: int,
        |
            0 <= k < r@.len() && (#[trigger] r@[k]).0.model() == q && at1[k] == i by {
            assert(among(frontier@, q));
            let h = choose|h: int| 0 <= h < frontier@.len() && (#[trigger] frontier@[h]).model()
                == q;
            assert(r@[r0.len() + h].0.model() == q);
        }
    }
    Ghost(at1)
}

/// The states that the starts of the trace lead to.
fn walk_trace<'a, A: ENFA>(a: &A, store: &mut SPPstore, trace: &'a [Vec<bool>]) -> (r: Vec<
    (A::State, &'a [bool]),
>)
    requires
        old(store).wf(),
        a.valid(*old(store)),
        forall|i: int| 0 <= i < trace@.len() ==> (#[trigger] trace@[i])@.len() == old(store).n(),
    ensures
        final(store).wf(),
        final(store).extends(old(store)),
        exists|at: Seq<int>| #[trigger]
            reached_at(a, *old(store), packets(trace@), r@, at) && forall|i: int, q: Place<A>|
                0 <= i < trace@.len() && #[trigger] leads_to(
                    a,
                    *old(store),
                    packets(trace@).take(i + 1),
                    q,
                ) ==> exists|k: int|
                    0 <= k < r@.len() && (#[trigger] r@[k]).0.model() == q && at[k] == i,
{
    let ghost o = *store;
    let ghost n = o.n();
    let ghost t = packets(trace@);
    let len: usize = trace.len();
    let mut r: Vec<(A::State, &'a [bool])> = Vec::new();
    let ghost at: Seq<int> = Seq::empty();
    if len == 0 {
        proof {
            assert(reached_at(a, o, t, r@, at));
        }
        return r;
    }
    proof {
        assert forall|j: int| 0 <= j < t.len() implies (#[trigger] t[j]).len() == n by {
            assert(t[j] == trace@[j]@);
        }
        assert(t.take(1) =~= seq![t[0]]);
    }
    let mut frontier = first_frontier(a, store, Ghost(t[0]));
    let Ghost(at0) = add_frontier(a, trace, 0, &frontier, &mut r, Ghost(o), Ghost(at));
    let ghost mut at = at0;
    let mut i: usize = 1;
    while i < len
        invariant
            store.wf(),
            store.extends(&o),
            o.wf(),
            a.valid(o),
            n == o.n(),
            len == trace@.len(),
            t == packets(trace@),
            1 <= i <= len,
            forall|j: int| 0 <= j < t.len() ==> (#[trigger] t[j]).len() == n,
            frontier_of(a, o, t.take(i as int), frontier@),
            reached_at(a, o, t, r@, at),
            forall|k: int| 0 <= k < at.len() ==> #[trigger] at[k] < i,
            forall|h: int, q: Place<A>|
                0 <= h < i && #[trigger] leads_to(a, o, t.take(h + 1), q) ==> exists|k: int|
                    0 <= k < r@.len() && (#[trigger] r@[k]).0.model() == q && at[k] == h,
        decreases len - i,
    {
        let ghost s0 = *store;
        let ghost f0 = frontier@;
        let ghost r0 = r@;
        proof {
            a.lemma_valid(s0, o);
            assert(t[i - 1].len() == n && t[i as int].len() == n);
            assert(t[i - 1] == trace@[i - 1]@ && t[i as int] == trace@[i as int]@);
        }
        let next = step_frontier(a, store, &frontier, &trace[i - 1], &trace[i]);
        proof {
            lemma_frontier(a, s0, o, t, i as int, f0, next@);
        }
        frontier = next;
        let Ghost(at1) = add_frontier(a, trace, i, &frontier, &mut r, Ghost(o), Ghost(at));
        proof {
            assert forall|h: int, q: Place<A>|
                0 <= h < i + 1 && #[trigger] leads_to(a, o, t.take(h + 1), q) implies exists|
                k: int,
            |
                0 <= k < r@.len() && (#[trigger] r@[k]).0.model() == q && at1[k] == h by {
                if h < i {
                    let k = choose|k: int|
                        0 <= k < r0.len() && (#[trigger] r0[k]).0.model() == q && at[k] == h;
                    assert(r@[k] == r0[k]);
                    assert(r@[k].0.model() == q && at1[k] == h);
                }
            }
            at = at1;
        }
        i = i + 1;
    }
    r
}

// ---- deterministic automata ----------------------------------------------------------

/// No packets lead from one state to two.
pub open spec fn deterministic<A: ENFA>(a: &A, st: SPPstore) -> bool {
    forall|q: Place<A>, p: Pkt, r: Place<A>, s: Place<A>, x: Pkt|
        #![trigger a.step(st, q, p, r, x), a.step(st, q, p, s, x)]
        a.is_state(q) && p.len() == st.n() && x.len() == st.n() && a.step(st, q, p, r, x)
            && a.step(st, q, p, s, x) ==> r == s
}

/// Deterministic symbolic automaton.
pub trait DFA: NFA {
    /// The relations of the transitions from a state are disjoint.
    proof fn lemma_deterministic(&self, st: SPPstore)
        requires
            st.wf(),
            self.valid(st),
        ensures
            deterministic(self, st),
    ;

    /// Whether the word of the trace and then the output is accepted.  No word
    /// is, if the trace is empty.
    fn dfa_accepts(&self, store: &mut SPPstore, trace: &[Vec<bool>], output: &[bool]) -> (b: bool)
        requires
            old(store).wf(),
            self.valid(*old(store)),
            forall|i: int| 0 <= i < trace@.len() ==> (#[trigger] trace@[i])@.len() == old(store).n(),
            output@.len() == old(store).n(),
        ensures
            final(store).wf(),
            final(store).extends(old(store)),
            b <==> enfa_lang(self, *old(store))(packets(trace@).push(output@)),
    {
        proof {
            self.lemma_visible();
            self.lemma_deterministic(*store);
        }
        accepts_by_state(self, store, trace, output)
    }
}

/// The state that the transitions lead to from `cur` with `next`, if there is one.
fn find_target<S: StateKey>(
    store: &SPPstore,
    ts: &Vec<(SPP, S)>,
    cur: &Vec<bool>,
    next: &Vec<bool>,
) -> (r: Option<S>)
    requires
        store.wf(),
        cur@.len() == store.n(),
        next@.len() == store.n(),
        forall|i: int| 0 <= i < ts@.len() ==> store.has((#[trigger] ts@[i]).0),
    ensures
        match r {
            Some(q) => listed(*store, ts@, cur@, q.model(), next@),
            None => forall|x: S::M| !(#[trigger] listed(*store, ts@, cur@, x, next@)),
        },
{
    let mut i: usize = 0;
    while i < ts.len()
        invariant
            store.wf(),
            cur@.len() == store.n(),
            next@.len() == store.n(),
            i <= ts@.len(),
            forall|j: int| 0 <= j < ts@.len() ==> store.has((#[trigger] ts@[j]).0),
            forall|j: int| 0 <= j < i ==> !store.rel((#[trigger] ts@[j]).0, cur@, next@),
        decreases ts.len() - i,
    {
        proof {
            assert(store.has(ts@[i as int].0));
        }
        if store.accepts(ts[i].0, cur.as_slice(), next.as_slice()) {
            proof {
                assert(store.rel(ts@[i as int].0, cur@, next@));
            }
            return Some(ts[i].1.dup());
        }
        i = i + 1;
    }
    None
}

/// Whether the word of the trace and then the output is accepted: the one state
/// is followed.
fn accepts_by_state<A: ENFA>(
    a: &A,
    store: &mut SPPstore,
    trace: &[Vec<bool>],
    output: &[bool],
) -> (b: bool)
    requires
        old(store).wf(),
        a.valid(*old(store)),
        all_visible(a),
        deterministic(a, *old(store)),
        forall|i: int| 0 <= i < trace@.len() ==> (#[trigger] trace@[i])@.len() == old(store).n(),
        output@.len() == old(store).n(),
    ensures
        final(store).wf(),
        final(store).extends(old(store)),
        b <==> enfa_lang(a, *old(store))(packets(trace@).push(output@)),
{
    let ghost o = *store;
    let ghost n = o.n();
    let ghost t = packets(trace@);
    let ghost w = t.push(output@);
    let len: usize = trace.len();
    if len == 0 {
        proof {
            if accepts_from(a, o, a.init(), w) {
                let path = choose|path: Seq<(Place<A>, Pkt)>| #[trigger]
                    run_on(a, o, a.init(), path, w);
                assert(w.len() == 1);
            }
        }
        return false;
    }
    proof {
        assert forall|j: int| 0 <= j < t.len() implies (#[trigger] t[j]).len() == n by {
            assert(t[j] == trace@[j]@);
        }
        assert forall|j: int| 0 <= j < w.len() implies (#[trigger] w[j]).len() == n by {
            if j < t.len() {
                assert(w[j] == t[j]);
            }
        }
        lemma_nfa_word(a, o, a.init(), w);
        a.lemma_states(o);
        assert forall|r: Place<A>| #[trigger] leads_to(a, o, t.take(1), r) <==> r
            == a.init() by {}
    }
    let mut current_state = a.start(store);
    let mut i: usize = 1;
    while i < len
        invariant
            o == *old(store),
            store.wf(),
            store.extends(&o),
            o.wf(),
            a.valid(o),
            all_visible(a),
            deterministic(a, o),
            n == o.n(),
            len == trace@.len(),
            t == packets(trace@),
            w == t.push(output@),
            is_word(n, w),
            enfa_lang(a, o)(w) == nfa_word(a, o, a.init(), w),
            1 <= i <= len,
            forall|j: int| 0 <= j < t.len() ==> (#[trigger] t[j]).len() == n,
            a.is_state(current_state.model()),
            forall|r: Place<A>| #[trigger]
                leads_to(a, o, t.take(i as int), r) <==> r == current_state.model(),
        decreases len - i,
    {
        let ghost s0 = *store;
        let ghost q = current_state.model();
        let ghost t1 = t.take(i + 1);
        proof {
            a.lemma_valid(s0, o);
            assert(t[i - 1].len() == n && t[i as int].len() == n);
            assert(t[i - 1] == trace@[i - 1]@ && t[i as int] == trace@[i as int]@);
            assert(t1.drop_last() =~= t.take(i as int));
            assert(t1[t1.len() - 2] == t[i - 1] && t1[t1.len() - 1] == t[i as int]);
        }
        let ts = a.transitions(store, &current_state);
        let target = find_target(store, &ts, &trace[i - 1], &trace[i]);
        proof {
            assert forall|r: Place<A>| #[trigger] leads_to(a, o, t1, r) <==> a.step(
                o,
                q,
                t[i - 1],
                r,
                t[i as int],
            ) by {
                if leads_to(a, o, t1, r) {
                    let z = choose|z: Place<A>|
                        leads_to(a, o, t1.drop_last(), z) && #[trigger] a.step(
                            o,
                            z,
                            t1[t1.len() - 2],
                            r,
                            t1[t1.len() - 1],
                        );
                    assert(z == q);
                }
                if a.step(o, q, t[i - 1], r, t[i as int]) {
                    assert(leads_to(a, o, t1.drop_last(), q));
                }
            }
            assert forall|r: Place<A>| #[trigger] a.step(o, q, t[i - 1], r, t[i as int]) == listed(
                *store,
                ts@,
                t[i - 1],
                r,
                t[i as int],
            ) by {
                assert(a.step(s0, q, t[i - 1], r, t[i as int]) == a.step(
                    o,
                    q,
                    t[i - 1],
                    r,
                    t[i as int],
                ));
            }
        }
        match target {
            Some(next) => {
                proof {
                    let m = next.model();
                    assert(a.step(o, q, t[i - 1], m, t[i as int]));
                    a.lemma_states(o);
                    assert forall|r: Place<A>| #[trigger] leads_to(a, o, t1, r) <==> r == m by {}
                }
                current_state = next;
            },
            None => {
                proof {
                    if nfa_word(a, o, a.init(), w) {
                        lemma_split(a, o, w, i as int);
                        assert(w.take(i + 1) =~= t1);
                        let r = choose|r: Place<A>| #[trigger]
                            leads_to(a, o, w.take(i + 1), r) && nfa_word(
                                a,
                                o,
                                r,
                                w.skip(i as int),
                            );
                        assert(leads_to(a, o, t1, r));
                        assert(listed(*store, ts@, t[i - 1], r, t[i as int]));
                    }
                }
                return false;
            },
        }
        i = i + 1;
    }
    let ghost s0 = *store;
    let ghost q = current_state.model();
    proof {
        assert(t.take(i as int) =~= t);
        assert(t[len - 1] == trace@[len - 1]@);
        assert(t[len - 1].len() == n);
        a.lemma_valid(s0, o);
        lemma_split(a, o, w, len - 1);
        assert(w.take(len as int) =~= t);
        assert(w.skip(len - 1) =~= pair(t[len - 1], output@));
    }
    let y = a.output(store, &current_state);
    let b = store.accepts(y, trace[len - 1].as_slice(), output);
    proof {
        assert(b == a.out(s0, q, t[len - 1], output@));
        assert(a.out(s0, q, t[len - 1], output@) == a.out(o, q, t[len - 1], output@));
        if b {
            assert(leads_to(a, o, w.take(len as int), q));
            assert(nfa_word(a, o, q, w.skip(len - 1)));
        }
        if led(a, o, w.take(len as int), w.skip(len - 1)) {
            let r = choose|r: Place<A>| #[trigger]
                leads_to(a, o, w.take(len as int), r) && nfa_word(a, o, r, w.skip(len - 1));
            assert(r == q);
        }
    }
    b
}

// ---- a relation as an automaton --------------------------------------------------------

/// One state without transitions, whose output is the relation.
impl ENFA for SPP {
    type State = ();

    open spec fn valid(&self, st: SPPstore) -> bool {
        st.has(*self)
    }

    open spec fn is_state(&self, q: ()) -> bool {
        true
    }

    open spec fn init(&self) -> () {
        ()
    }

    open spec fn vis(&self, q: ()) -> bool {
        true
    }

    open spec fn step(&self, st: SPPstore, q: (), p: Pkt, r: (), x: Pkt) -> bool {
        false
    }

    open spec fn out(&self, st: SPPstore, q: (), p: Pkt, x: Pkt) -> bool {
        st.rel(*self, p, x)
    }

    proof fn lemma_valid(&self, st: SPPstore, o: SPPstore) {
    }

    proof fn lemma_states(&self, st: SPPstore) {
    }

    fn start(&self, store: &mut SPPstore) -> (q: ()) {
        ()
    }

    fn is_visible(&self, store: &mut SPPstore, q: &()) -> (b: bool) {
        true
    }

    fn transitions(&self, store: &mut SPPstore, q: &()) -> (ts: Vec<(SPP, ())>) {
        Vec::new()
    }

    fn output(&self, store: &mut SPPstore, q: &()) -> (y: SPP) {
        *self
    }
}

impl NFA for SPP {
    proof fn lemma_visible(&self) {
    }
}

impl DFA for SPP {
    proof fn lemma_deterministic(&self, st: SPPstore) {
    }
}

/// A relation accepts its pairs.
pub proof fn law_spp_lang(x: SPP, st: SPPstore, w: Word)
    requires
        is_word(st.n(), w),
    ensures
        enfa_lang(&x, st)(w) <==> w.len() == 2 && st.rel(x, w[0], w[1]),
{
    lemma_nfa_word(&x, st, (), w);
}

// ---- borrowed automata -------------------------------------------------------------------

impl<T: ENFA> ENFA for &T {
    type State = T::State;

    open spec fn valid(&self, st: SPPstore) -> bool {
        (**self).valid(st)
    }

    open spec fn is_state(&self, q: Place<Self>) -> bool {
        (**self).is_state(q)
    }

    open spec fn init(&self) -> Place<Self> {
        (**self).init()
    }

    open spec fn vis(&self, q: Place<Self>) -> bool {
        (**self).vis(q)
    }

    open spec fn step(&self, st: SPPstore, q: Place<Self>, p: Pkt, r: Place<Self>, x: Pkt) -> bool {
        (**self).step(st, q, p, r, x)
    }

    open spec fn out(&self, st: SPPstore, q: Place<Self>, p: Pkt, x: Pkt) -> bool {
        (**self).out(st, q, p, x)
    }

    proof fn lemma_valid(&self, st: SPPstore, o: SPPstore) {
        (**self).lemma_valid(st, o);
    }

    proof fn lemma_states(&self, st: SPPstore) {
        (**self).lemma_states(st);
    }

    fn start(&self, store: &mut SPPstore) -> (q: Self::State) {
        (**self).start(store)
    }

    fn is_visible(&self, store: &mut SPPstore, q: &Self::State) -> (b: bool) {
        (**self).is_visible(store, q)
    }

    fn transitions(&self, store: &mut SPPstore, q: &Self::State) -> (ts: Vec<(SPP, Self::State)>) {
        (**self).transitions(store, q)
    }

    fn output(&self, store: &mut SPPstore, q: &Self::State) -> (y: SPP) {
        (**self).output(store, q)
    }
}

impl<T: NFA> NFA for &T {
    proof fn lemma_visible(&self) {
        (**self).lemma_visible();
        assert forall|q: Place<Self>| #[trigger] self.vis(q) by {
            assert((**self).vis(q));
        }
    }
}

impl<T: DFA> DFA for &T {
    proof fn lemma_deterministic(&self, st: SPPstore) {
        (**self).lemma_deterministic(st);
        assert forall|q: Place<Self>, p: Pkt, r: Place<Self>, s: Place<Self>, x: Pkt|
            #![trigger self.step(st, q, p, r, x), self.step(st, q, p, s, x)]
            self.is_state(q) && p.len() == st.n() && x.len() == st.n() && self.step(
                st,
                q,
                p,
                r,
                x,
            ) && self.step(st, q, p, s, x) implies r == s by {
            assert((**self).step(st, q, p, r, x) && (**self).step(st, q, p, s, x));
        }
    }
}

} // verus!
