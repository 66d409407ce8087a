//! Automata with their holes filled.
//!
//! An [`Instantiate`] is the automaton of an expression with holes together with
//! an automaton for each hole.  Along an edge that is labelled by a hole it runs
//! through the automaton that fills the hole.
use vstd::prelude::*;
use crate::holes::aut::{
    accepts_from, enfa_lang, is_path, lemma_first, lemma_listed_push, lemma_path_states, lemma_run_rest, listed, moves,
    onward, run_on, seen, trace_of, Place, StateKey, DFA, ENFA, NFA,
};
use crate::holes::closure::{law_closure, EpsilonClosure};
use crate::holes::elaborate::packets_of;
use crate::holes::nk_with_holes::{
    crosses, derives, ends, keeps, label_lang, label_ok, leaves, same_holes, AutWithHoles,
    EdgeLabel, Fill, Hole, State as HoleState,
};
use crate::holes::ops::{
    complement, intersection, law_complement, law_intersection, lemma_listed_ext,
};
use crate::holes::search::{get_any_trace, get_any_trace_with_states, inhabited, lemma_word_of, path_of};
use crate::holes::subset::{law_subset, SubsetDfa};
use crate::lang::{back, front, is_word, lemma_parts, once, packets, Lang, Word};
use crate::sp::Pkt;
use crate::spp::{SPPstore, SPP};
use crate::text::copy_bits;

verus! {

// ---- what fills the holes ----------------------------------------------------------------

/// A value for each of a number of holes.
#[derive(Debug)]
pub struct Filling<C> {
    pub entries: Vec<(Hole, C)>,
}

impl<C> Filling<C> {
    /// No hole has two values.
    pub open spec fn wf(&self) -> bool {
        forall|i: int, j: int|
            #![trigger self.entries@[i], self.entries@[j]]
            0 <= i < self.entries@.len() && 0 <= j < self.entries@.len() && self.entries@[i].0
                == self.entries@[j].0 ==> i == j
    }

    /// The hole has the value of entry `i`.
    pub open spec fn is_at(&self, h: Hole, i: int) -> bool {
        0 <= i < self.entries@.len() && self.entries@[i].0 == h
    }

    /// The hole has a value.
    pub open spec fn has(&self, h: Hole) -> bool {
        exists|i: int| #[trigger] self.is_at(h, i)
    }

    /// The value of a hole.
    pub open spec fn val(&self, h: Hole) -> C {
        self.entries@[choose|i: int| #[trigger] self.is_at(h, i)].1
    }

    /// No hole has a value.
    pub fn new() -> (r: Self)
        ensures
            r.wf(),
            r.entries@.len() == 0,
    {
        Filling { entries: Vec::new() }
    }

    /// The number of holes that have a value.
    pub fn len(&self) -> (n: usize)
        ensures
            n == self.entries@.len(),
    {
        self.entries.len()
    }

    /// Where the value of a hole is kept.
    pub fn find(&self, h: Hole) -> (r: Option<usize>)
        requires
            self.wf(),
        ensures
            match r {
                Some(i) => self.is_at(h, i as int) && self.has(h) && self.val(h)
                    == self.entries@[i as int].1,
                None => !self.has(h),
            },
    {
        let mut i: usize = 0;
        while i < self.entries.len()
            invariant
                i <= self.entries@.len(),
                self.wf(),
                forall|j: int| 0 <= j < i ==> !#[trigger] self.is_at(h, j),
            decreases self.entries.len() - i,
        {
            if self.entries[i].0 == h {
                assert(self.is_at(h, i as int));
                return Some(i);
            }
            i = i + 1;
        }
        None
    }

    /// The value of a hole.
    pub fn get(&self, h: &Hole) -> (r: Option<&C>)
        requires
            self.wf(),
        ensures
            match r {
                Some(c) => self.has(*h) && *c == self.val(*h),
                None => !self.has(*h),
            },
    {
        match self.find(*h) {
            Some(i) => Some(&self.entries[i].1),
            None => None,
        }
    }

    /// Give a hole a value, in place of the one it has.
    pub fn insert(&mut self, h: Hole, c: C)
        requires
            old(self).wf(),
        ensures
            final(self).wf(),
            final(self).has(h),
            final(self).val(h) == c,
            forall|g: Hole| #[trigger] final(self).has(g) <==> old(self).has(g) || g == h,
            forall|g: Hole| g != h && old(self).has(g) ==> #[trigger] final(self).val(g)
                == old(self).val(g),
            final(self).entries@.len() == old(self).entries@.len() + (if old(self).has(h) {
                0int
            } else {
                1int
            }),
    {
        let ghost o = *self;
        match self.find(h) {
            Some(i) => {
                self.entries.set(i, (h, c));
                proof {
                    assert forall|g: Hole, j: int| #[trigger] self.is_at(g, j) == o.is_at(g, j) by {
                        if 0 <= j < o.entries@.len() {
                            assert(o.entries@[j].0 == self.entries@[j].0);
                        }
                    }
                    assert(self.wf()) by {
                        assert forall|a: int, b: int|
                            #![trigger self.entries@[a], self.entries@[b]]
                            0 <= a < self.entries@.len() && 0 <= b < self.entries@.len()
                                && self.entries@[a].0 == self.entries@[b].0 implies a == b by {
                            assert(o.entries@[a].0 == o.entries@[b].0);
                        }
                    }
                    Self::lemma_values(&o, &*self, h, i as int);
                }
            },
            None => {
                self.entries.push((h, c));
                proof {
                    let k = o.entries@.len() as int;
                    assert(self.is_at(h, k));
                    assert forall|g: Hole, j: int| #[trigger] self.is_at(g, j) == (o.is_at(g, j)
                        || (g == h && j == k)) by {
                        if 0 <= j < k {
                            assert(o.entries@[j] == self.entries@[j]);
                        }
                    }
                    assert(self.wf()) by {
                        assert forall|a: int, b: int|
                            #![trigger self.entries@[a], self.entries@[b]]
                            0 <= a < self.entries@.len() && 0 <= b < self.entries@.len()
                                && self.entries@[a].0 == self.entries@[b].0 implies a == b by {
                            if a < k && b < k {
                                assert(o.entries@[a].0 == o.entries@[b].0);
                            } else if a < k {
                                assert(o.is_at(h, a));
                            } else if b < k {
                                assert(o.is_at(h, b));
                            }
                        }
                    }
                    Self::lemma_values(&o, &*self, h, k);
                }
            },
        }
    }

    proof fn lemma_values(o: &Self, s: &Self, h: Hole, k: int)
        requires
            o.wf(),
            s.wf(),
            s.is_at(h, k),
            forall|g: Hole, j: int| #[trigger] s.is_at(g, j) == (o.is_at(g, j) || (g == h && j
                == k)),
            forall|j: int|
                0 <= j < o.entries@.len() && j != k ==> o.entries@[j] == #[trigger] s.entries@[j],
            o.entries@.len() <= s.entries@.len(),
        ensures
            s.has(h),
            s.val(h) == s.entries@[k].1,
            forall|g: Hole| #[trigger] s.has(g) <==> o.has(g) || g == h,
            forall|g: Hole| g != h && o.has(g) ==> #[trigger] s.val(g) == o.val(g),
    {
        let z = choose|i: int| #[trigger] s.is_at(h, i);
        assert(z == k);
        assert forall|g: Hole| #[trigger] s.has(g) <==> o.has(g) || g == h by {
            if o.has(g) {
                let i = choose|i: int| #[trigger] o.is_at(g, i);
                assert(s.is_at(g, i));
            }
            if s.has(g) && g != h {
                let i = choose|i: int| #[trigger] s.is_at(g, i);
                assert(o.is_at(g, i));
            }
        }
        assert forall|g: Hole| g != h && o.has(g) implies #[trigger] s.val(g) == o.val(g) by {
            let i = choose|i: int| #[trigger] o.is_at(g, i);
            let j = choose|j: int| #[trigger] s.is_at(g, j);
            assert(s.is_at(g, i));
            assert(i == j);
            assert(s.entries@[i].0 == g && s.entries@[k].0 == h);
        }
    }

    /// The value of the hole at an index.
    pub proof fn lemma_val(&self, i: int)
        requires
            self.wf(),
            0 <= i < self.entries@.len(),
        ensures
            self.has(self.entries@[i].0),
            self.val(self.entries@[i].0) == self.entries@[i].1,
    {
        let h = self.entries@[i].0;
        assert(self.is_at(h, i));
        let z = choose|z: int| #[trigger] self.is_at(h, z);
        assert(z == i);
    }
}

// ---- the graph of an expression ------------------------------------------------------------

/// The states that an expression leads to, with their edges and the labels at
/// which they end.  State 0 is the expression itself.
#[derive(Debug)]
pub struct HoleGraph {
    pub states: Vec<HoleState>,
    pub edges: Vec<Vec<(EdgeLabel, usize)>>,
    pub ends: Vec<Vec<EdgeLabel>>,
}

/// The edges with the states that they lead to.
pub open spec fn targets(
    states: Seq<HoleState>,
    es: Seq<(EdgeLabel, usize)>,
) -> Seq<(EdgeLabel, HoleState)> {
    es.map_values(|e: (EdgeLabel, usize)| (e.0, states[e.1 as int]))
}

/// The edges and ends of the first `k` states are those of their expressions.
pub open spec fn graph_rows(a: AutWithHoles, st: SPPstore, g: HoleGraph, k: nat) -> bool {
    &&& k <= g.states@.len()
    &&& g.edges@.len() == k
    &&& g.ends@.len() == k
    &&& forall|i: int| 0 <= i < g.states@.len() ==> a.has((#[trigger] g.states@[i]).aexpr)
    &&& forall|i: int| 0 <= i < k ==> #[trigger] graph_row(a, st, g, i)
}

/// The edges and ends of state `i` are those of its expression.
pub open spec fn graph_row(a: AutWithHoles, st: SPPstore, g: HoleGraph, i: int) -> bool {
    &&& forall|j: int|
        0 <= j < g.edges@[i]@.len() ==> (#[trigger] g.edges@[i]@[j]).1 < g.states@.len()
    &&& derives(
        a,
        st,
        g.states@[i].aexpr,
        targets(g.states@, g.edges@[i]@),
        g.ends@[i]@,
    )
}

/// The graph is that of the automaton.
pub open spec fn graph_of(a: AutWithHoles, st: SPPstore, g: HoleGraph) -> bool {
    g.states@.len() > 0 && graph_rows(a, st, g, g.states@.len())
}

proof fn lemma_derives_ext(
    a: AutWithHoles,
    st: SPPstore,
    b: AutWithHoles,
    st2: SPPstore,
    s: usize,
    es: Seq<(EdgeLabel, HoleState)>,
    ls: Seq<EdgeLabel>,
)
    requires
        keeps(a, st, b, st2),
        a.has(s),
        derives(a, st, s, es, ls),
    ensures
        derives(b, st2, s, es, ls),
{
    let n = st.n();
    assert forall|l: EdgeLabel| #[trigger] label_ok(a, st, l) implies label_ok(b, st2, l) by {
        if let EdgeLabel::Abstract(h) = l {
            let q = choose|q: int|
                0 <= q < a.tbl().len() && #[trigger] a.tbl()[q]
                    == crate::holes::nk_with_holes::Node::Hole(h);
            assert(b.tbl()[q] == a.tbl()[q]);
        }
    }
    assert forall|hs: Fill, l: EdgeLabel, w: Word| #![trigger label_lang(st2, hs, l)(w)]
        is_word(n, w) && label_ok(a, st, l) implies label_lang(st2, hs, l)(w) == label_lang(
        st,
        hs,
        l,
    )(w) by {
        if let EdgeLabel::Concrete(x) = l {
            assert(st.rel(x, w[0], w[1]) == st2.rel(x, w[0], w[1]));
        }
    }
    assert forall|hs: Fill, w: Word| is_word(n, w) implies #[trigger] ends(st2, hs, ls, w) == ends(
        st,
        hs,
        ls,
        w,
    ) by {
        if ends(st2, hs, ls, w) {
            let j = choose|j: int| 0 <= j < ls.len() && label_lang(st2, hs, #[trigger] ls[j])(w);
            assert(label_ok(a, st, ls[j]));
            assert(label_lang(st, hs, ls[j])(w));
        }
        if ends(st, hs, ls, w) {
            let j = choose|j: int| 0 <= j < ls.len() && label_lang(st, hs, #[trigger] ls[j])(w);
            assert(label_ok(a, st, ls[j]));
            assert(label_lang(st2, hs, ls[j])(w));
        }
    }
    assert forall|hs: Fill, w: Word, j: int, i: int, m: Pkt, d: nat|
        is_word(n, w) && 0 <= j < es.len() implies #[trigger] crosses(
        b,
        st2,
        hs,
        es[j],
        w,
        i,
        m,
        d,
    ) == crosses(a, st, hs, es[j], w, i, m, d) by {
        if 0 <= i <= w.len() - 2 && m.len() == n {
            lemma_parts(n, w, i, m);
            assert(label_ok(a, st, es[j].0));
            assert(label_lang(st2, hs, es[j].0)(front(w, i, m)) == label_lang(st, hs, es[j].0)(
                front(w, i, m),
            ));
            let v = back(w, i, m);
            let t = es[j].1.aexpr;
            assert(a.has(t));
            if v.len() >= 3 {
                let u = v.skip(1);
                assert forall|k: int| 0 <= k < u.len() implies (#[trigger] u[k]).len() == n by {
                    assert(u[k] == v[k + 1]);
                }
                assert(a.takes(st, hs, t, u, d) == b.takes(st2, hs, t, u, d));
            }
            assert(a.takes(st, hs, t, v, d) == b.takes(st2, hs, t, v, d));
        }
    }
    assert forall|hs: Fill, w: Word, c: nat| is_word(n, w) implies #[trigger] leaves(
        b,
        st2,
        hs,
        es,
        w,
        c,
    ) == leaves(a, st, hs, es, w, c) by {
        if leaves(b, st2, hs, es, w, c) {
            let (j, i, m, d) = choose|j: int, i: int, m: Pkt, d: nat|
                0 <= j < es.len() && d < c && #[trigger] crosses(b, st2, hs, es[j], w, i, m, d);
            assert(crosses(a, st, hs, es[j], w, i, m, d));
        }
        if leaves(a, st, hs, es, w, c) {
            let (j, i, m, d) = choose|j: int, i: int, m: Pkt, d: nat|
                0 <= j < es.len() && d < c && #[trigger] crosses(a, st, hs, es[j], w, i, m, d);
            assert(crosses(b, st2, hs, es[j], w, i, m, d));
        }
    }
    assert forall|j: int| 0 <= j < es.len() implies label_ok(b, st2, (#[trigger] es[j]).0)
        && b.has(es[j].1.aexpr) by {
        assert(label_ok(a, st, es[j].0) && a.has(es[j].1.aexpr));
    }
    assert forall|j: int| 0 <= j < ls.len() implies label_ok(b, st2, #[trigger] ls[j]) by {
        assert(label_ok(a, st, ls[j]));
    }
    assert forall|hs: Fill, w: Word, c: nat|
        is_word(n, w) && #[trigger] b.takes(st2, hs, s, w, c) implies ends(st2, hs, ls, w)
        || leaves(b, st2, hs, es, w, c) by {
        assert(a.takes(st, hs, s, w, c));
        assert(ends(st2, hs, ls, w) == ends(st, hs, ls, w));
        assert(leaves(b, st2, hs, es, w, c) == leaves(a, st, hs, es, w, c));
    }
    assert forall|hs: Fill, w: Word|
        is_word(n, w) && #[trigger] ends(st2, hs, ls, w) implies b.accepts(st2, hs, s, w) by {
        assert(ends(st, hs, ls, w));
        assert(a.accepts(st, hs, s, w));
    }
    assert forall|hs: Fill, w: Word, c: nat|
        is_word(n, w) && #[trigger] leaves(b, st2, hs, es, w, c) implies b.accepts(
        st2,
        hs,
        s,
        w,
    ) by {
        assert(leaves(a, st, hs, es, w, c));
        assert(a.accepts(st, hs, s, w));
    }
}

/// The index of a state, which is added if it is new.
fn state_index(states: &mut Vec<HoleState>, q: HoleState) -> (i: usize)
    ensures
        i < final(states)@.len(),
        final(states)@[i as int] == q,
        old(states)@.len() <= final(states)@.len(),
        forall|k: int| 0 <= k < old(states)@.len() ==> #[trigger] final(states)@[k] == old(states)@[k],
        forall|k: int|
            old(states)@.len() <= k < final(states)@.len() ==> #[trigger] final(states)@[k] == q,
{
    let mut i: usize = 0;
    while i < states.len()
        invariant
            i <= states@.len(),
            states@ == old(states)@,
        decreases states.len() - i,
    {
        if states[i] == q {
            return i;
        }
        i = i + 1;
    }
    states.push(q);
    i
}

impl HoleGraph {
    /// The states that `start` leads to.
    pub fn explore(aut: &mut AutWithHoles, store: &mut SPPstore, start: HoleState) -> (g: HoleGraph)
        requires
            old(store).wf(),
            old(aut).wf(old(store)),
            old(aut).has(start.aexpr),
        ensures
            final(store).wf(),
            final(store).sp == old(store).sp,
            final(aut).wf(final(store)),
            keeps(*old(aut), *old(store), *final(aut), *final(store)),
            same_holes(*old(aut), *final(aut)),
            graph_of(*final(aut), *final(store), g),
            g.states@[0] == start,
    {
        let ghost a0 = *aut;
        let ghost st0 = *store;
        let mut g = HoleGraph { states: Vec::new(), edges: Vec::new(), ends: Vec::new() };
        g.states.push(start);
        proof {
            store.lemma_wf();
            aut.lemma_wf_ext(*store, *store);
        }
        while g.edges.len() < g.states.len()
            invariant
                a0 == *old(aut),
                st0 == *old(store),
                a0.wf(&st0),
                store.wf(),
                store.sp == st0.sp,
                aut.wf(store),
                keeps(a0, st0, *aut, *store),
                same_holes(a0, *aut),
                graph_rows(*aut, *store, g, g.edges@.len()),
                g.states@.len() > 0,
                g.states@[0] == start,
            decreases usize::MAX - g.edges.len(),
        {
            let ghost g1 = g;
            let ghost a1 = *aut;
            let ghost st1 = *store;
            let k = g.edges.len();
            let q = g.states[k];
            assert(a1.has(g1.states@[k as int].aexpr));
            let (es, ls) = aut.derivative(store, q);
            let mut row: Vec<(EdgeLabel, usize)> = Vec::new();
            let mut i: usize = 0;
            proof {
                aut.lemma_keeps(*store, &a0, st0);
                assert forall|j: int| 0 <= j < g.states@.len() implies aut.has(
                    (#[trigger] g.states@[j]).aexpr,
                ) by {
                    assert(a1.has(g1.states@[j].aexpr));
                }
            }
            while i < es.len()
                invariant
                    i <= es@.len(),
                    row@.len() == i,
                    g.edges == g1.edges,
                    g.ends == g1.ends,
                    g1.states@.len() <= g.states@.len(),
                    forall|j: int|
                        0 <= j < g1.states@.len() ==> #[trigger] g.states@[j] == g1.states@[j],
                    forall|j: int|
                        0 <= j < g.states@.len() ==> aut.has((#[trigger] g.states@[j]).aexpr),
                    forall|j: int|
                        0 <= j < es@.len() ==> aut.has((#[trigger] es@[j]).1.aexpr),
                    forall|j: int|
                        0 <= j < i ==> (#[trigger] row@[j]).1 < g.states@.len() && row@[j].0
                            == es@[j].0 && g.states@[row@[j].1 as int] == es@[j].1,
                decreases es.len() - i,
            {
                let (l, t) = es[i];
                let ghost s1 = g.states@;
                let j = state_index(&mut g.states, t);
                row.push((l, j));
                proof {
                    assert forall|x: int| 0 <= x < g.states@.len() implies aut.has(
                        (#[trigger] g.states@[x]).aexpr,
                    ) by {
                        if x < s1.len() {
                            assert(aut.has(s1[x].aexpr));
                        } else {
                            assert(aut.has(es@[i as int].1.aexpr));
                        }
                    }
                    assert forall|x: int| 0 <= x < i + 1 implies (#[trigger] row@[x]).1
                        < g.states@.len() && row@[x].0 == es@[x].0 && g.states@[row@[x].1 as int]
                        == es@[x].1 by {
                        if x < i {
                            assert(g.states@[row@[x].1 as int] == s1[row@[x].1 as int]);
                        }
                    }
                    assert forall|x: int| 0 <= x < g1.states@.len() implies #[trigger] g.states@[x]
                        == g1.states@[x] by {
                        assert(s1[x] == g1.states@[x]);
                    }
                }
                i = i + 1;
            }
            let ghost row1 = row@;
            g.edges.push(row);
            g.ends.push(ls);
            proof {
                assert forall|x: int| 0 <= x < k + 1 implies #[trigger] graph_row(
                    *aut,
                    *store,
                    g,
                    x,
                ) by {
                    if x < k {
                        assert(graph_row(a1, st1, g1, x));
                        assert(g.edges@[x] == g1.edges@[x]);
                        assert(g.ends@[x] == g1.ends@[x]);
                        assert(a1.has(g1.states@[x].aexpr));
                        assert(targets(g.states@, g.edges@[x]@) =~= targets(
                            g1.states@,
                            g1.edges@[x]@,
                        )) by {
                            assert forall|y: int| 0 <= y < g1.edges@[x]@.len() implies targets(
                                g.states@,
                                g.edges@[x]@,
                            )[y] == targets(g1.states@, g1.edges@[x]@)[y] by {
                                assert(g1.edges@[x]@[y].1 < g1.states@.len());
                            }
                        }
                        lemma_derives_ext(
                            a1,
                            st1,
                            *aut,
                            *store,
                            g1.states@[x].aexpr,
                            targets(g1.states@, g1.edges@[x]@),
                            g1.ends@[x]@,
                        );
                    } else {
                        assert(g.states@[x] == q);
                        assert(targets(g.states@, row1) =~= es@);
                    }
                }
            }
        }
        g
    }
}


// ---- the automaton ---------------------------------------------------------------------------

/// A state of the filled automaton: one of the expression's, or one inside a hole,
/// with the state that the hole leads to or nothing where the run ends in the hole.
#[derive(Debug, Clone, PartialEq, Eq, PartialOrd, Ord, Hash)]
pub enum State<S> {
    Outer(usize),
    Inner(Hole, S, Option<usize>),
}

impl<S: StateKey> StateKey for State<S> {
    type M = State<S::M>;

    open spec fn model(&self) -> State<S::M> {
        match *self {
            State::Outer(i) => State::Outer(i),
            State::Inner(h, s, k) => State::Inner(h, s.model(), k),
        }
    }

    fn same(&self, o: &Self) -> (r: bool) {
        match (self, o) {
            (State::Outer(i), State::Outer(j)) => *i == *j,
            (State::Inner(h, s, k), State::Inner(g, t, l)) => {
                let exits: bool = match (k, l) {
                    (Some(a), Some(b)) => *a == *b,
                    (None, None) => true,
                    _ => false,
                };
                *h == *g && exits && s.same(t)
            },
            _ => false,
        }
    }

    fn dup(&self) -> (r: Self) {
        match self {
            State::Outer(i) => State::Outer(*i),
            State::Inner(h, s, k) => State::Inner(*h, s.dup(), *k),
        }
    }
}

/// The automaton of an expression, with an automaton for each of its holes.
pub struct Instantiate<C: ENFA> {
    pub aut: AutWithHoles,
    pub graph: HoleGraph,
    pub holes: Filling<C>,
}

impl<C: ENFA> Instantiate<C> {
    /// One step along an edge.
    pub open spec fn edge_step(
        &self,
        st: SPPstore,
        e: (EdgeLabel, usize),
        p: Pkt,
        r: State<Place<C>>,
        x: Pkt,
    ) -> bool {
        match e.0 {
            EdgeLabel::Concrete(s) => r == State::<Place<C>>::Outer(e.1) && st.rel(s, p, x),
            EdgeLabel::Abstract(h) => {
                ||| r == State::<Place<C>>::Outer(e.1) && self.holes.val(h).out(
                    st,
                    self.holes.val(h).init(),
                    p,
                    x,
                )
                ||| self.inner_step(st, h, self.holes.val(h).init(), Some(e.1), p, r, x)
            },
        }
    }

    /// One step inside a hole.
    pub open spec fn inner_step(
        &self,
        st: SPPstore,
        h: Hole,
        t: Place<C>,
        k: Option<usize>,
        p: Pkt,
        r: State<Place<C>>,
        x: Pkt,
    ) -> bool {
        r matches State::Inner(g, u, l) && g == h && l == k && self.holes.val(h).step(
            st,
            t,
            p,
            u,
            x,
        )
    }

    /// One step into the hole in which the run ends.
    pub open spec fn end_step(
        &self,
        st: SPPstore,
        l: EdgeLabel,
        p: Pkt,
        r: State<Place<C>>,
        x: Pkt,
    ) -> bool {
        match l {
            EdgeLabel::Concrete(s) => false,
            EdgeLabel::Abstract(h) => self.inner_step(
                st,
                h,
                self.holes.val(h).init(),
                None,
                p,
                r,
                x,
            ),
        }
    }

    /// One step along some edge.
    pub open spec fn edges_step(
        &self,
        st: SPPstore,
        es: Seq<(EdgeLabel, usize)>,
        p: Pkt,
        r: State<Place<C>>,
        x: Pkt,
    ) -> bool {
        exists|k: int| 0 <= k < es.len() && self.edge_step(st, #[trigger] es[k], p, r, x)
    }

    /// One step into some hole in which the run ends.
    pub open spec fn ends_step(
        &self,
        st: SPPstore,
        ls: Seq<EdgeLabel>,
        p: Pkt,
        r: State<Place<C>>,
        x: Pkt,
    ) -> bool {
        exists|k: int| 0 <= k < ls.len() && self.end_step(st, #[trigger] ls[k], p, r, x)
    }

    /// What a label outputs without a step.
    pub open spec fn label_out(&self, st: SPPstore, l: EdgeLabel, p: Pkt, x: Pkt) -> bool {
        match l {
            EdgeLabel::Concrete(s) => st.rel(s, p, x),
            EdgeLabel::Abstract(h) => self.holes.val(h).out(st, self.holes.val(h).init(), p, x),
        }
    }

    /// What some label outputs without a step.
    pub open spec fn labels_out(&self, st: SPPstore, ls: Seq<EdgeLabel>, p: Pkt, x: Pkt) -> bool {
        exists|k: int| 0 <= k < ls.len() && self.label_out(st, #[trigger] ls[k], p, x)
    }

    /// A relation of the store, or a hole that is filled.
    pub open spec fn label_known(&self, st: SPPstore, l: EdgeLabel) -> bool {
        match l {
            EdgeLabel::Concrete(s) => st.has(s),
            EdgeLabel::Abstract(h) => self.holes.has(h),
        }
    }

    /// What fills the holes.
    pub open spec fn fill(&self, st: SPPstore) -> Fill {
        |h: Hole| if self.holes.has(h) {
            enfa_lang(&self.holes.val(h), st)
        } else {
            |w: Word| false
        }
    }

    /// The labels of a state are known, and its edges lead to states.
    pub(crate) proof fn lemma_row(&self, st: SPPstore, i: int)
        requires
            self.valid(st),
            0 <= i < self.graph.states@.len(),
        ensures
            self.graph.edges@.len() == self.graph.states@.len(),
            self.graph.ends@.len() == self.graph.states@.len(),
            forall|k: int|
                0 <= k < self.graph.edges@[i]@.len() ==> self.label_known(
                    st,
                    (#[trigger] self.graph.edges@[i]@[k]).0,
                ) && self.graph.edges@[i]@[k].1 < self.graph.states@.len(),
            forall|k: int|
                0 <= k < self.graph.ends@[i]@.len() ==> self.label_known(
                    st,
                    #[trigger] self.graph.ends@[i]@[k],
                ),
    {
        assert(graph_row(self.aut, st, self.graph, i));
        let ts = targets(self.graph.states@, self.graph.edges@[i]@);
        assert forall|k: int| 0 <= k < self.graph.edges@[i]@.len() implies self.label_known(
            st,
            (#[trigger] self.graph.edges@[i]@[k]).0,
        ) && self.graph.edges@[i]@[k].1 < self.graph.states@.len() by {
            assert(label_ok(self.aut, st, ts[k].0));
        }
        assert forall|k: int| 0 <= k < self.graph.ends@[i]@.len() implies self.label_known(
            st,
            #[trigger] self.graph.ends@[i]@[k],
        ) by {
            assert(label_ok(self.aut, st, self.graph.ends@[i]@[k]));
        }
    }

    /// Add the steps inside hole `h` from state `t`.
    fn add_inner(
        &self,
        store: &mut SPPstore,
        c: &C,
        h: Hole,
        t: &C::State,
        k: Option<usize>,
        ts: &mut Vec<(SPP, State<C::State>)>,
    )
        requires
            old(store).wf(),
            c.valid(*old(store)),
            c.is_state(t.model()),
            *c == self.holes.val(h),
            forall|i: int| 0 <= i < old(ts)@.len() ==> old(store).has((#[trigger] old(ts)@[i]).0),
        ensures
            final(store).wf(),
            final(store).extends(old(store)),
            forall|i: int|
                0 <= i < final(ts)@.len() ==> final(store).has((#[trigger] final(ts)@[i]).0),
            forall|i: int|
                0 <= i < final(ts)@.len() ==> (i < old(ts)@.len() && #[trigger] final(ts)@[i]
                    == old(ts)@[i]) || (final(ts)@[i].1.model() matches State::Inner(g, u, l)
                    && g == h && l == k && c.is_state(u)),
            forall|p: Pkt, r: State<Place<C>>, x: Pkt|
                #![trigger listed(*final(store), final(ts)@, p, r, x)]
                p.len() == old(store).n() && x.len() == old(store).n() ==> (listed(
                    *final(store),
                    final(ts)@,
                    p,
                    r,
                    x,
                ) <==> listed(*old(store), old(ts)@, p, r, x) || self.inner_step(
                    *old(store),
                    h,
                    t.model(),
                    k,
                    p,
                    r,
                    x,
                )),
    {
        let ghost o = *store;
        let ghost n = o.n();
        let ghost ts0 = ts@;
        let us = c.transitions(store, t);
        let ghost s1 = *store;
        let mut i: usize = 0;
        proof {
            lemma_listed_ext(s1, o, ts0);
        }
        while i < us.len()
            invariant
                n == o.n(),
                s1 == *store,
                s1.extends(&o),
                i <= us@.len(),
                ts@.len() == ts0.len() + i,
                forall|j: int| 0 <= j < ts0.len() ==> #[trigger] ts@[j] == ts0[j],
                forall|j: int|
                    ts0.len() <= j < ts@.len() ==> (#[trigger] ts@[j]).0 == us@[j - ts0.len()].0
                        && ts@[j].1.model() == State::<Place<C>>::Inner(
                        h,
                        us@[j - ts0.len()].1.model(),
                        k,
                    ),
            decreases us.len() - i,
        {
            ts.push((us[i].0, State::Inner(h, us[i].1.dup(), k)));
            i = i + 1;
        }
        proof {
            let tv = ts@;
            assert forall|p: Pkt, r: State<Place<C>>, x: Pkt|
                #![trigger listed(s1, tv, p, r, x)]
                p.len() == n && x.len() == n implies (listed(s1, tv, p, r, x) <==> listed(
                o,
                ts0,
                p,
                r,
                x,
            ) || self.inner_step(o, h, t.model(), k, p, r, x)) by {
                if listed(s1, tv, p, r, x) {
                    let j = choose|j: int|
                        0 <= j < tv.len() && s1.rel((#[trigger] tv[j]).0, p, x) && tv[j].1.model()
                            == r;
                    if j < ts0.len() {
                        assert(tv[j] == ts0[j]);
                        assert(listed(s1, ts0, p, r, x));
                    } else {
                        let u = us@[j - ts0.len()];
                        assert(listed(s1, us@, p, u.1.model(), x));
                        assert(c.step(o, t.model(), p, u.1.model(), x));
                    }
                }
                if listed(o, ts0, p, r, x) {
                    assert(listed(s1, ts0, p, r, x));
                    let j = choose|j: int|
                        0 <= j < ts0.len() && s1.rel((#[trigger] ts0[j]).0, p, x)
                            && ts0[j].1.model() == r;
                    assert(tv[j] == ts0[j]);
                }
                if self.inner_step(o, h, t.model(), k, p, r, x) {
                    let u = r->Inner_1;
                    assert(c.step(o, t.model(), p, u, x));
                    assert(listed(s1, us@, p, u, x));
                    let j = choose|j: int|
                        0 <= j < us@.len() && s1.rel((#[trigger] us@[j]).0, p, x)
                            && us@[j].1.model() == u;
                    assert(tv[j + ts0.len()].1.model() == r);
                    assert(s1.rel(tv[j + ts0.len()].0, p, x));
                }
            }
            assert forall|j: int| 0 <= j < tv.len() implies s1.has((#[trigger] tv[j]).0) by {
                if j < ts0.len() {
                    assert(tv[j] == ts0[j]);
                    assert(o.has(ts0[j].0));
                } else {
                    assert(s1.has(us@[j - ts0.len()].0));
                }
            }
            assert forall|j: int| 0 <= j < tv.len() implies (j < ts0.len() && #[trigger] tv[j]
                == ts0[j]) || (tv[j].1.model() matches State::Inner(g, u, l) && g == h && l == k
                && c.is_state(u)) by {
                if j >= ts0.len() {
                    assert(tv[j].0 == us@[j - ts0.len()].0);
                    assert(c.is_state(us@[j - ts0.len()].1.model()));
                }
            }
        }
    }

    /// Add the steps along an edge.
    fn add_edge(
        &self,
        store: &mut SPPstore,
        e: (EdgeLabel, usize),
        ts: &mut Vec<(SPP, State<C::State>)>,
    )
        requires
            old(store).wf(),
            self.valid(*old(store)),
            self.label_known(*old(store), e.0),
            e.1 < self.graph.states@.len(),
            forall|i: int| 0 <= i < old(ts)@.len() ==> old(store).has((#[trigger] old(ts)@[i]).0),
            forall|i: int|
                0 <= i < old(ts)@.len() ==> self.is_state((#[trigger] old(ts)@[i]).1.model()),
        ensures
            final(store).wf(),
            final(store).extends(old(store)),
            forall|i: int|
                0 <= i < final(ts)@.len() ==> final(store).has((#[trigger] final(ts)@[i]).0),
            forall|i: int|
                0 <= i < final(ts)@.len() ==> self.is_state((#[trigger] final(ts)@[i]).1.model()),
            forall|p: Pkt, r: State<Place<C>>, x: Pkt|
                #![trigger listed(*final(store), final(ts)@, p, r, x)]
                p.len() == old(store).n() && x.len() == old(store).n() ==> (listed(
                    *final(store),
                    final(ts)@,
                    p,
                    r,
                    x,
                ) <==> listed(*old(store), old(ts)@, p, r, x) || self.edge_step(
                    *old(store),
                    e,
                    p,
                    r,
                    x,
                )),
    {
        let ghost o = *store;
        let ghost n = o.n();
        let ghost ts0 = ts@;
        let ghost out_model = State::<Place<C>>::Outer(e.1);
        proof {
            o.lemma_wf();
        }
        match e.0 {
            EdgeLabel::Concrete(s) => {
                ts.push((s, State::Outer(e.1)));
                proof {
                    let t = ts@[ts0.len() as int];
                    assert(t.1.model() == out_model);
                    assert(ts@ =~= ts0.push(t));
                    assert forall|p: Pkt, r: State<Place<C>>, x: Pkt|
                        #![trigger listed(o, ts@, p, r, x)]
                        p.len() == n && x.len() == n implies (listed(o, ts@, p, r, x) <==> listed(
                        o,
                        ts0,
                        p,
                        r,
                        x,
                    ) || self.edge_step(o, e, p, r, x)) by {
                        lemma_listed_push(o, ts0, t, p, r, x);
                    }
                }
            },
            EdgeLabel::Abstract(h) => {
                let c = self.holes.get(&h).unwrap();
                proof {
                    c.lemma_states(o);
                }
                let q = c.start(store);
                let ghost s1 = *store;
                proof {
                    c.lemma_valid(s1, o);
                }
                let y = c.output(store, &q);
                let ghost s2 = *store;
                ts.push((y, State::Outer(e.1)));
                let ghost ts1 = ts@;
                proof {
                    c.lemma_valid(s2, s1);
                    lemma_listed_ext(s2, o, ts0);
                    let t = ts@[ts0.len() as int];
                    assert(t.1.model() == out_model);
                    assert(ts@ =~= ts0.push(t));
                    assert forall|i: int| 0 <= i < ts1.len() implies s2.has((#[trigger] ts1[i]).0) by {
                        if i < ts0.len() {
                            assert(ts1[i] == ts0[i]);
                            assert(o.has(ts0[i].0));
                        }
                    }
                    assert forall|p: Pkt, r: State<Place<C>>, x: Pkt|
                        #![trigger listed(s2, ts1, p, r, x)]
                        p.len() == n && x.len() == n implies (listed(s2, ts1, p, r, x) <==> listed(
                        o,
                        ts0,
                        p,
                        r,
                        x,
                    ) || (r == out_model && c.out(o, c.init(), p, x))) by {
                        lemma_listed_push(s2, ts0, t, p, r, x);
                        assert(listed(s2, ts0, p, r, x) == listed(o, ts0, p, r, x));
                        assert(s2.rel(y, p, x) == c.out(s1, c.init(), p, x));
                        assert(c.out(s1, c.init(), p, x) == c.out(o, c.init(), p, x));
                    }
                }
                self.add_inner(store, c, h, &q, Some(e.1), ts);
                proof {
                    assert forall|p: Pkt, r: State<Place<C>>, x: Pkt|
                        #![trigger listed(*store, ts@, p, r, x)]
                        p.len() == n && x.len() == n implies (listed(*store, ts@, p, r, x)
                        <==> listed(o, ts0, p, r, x) || self.edge_step(o, e, p, r, x)) by {
                        assert(listed(s2, ts1, p, r, x) <==> listed(o, ts0, p, r, x) || (r
                            == out_model && c.out(o, c.init(), p, x)));
                        if r is Inner {
                            let u = r->Inner_1;
                            assert(c.step(s2, c.init(), p, u, x) == c.step(s1, c.init(), p, u, x));
                            assert(c.step(s1, c.init(), p, u, x) == c.step(o, c.init(), p, u, x));
                        }
                    }
                    assert forall|i: int| 0 <= i < ts@.len() implies self.is_state(
                        (#[trigger] ts@[i]).1.model(),
                    ) by {
                        if i < ts1.len() && ts@[i] == ts1[i] {
                            if i < ts0.len() {
                                assert(ts1[i] == ts0[i]);
                                assert(self.is_state(ts0[i].1.model()));
                            } else {
                                assert(ts1[i].1.model() == out_model);
                            }
                        }
                    }
                }
            },
        }
    }

    /// Add the steps into a hole in which the run ends.
    fn add_end(
        &self,
        store: &mut SPPstore,
        l: EdgeLabel,
        ts: &mut Vec<(SPP, State<C::State>)>,
    )
        requires
            old(store).wf(),
            self.valid(*old(store)),
            self.label_known(*old(store), l),
            forall|i: int| 0 <= i < old(ts)@.len() ==> old(store).has((#[trigger] old(ts)@[i]).0),
            forall|i: int|
                0 <= i < old(ts)@.len() ==> self.is_state((#[trigger] old(ts)@[i]).1.model()),
        ensures
            final(store).wf(),
            final(store).extends(old(store)),
            forall|i: int|
                0 <= i < final(ts)@.len() ==> final(store).has((#[trigger] final(ts)@[i]).0),
            forall|i: int|
                0 <= i < final(ts)@.len() ==> self.is_state((#[trigger] final(ts)@[i]).1.model()),
            forall|p: Pkt, r: State<Place<C>>, x: Pkt|
                #![trigger listed(*final(store), final(ts)@, p, r, x)]
                p.len() == old(store).n() && x.len() == old(store).n() ==> (listed(
                    *final(store),
                    final(ts)@,
                    p,
                    r,
                    x,
                ) <==> listed(*old(store), old(ts)@, p, r, x) || self.end_step(
                    *old(store),
                    l,
                    p,
                    r,
                    x,
                )),
    {
        let ghost o = *store;
        let ghost n = o.n();
        let ghost ts0 = ts@;
        proof {
            o.lemma_wf();
        }
        match l {
            EdgeLabel::Concrete(_) => {},
            EdgeLabel::Abstract(h) => {
                let c = self.holes.get(&h).unwrap();
                proof {
                    c.lemma_states(o);
                }
                let q = c.start(store);
                let ghost s1 = *store;
                proof {
                    c.lemma_valid(s1, o);
                    lemma_listed_ext(s1, o, ts0);
                    assert forall|i: int| 0 <= i < ts0.len() implies s1.has((#[trigger] ts0[i]).0) by {
                        assert(o.has(ts0[i].0));
                    }
                }
                self.add_inner(store, c, h, &q, None, ts);
                proof {
                    assert forall|p: Pkt, r: State<Place<C>>, x: Pkt|
                        #![trigger listed(*store, ts@, p, r, x)]
                        p.len() == n && x.len() == n implies (listed(*store, ts@, p, r, x)
                        <==> listed(o, ts0, p, r, x) || self.end_step(o, l, p, r, x)) by {
                        assert(listed(s1, ts0, p, r, x) == listed(o, ts0, p, r, x));
                        if r is Inner {
                            let u = r->Inner_1;
                            assert(c.step(s1, c.init(), p, u, x) == c.step(o, c.init(), p, u, x));
                        }
                    }
                    assert forall|i: int| 0 <= i < ts@.len() implies self.is_state(
                        (#[trigger] ts@[i]).1.model(),
                    ) by {
                        if i < ts0.len() && ts@[i] == ts0[i] {
                            assert(self.is_state(ts0[i].1.model()));
                        }
                    }
                }
            },
        }
    }

    /// The steps from state `i` of the expression.
    fn outer_transitions(&self, store: &mut SPPstore, i: usize) -> (ts: Vec<
        (SPP, State<C::State>),
    >)
        requires
            old(store).wf(),
            self.valid(*old(store)),
            i < self.graph.states@.len(),
        ensures
            final(store).wf(),
            final(store).extends(old(store)),
            forall|j: int|
                0 <= j < ts@.len() ==> final(store).has((#[trigger] ts@[j]).0) && self.is_state(
                    ts@[j].1.model(),
                ),
            forall|p: Pkt, r: State<Place<C>>, x: Pkt|
                #![trigger listed(*final(store), ts@, p, r, x)]
                p.len() == old(store).n() && x.len() == old(store).n() ==> (listed(
                    *final(store),
                    ts@,
                    p,
                    r,
                    x,
                ) <==> self.edges_step(*old(store), self.graph.edges@[i as int]@, p, r, x)
                    || self.ends_step(*old(store), self.graph.ends@[i as int]@, p, r, x)),
    {
        let ghost o = *store;
        let ghost n = o.n();
        proof {
            self.lemma_row(o, i as int);
            o.lemma_wf();
        }
        let es = &self.graph.edges[i];
        let ls = &self.graph.ends[i];
        let mut ts: Vec<(SPP, State<C::State>)> = Vec::new();
        let mut k: usize = 0;
        while k < es.len()
            invariant
                o.wf(),
                n == o.n(),
                self.valid(o),
                store.wf(),
                store.extends(&o),
                k <= es@.len(),
                forall|j: int|
                    0 <= j < es@.len() ==> self.label_known(o, (#[trigger] es@[j]).0) && es@[j].1
                        < self.graph.states@.len(),
                forall|j: int| 0 <= j < ts@.len() ==> store.has((#[trigger] ts@[j]).0),
                forall|j: int|
                    0 <= j < ts@.len() ==> self.is_state((#[trigger] ts@[j]).1.model()),
                forall|p: Pkt, r: State<Place<C>>, x: Pkt|
                    #![trigger listed(*store, ts@, p, r, x)]
                    p.len() == n && x.len() == n ==> (listed(*store, ts@, p, r, x)
                        <==> self.edges_step(o, es@.take(k as int), p, r, x)),
            decreases es.len() - k,
        {
            let ghost s1 = *store;
            let ghost ts1 = ts@;
            proof {
                self.lemma_valid(s1, o);
                assert(self.label_known(o, es@[k as int].0));
            }
            self.add_edge(store, es[k], &mut ts);
            proof {
                let e = es@[k as int];
                assert(es@.take(k + 1) =~= es@.take(k as int).push(e));
                assert forall|p: Pkt, r: State<Place<C>>, x: Pkt|
                    #![trigger listed(*store, ts@, p, r, x)]
                    p.len() == n && x.len() == n implies (listed(*store, ts@, p, r, x)
                    <==> self.edges_step(o, es@.take(k + 1), p, r, x)) by {
                    assert(listed(s1, ts1, p, r, x) <==> self.edges_step(
                        o,
                        es@.take(k as int),
                        p,
                        r,
                        x,
                    ));
                    self.lemma_edge_step_ext(s1, o, e, p, r, x);
                    self.lemma_edges_push(o, es@.take(k as int), e, p, r, x);
                }
            }
            k = k + 1;
        }
        assert(es@.take(k as int) =~= es@);
        let ghost mid = *store;
        let mut k: usize = 0;
        while k < ls.len()
            invariant
                o.wf(),
                n == o.n(),
                self.valid(o),
                store.wf(),
                store.extends(&o),
                k <= ls@.len(),
                forall|j: int| 0 <= j < ls@.len() ==> self.label_known(o, #[trigger] ls@[j]),
                forall|j: int| 0 <= j < ts@.len() ==> store.has((#[trigger] ts@[j]).0),
                forall|j: int|
                    0 <= j < ts@.len() ==> self.is_state((#[trigger] ts@[j]).1.model()),
                forall|p: Pkt, r: State<Place<C>>, x: Pkt|
                    #![trigger listed(*store, ts@, p, r, x)]
                    p.len() == n && x.len() == n ==> (listed(*store, ts@, p, r, x)
                        <==> self.edges_step(o, es@, p, r, x) || self.ends_step(
                        o,
                        ls@.take(k as int),
                        p,
                        r,
                        x,
                    )),
            decreases ls.len() - k,
        {
            let ghost s1 = *store;
            let ghost ts1 = ts@;
            proof {
                self.lemma_valid(s1, o);
                assert(self.label_known(o, ls@[k as int]));
            }
            self.add_end(store, ls[k], &mut ts);
            proof {
                let l = ls@[k as int];
                assert(ls@.take(k + 1) =~= ls@.take(k as int).push(l));
                assert forall|p: Pkt, r: State<Place<C>>, x: Pkt|
                    #![trigger listed(*store, ts@, p, r, x)]
                    p.len() == n && x.len() == n implies (listed(*store, ts@, p, r, x)
                    <==> self.edges_step(o, es@, p, r, x) || self.ends_step(
                    o,
                    ls@.take(k + 1),
                    p,
                    r,
                    x,
                )) by {
                    assert(listed(s1, ts1, p, r, x) <==> self.edges_step(o, es@, p, r, x)
                        || self.ends_step(o, ls@.take(k as int), p, r, x));
                    self.lemma_end_step_ext(s1, o, l, p, r, x);
                    self.lemma_ends_push(o, ls@.take(k as int), l, p, r, x);
                }
            }
            k = k + 1;
        }
        assert(ls@.take(k as int) =~= ls@);
        ts
    }

    proof fn lemma_edges_push(
        &self,
        st: SPPstore,
        es: Seq<(EdgeLabel, usize)>,
        e: (EdgeLabel, usize),
        p: Pkt,
        r: State<Place<C>>,
        x: Pkt,
    )
        ensures
            self.edges_step(st, es.push(e), p, r, x) == (self.edges_step(st, es, p, r, x)
                || self.edge_step(st, e, p, r, x)),
    {
        let fs = es.push(e);
        if self.edges_step(st, es, p, r, x) {
            let k = choose|k: int|
                0 <= k < es.len() && self.edge_step(st, #[trigger] es[k], p, r, x);
            assert(fs[k] == es[k]);
        }
        if self.edge_step(st, e, p, r, x) {
            assert(fs[es.len() as int] == e);
        }
        if self.edges_step(st, fs, p, r, x) {
            let k = choose|k: int|
                0 <= k < fs.len() && self.edge_step(st, #[trigger] fs[k], p, r, x);
            if k < es.len() {
                assert(fs[k] == es[k]);
            }
        }
    }

    proof fn lemma_ends_push(
        &self,
        st: SPPstore,
        es: Seq<EdgeLabel>,
        e: EdgeLabel,
        p: Pkt,
        r: State<Place<C>>,
        x: Pkt,
    )
        ensures
            self.ends_step(st, es.push(e), p, r, x) == (self.ends_step(st, es, p, r, x)
                || self.end_step(st, e, p, r, x)),
    {
        let fs = es.push(e);
        if self.ends_step(st, es, p, r, x) {
            let k = choose|k: int|
                0 <= k < es.len() && self.end_step(st, #[trigger] es[k], p, r, x);
            assert(fs[k] == es[k]);
        }
        if self.end_step(st, e, p, r, x) {
            assert(fs[es.len() as int] == e);
        }
        if self.ends_step(st, fs, p, r, x) {
            let k = choose|k: int|
                0 <= k < fs.len() && self.end_step(st, #[trigger] fs[k], p, r, x);
            if k < es.len() {
                assert(fs[k] == es[k]);
            }
        }
    }

    proof fn lemma_edge_step_ext(
        &self,
        st: SPPstore,
        o: SPPstore,
        e: (EdgeLabel, usize),
        p: Pkt,
        r: State<Place<C>>,
        x: Pkt,
    )
        requires
            o.wf(),
            st.extends(&o),
            self.valid(o),
            self.label_known(o, e.0),
            p.len() == o.n(),
            x.len() == o.n(),
        ensures
            self.edge_step(st, e, p, r, x) == self.edge_step(o, e, p, r, x),
    {
        match e.0 {
            EdgeLabel::Concrete(s) => {
                assert(st.rel(s, p, x) == o.rel(s, p, x));
            },
            EdgeLabel::Abstract(h) => {
                let c = self.holes.val(h);
                c.lemma_valid(st, o);
                c.lemma_states(o);
                assert(c.out(st, c.init(), p, x) == c.out(o, c.init(), p, x));
                if r is Inner {
                    let u = r->Inner_1;
                    assert(c.step(st, c.init(), p, u, x) == c.step(o, c.init(), p, u, x));
                }
            },
        }
    }

    proof fn lemma_end_step_ext(
        &self,
        st: SPPstore,
        o: SPPstore,
        l: EdgeLabel,
        p: Pkt,
        r: State<Place<C>>,
        x: Pkt,
    )
        requires
            o.wf(),
            st.extends(&o),
            self.valid(o),
            self.label_known(o, l),
            p.len() == o.n(),
            x.len() == o.n(),
        ensures
            self.end_step(st, l, p, r, x) == self.end_step(o, l, p, r, x),
            self.label_out(st, l, p, x) == self.label_out(o, l, p, x),
    {
        match l {
            EdgeLabel::Concrete(s) => {
                assert(st.rel(s, p, x) == o.rel(s, p, x));
            },
            EdgeLabel::Abstract(h) => {
                let c = self.holes.val(h);
                c.lemma_valid(st, o);
                c.lemma_states(o);
                assert(c.out(st, c.init(), p, x) == c.out(o, c.init(), p, x));
                if r is Inner {
                    let u = r->Inner_1;
                    assert(c.step(st, c.init(), p, u, x) == c.step(o, c.init(), p, u, x));
                }
            },
        }
    }

    /// What the labels output.
    fn outer_output(&self, store: &mut SPPstore, i: usize) -> (y: SPP)
        requires
            old(store).wf(),
            self.valid(*old(store)),
            i < self.graph.states@.len(),
        ensures
            final(store).wf(),
            final(store).extends(old(store)),
            final(store).has(y),
            forall|p: Pkt, x: Pkt|
                #![trigger final(store).rel(y, p, x)]
                p.len() == old(store).n() && x.len() == old(store).n() ==> final(store).rel(
                    y,
                    p,
                    x,
                ) == self.labels_out(*old(store), self.graph.ends@[i as int]@, p, x),
    {
        let ghost o = *store;
        let ghost n = o.n();
        proof {
            self.lemma_row(o, i as int);
            o.lemma_wf();
        }
        let ls = &self.graph.ends[i];
        let mut y = store.zero;
        let mut k: usize = 0;
        while k < ls.len()
            invariant
                o.wf(),
                n == o.n(),
                self.valid(o),
                store.wf(),
                store.extends(&o),
                k <= ls@.len(),
                forall|j: int| 0 <= j < ls@.len() ==> self.label_known(o, #[trigger] ls@[j]),
                store.has(y),
                forall|p: Pkt, x: Pkt|
                    #![trigger store.rel(y, p, x)]
                    p.len() == n && x.len() == n ==> store.rel(y, p, x) == self.labels_out(
                        o,
                        ls@.take(k as int),
                        p,
                        x,
                    ),
            decreases ls.len() - k,
        {
            let l = ls[k];
            let ghost s1 = *store;
            let ghost y1 = y;
            proof {
                self.lemma_valid(s1, o);
                assert(self.label_known(o, ls@[k as int]));
            }
            let z = self.resolve(store, l);
            let ghost s2 = *store;
            y = store.union(y, z);
            proof {
                assert(ls@.take(k + 1) =~= ls@.take(k as int).push(l));
                assert forall|p: Pkt, x: Pkt|
                    #![trigger store.rel(y, p, x)]
                    p.len() == n && x.len() == n implies store.rel(y, p, x) == self.labels_out(
                    o,
                    ls@.take(k + 1),
                    p,
                    x,
                ) by {
                    self.lemma_end_step_ext(s1, o, l, p, State::Outer(0), x);
                    assert(s2.rel(y1, p, x) == s1.rel(y1, p, x));
                    assert(s2.rel(z, p, x) == self.label_out(o, l, p, x));
                    self.lemma_out_push(o, ls@.take(k as int), l, p, x);
                }
            }
            k = k + 1;
        }
        assert(ls@.take(k as int) =~= ls@);
        y
    }

    proof fn lemma_out_push(
        &self,
        st: SPPstore,
        es: Seq<EdgeLabel>,
        e: EdgeLabel,
        p: Pkt,
        x: Pkt,
    )
        ensures
            self.labels_out(st, es.push(e), p, x) == (self.labels_out(st, es, p, x)
                || self.label_out(st, e, p, x)),
    {
        let fs = es.push(e);
        if self.labels_out(st, es, p, x) {
            let k = choose|k: int| 0 <= k < es.len() && self.label_out(st, #[trigger] es[k], p, x);
            assert(fs[k] == es[k]);
        }
        if self.label_out(st, e, p, x) {
            assert(fs[es.len() as int] == e);
        }
        if self.labels_out(st, fs, p, x) {
            let k = choose|k: int| 0 <= k < fs.len() && self.label_out(st, #[trigger] fs[k], p, x);
            if k < es.len() {
                assert(fs[k] == es[k]);
            }
        }
    }

    /// What a label outputs without a step: its relation, or what fills the hole
    /// outputs at its start.
    fn resolve(&self, store: &mut SPPstore, l: EdgeLabel) -> (y: SPP)
        requires
            old(store).wf(),
            self.valid(*old(store)),
            self.label_known(*old(store), l),
        ensures
            final(store).wf(),
            final(store).extends(old(store)),
            final(store).has(y),
            forall|p: Pkt, x: Pkt|
                #![trigger final(store).rel(y, p, x)]
                p.len() == old(store).n() && x.len() == old(store).n() ==> final(store).rel(
                    y,
                    p,
                    x,
                ) == self.label_out(*old(store), l, p, x),
    {
        let ghost o = *store;
        proof {
            o.lemma_wf();
        }
        match l {
            EdgeLabel::Concrete(s) => s,
            EdgeLabel::Abstract(h) => {
                let c = self.holes.get(&h).unwrap();
                proof {
                    c.lemma_states(o);
                }
                let q = c.start(store);
                let ghost s1 = *store;
                proof {
                    c.lemma_valid(s1, o);
                }
                let y = c.output(store, &q);
                proof {
                    assert forall|p: Pkt, x: Pkt|
                        #![trigger store.rel(y, p, x)]
                        p.len() == o.n() && x.len() == o.n() implies store.rel(y, p, x)
                        == self.label_out(o, l, p, x) by {
                        assert(store.rel(y, p, x) == c.out(s1, c.init(), p, x));
                        assert(c.out(s1, c.init(), p, x) == c.out(o, c.init(), p, x));
                    }
                }
                y
            },
        }
    }
}

impl<C: ENFA> ENFA for Instantiate<C> {
    type State = State<C::State>;

    open spec fn valid(&self, st: SPPstore) -> bool {
        &&& self.aut.wf(&st)
        &&& graph_of(self.aut, st, self.graph)
        &&& self.holes.wf()
        &&& forall|h: Hole| #[trigger] self.aut.uses(h) ==> self.holes.has(h)
        &&& forall|h: Hole| #[trigger] self.holes.has(h) ==> self.holes.val(h).valid(st)
    }

    open spec fn is_state(&self, q: Place<Self>) -> bool {
        match q {
            State::Outer(i) => i < self.graph.states@.len(),
            State::Inner(h, t, k) => self.holes.has(h) && self.holes.val(h).is_state(t) && (
            k matches Some(j) ==> j < self.graph.states@.len()),
        }
    }

    open spec fn init(&self) -> Place<Self> {
        State::Outer(0)
    }

    open spec fn vis(&self, q: Place<Self>) -> bool {
        match q {
            State::Outer(i) => self.graph.states@[i as int].visible,
            State::Inner(h, t, k) => self.holes.val(h).vis(t),
        }
    }

    open spec fn step(&self, st: SPPstore, q: Place<Self>, p: Pkt, r: Place<Self>, x: Pkt) -> bool {
        match q {
            State::Outer(i) => self.edges_step(st, self.graph.edges@[i as int]@, p, r, x)
                || self.ends_step(st, self.graph.ends@[i as int]@, p, r, x),
            State::Inner(h, t, k) => self.inner_step(st, h, t, k, p, r, x) || (k matches Some(j)
                && r == State::<Place<C>>::Outer(j) && self.holes.val(h).out(st, t, p, x)),
        }
    }

    open spec fn out(&self, st: SPPstore, q: Place<Self>, p: Pkt, x: Pkt) -> bool {
        match q {
            State::Outer(i) => self.labels_out(st, self.graph.ends@[i as int]@, p, x),
            State::Inner(h, t, k) => k is None && self.holes.val(h).out(st, t, p, x),
        }
    }

    proof fn lemma_valid(&self, st: SPPstore, o: SPPstore) {
        self.aut.lemma_wf_ext(st, o);
        assert forall|i: int| 0 <= i < self.graph.states@.len() implies #[trigger] graph_row(
            self.aut,
            st,
            self.graph,
            i,
        ) by {
            assert(graph_row(self.aut, o, self.graph, i));
            assert(self.aut.has(self.graph.states@[i].aexpr));
            lemma_derives_ext(
                self.aut,
                o,
                self.aut,
                st,
                self.graph.states@[i].aexpr,
                targets(self.graph.states@, self.graph.edges@[i]@),
                self.graph.ends@[i]@,
            );
        }
        assert forall|h: Hole| #[trigger] self.holes.has(h) implies self.holes.val(h).valid(st) by {
            self.holes.val(h).lemma_valid(st, o);
        }
        assert forall|q: Place<Self>, p: Pkt, r: Place<Self>, x: Pkt|
            #![trigger self.step(st, q, p, r, x)]
            self.is_state(q) && p.len() == o.n() && x.len() == o.n() implies self.step(
            st,
            q,
            p,
            r,
            x,
        ) == self.step(o, q, p, r, x) by {
            match q {
                State::Outer(i) => {
                    self.lemma_row(o, i as int);
                    let es = self.graph.edges@[i as int]@;
                    let ls = self.graph.ends@[i as int]@;
                    assert forall|k: int| 0 <= k < es.len() implies self.edge_step(
                        st,
                        #[trigger] es[k],
                        p,
                        r,
                        x,
                    ) == self.edge_step(o, es[k], p, r, x) by {
                        self.lemma_edge_step_ext(st, o, es[k], p, r, x);
                    }
                    assert forall|k: int| 0 <= k < ls.len() implies self.end_step(
                        st,
                        #[trigger] ls[k],
                        p,
                        r,
                        x,
                    ) == self.end_step(o, ls[k], p, r, x) by {
                        self.lemma_end_step_ext(st, o, ls[k], p, r, x);
                    }
                },
                State::Inner(h, t, k) => {
                    let c = self.holes.val(h);
                    c.lemma_valid(st, o);
                    assert(c.out(st, t, p, x) == c.out(o, t, p, x));
                    if r is Inner {
                        let u = r->Inner_1;
                        assert(c.step(st, t, p, u, x) == c.step(o, t, p, u, x));
                    }
                },
            }
        }
        assert forall|q: Place<Self>, p: Pkt, x: Pkt|
            #![trigger self.out(st, q, p, x)]
            self.is_state(q) && p.len() == o.n() && x.len() == o.n() implies self.out(st, q, p, x)
            == self.out(o, q, p, x) by {
            match q {
                State::Outer(i) => {
                    self.lemma_row(o, i as int);
                    let ls = self.graph.ends@[i as int]@;
                    assert forall|k: int| 0 <= k < ls.len() implies self.label_out(
                        st,
                        #[trigger] ls[k],
                        p,
                        x,
                    ) == self.label_out(o, ls[k], p, x) by {
                        self.lemma_end_step_ext(st, o, ls[k], p, State::Outer(0), x);
                    }
                },
                State::Inner(h, t, k) => {
                    let c = self.holes.val(h);
                    c.lemma_valid(st, o);
                },
            }
        }
    }

    proof fn lemma_states(&self, st: SPPstore) {
        assert forall|q: Place<Self>, p: Pkt, r: Place<Self>, x: Pkt| #[trigger]
            self.step(st, q, p, r, x) && self.is_state(q) && p.len() == st.n() && x.len()
                == st.n() implies self.is_state(r) by {
            match q {
                State::Outer(i) => {
                    self.lemma_row(st, i as int);
                    let es = self.graph.edges@[i as int]@;
                    let ls = self.graph.ends@[i as int]@;
                    if self.edges_step(st, es, p, r, x) {
                        let k = choose|k: int|
                            0 <= k < es.len() && self.edge_step(st, #[trigger] es[k], p, r, x);
                        if let EdgeLabel::Abstract(h) = es[k].0 {
                            let c = self.holes.val(h);
                            assert(self.holes.has(h));
                            c.lemma_states(st);
                        }
                    } else {
                        let k = choose|k: int|
                            0 <= k < ls.len() && self.end_step(st, #[trigger] ls[k], p, r, x);
                        if let EdgeLabel::Abstract(h) = ls[k] {
                            let c = self.holes.val(h);
                            assert(self.holes.has(h));
                            c.lemma_states(st);
                        }
                    }
                },
                State::Inner(h, t, k) => {
                    let c = self.holes.val(h);
                    c.lemma_states(st);
                },
            }
        }
    }

    fn start(&self, store: &mut SPPstore) -> (q: Self::State) {
        proof {
            store.lemma_wf();
        }
        let q: Self::State = State::Outer(0);
        assert(q.model() == State::<Place<C>>::Outer(0));
        q
    }

    fn is_visible(&self, store: &mut SPPstore, q: &Self::State) -> (b: bool) {
        proof {
            store.lemma_wf();
        }
        match q {
            State::Outer(i) => {
                assert(q.model() == State::<Place<C>>::Outer(*i));
                self.graph.states[*i].visible
            },
            State::Inner(h, t, k) => {
                assert(q.model() == State::<Place<C>>::Inner(*h, t.model(), *k));
                self.holes.get(h).unwrap().is_visible(store, t)
            },
        }
    }

    fn transitions(&self, store: &mut SPPstore, q: &Self::State) -> (ts: Vec<(SPP, Self::State)>) {
        let ghost o = *store;
        let ghost n = o.n();
        match q {
            State::Outer(i) => {
                assert(q.model() == State::<Place<C>>::Outer(*i));
                self.outer_transitions(store, *i)
            },
            State::Inner(h, t, k) => {
                assert(q.model() == State::<Place<C>>::Inner(*h, t.model(), *k));
                proof {
                    o.lemma_wf();
                }
                let c = self.holes.get(h).unwrap();
                let mut ts: Vec<(SPP, State<C::State>)> = Vec::new();
                if let Some(j) = k {
                    let y = c.output(store, t);
                    ts.push((y, State::Outer(*j)));
                }
                let ghost s1 = *store;
                let ghost ts1 = ts@;
                proof {
                    c.lemma_valid(s1, o);
                    assert forall|p: Pkt, r: State<Place<C>>, x: Pkt|
                        #![trigger listed(s1, ts1, p, r, x)]
                        p.len() == n && x.len() == n implies (listed(s1, ts1, p, r, x) <==> (
                    *k matches Some(j) && r == State::<Place<C>>::Outer(j) && c.out(
                        o,
                        t.model(),
                        p,
                        x,
                    ))) by {
                        if *k is Some {
                            let j = k.unwrap();
                            let e = ts1[0];
                            assert(e.1.model() == State::<Place<C>>::Outer(j));
                            assert(ts1 =~= Seq::<(SPP, State<C::State>)>::empty().push(e));
                            lemma_listed_push(
                                s1,
                                Seq::<(SPP, State<C::State>)>::empty(),
                                e,
                                p,
                                r,
                                x,
                            );
                        }
                    }
                }
                self.add_inner(store, c, *h, t, *k, &mut ts);
                proof {
                    assert forall|p: Pkt, r: Place<Self>, x: Pkt|
                        #![trigger self.step(o, q.model(), p, r, x)]
                        #![trigger listed(*store, ts@, p, r, x)]
                        p.len() == n && x.len() == n implies self.step(o, q.model(), p, r, x)
                        == listed(*store, ts@, p, r, x) by {
                        assert(listed(s1, ts1, p, r, x) <==> (*k matches Some(j) && r
                            == State::<Place<C>>::Outer(j) && c.out(o, t.model(), p, x)));
                        assert(listed(*store, ts@, p, r, x) <==> listed(s1, ts1, p, r, x)
                            || self.inner_step(s1, *h, t.model(), *k, p, r, x));
                        if r is Inner {
                            let u = r->Inner_1;
                            assert(c.step(s1, t.model(), p, u, x) == c.step(
                                o,
                                t.model(),
                                p,
                                u,
                                x,
                            ));
                        }
                    }
                    assert forall|i: int| 0 <= i < ts@.len() implies store.has(
                        (#[trigger] ts@[i]).0,
                    ) && self.is_state(ts@[i].1.model()) by {
                        if i < ts1.len() && ts@[i] == ts1[i] {
                            assert(ts1[i].1.model() == State::<Place<C>>::Outer(k.unwrap()));
                        }
                    }
                }
                ts
            },
        }
    }

    fn output(&self, store: &mut SPPstore, q: &Self::State) -> (y: SPP) {
        proof {
            store.lemma_wf();
        }
        match q {
            State::Outer(i) => {
                assert(q.model() == State::<Place<C>>::Outer(*i));
                self.outer_output(store, *i)
            },
            State::Inner(h, t, k) => {
                assert(q.model() == State::<Place<C>>::Inner(*h, t.model(), *k));
                match k {
                    Some(_) => store.zero,
                    None => self.holes.get(h).unwrap().output(store, t),
                }
            },
        }
    }
}


// ---- the language --------------------------------------------------------------------------

proof fn lemma_shorter(n: nat, w: Word)
    requires
        is_word(n, w),
        w.len() >= 3,
    ensures
        is_word(n, w.skip(1)),
{
    let u = w.skip(1);
    assert forall|k: int| 0 <= k < u.len() implies (#[trigger] u[k]).len() == n by {
        assert(u[k] == w[k + 1]);
    }
}

proof fn lemma_updated(n: nat, w: Word, x: Pkt)
    requires
        is_word(n, w),
        x.len() == n,
    ensures
        is_word(n, w.update(0, x)),
{
    let u = w.update(0, x);
    assert forall|k: int| 0 <= k < u.len() implies (#[trigger] u[k]).len() == n by {
        if k > 0 {
            assert(u[k] == w[k]);
        }
    }
}

impl<C: ENFA> Instantiate<C> {
    /// State `q` can do what hole `h` does in state `t`.
    spec fn hosts(&self, st: SPPstore, q: State<Place<C>>, h: Hole, t: Place<C>, k: Option<
        usize,
    >) -> bool {
        &&& forall|p: Pkt, r: State<Place<C>>, x: Pkt| #[trigger]
            self.inner_step(st, h, t, k, p, r, x) ==> self.step(st, q, p, r, x)
        &&& forall|p: Pkt, x: Pkt| #[trigger]
            self.holes.val(h).out(st, t, p, x) ==> match k {
                Some(j) => self.step(st, q, p, State::<Place<C>>::Outer(j), x),
                None => self.out(st, q, p, x),
            }
    }

    /// The run goes on in state `j` of the expression with the word `v`.
    spec fn arrives(&self, st: SPPstore, j: usize, v: Word) -> bool {
        if self.graph.states@[j as int].visible {
            v.len() >= 3 && v[0] == v[1] && accepts_from(
                self,
                st,
                State::<Place<C>>::Outer(j),
                v.skip(1),
            )
        } else {
            accepts_from(self, st, State::<Place<C>>::Outer(j), v)
        }
    }

    /// A run through a hole in which the word ends.
    proof fn lemma_end_in(
        &self,
        st: SPPstore,
        q: State<Place<C>>,
        h: Hole,
        t: Place<C>,
        w: Word,
        path: Seq<(Place<C>, Pkt)>,
    )
        requires
            is_word(st.n(), w),
            self.hosts(st, q, h, t, None),
            run_on(&self.holes.val(h), st, t, path, w),
        ensures
            accepts_from(self, st, q, w),
        decreases path.len(),
    {
        let c = self.holes.val(h);
        let n = st.n();
        if path.len() == 1 {
            assert(path.skip(1) =~= Seq::<(Place<C>, Pkt)>::empty());
            assert(trace_of(&c, path) =~= seq![path[0].1]);
            assert(w.drop_last().len() == 1);
            assert(w.drop_last()[0] == w[0]);
            assert(path.last() == path[0]);
            assert(w.last() == w[1]);
            assert(c.out(st, t, w[0], w[1]));
            assert(self.out(st, q, w[0], w[1]));
            lemma_first(self, st, q, w);
        } else {
            lemma_run_rest(&c, st, t, path, w);
            let (u, x) = path[1];
            let r = State::<Place<C>>::Inner(h, u, None);
            assert(self.inner_step(st, h, t, None, w[0], r, x));
            assert(self.hosts(st, r, h, u, None));
            let v = if c.vis(u) {
                w.skip(1)
            } else {
                w.update(0, x)
            };
            if c.vis(u) {
                lemma_shorter(n, w);
            } else {
                lemma_updated(n, w, x);
            }
            self.lemma_end_in(st, r, h, u, v, path.skip(1));
            assert(onward(self, st, q, w, r, x));
            lemma_first(self, st, q, w);
        }
    }

    /// A run through a hole, up to packet `i` and then `m`.
    proof fn lemma_pass(
        &self,
        st: SPPstore,
        q: State<Place<C>>,
        h: Hole,
        t: Place<C>,
        j: usize,
        w: Word,
        i: int,
        m: Pkt,
        path: Seq<(Place<C>, Pkt)>,
    )
        requires
            is_word(st.n(), w),
            self.hosts(st, q, h, t, Some(j)),
            0 <= i <= w.len() - 2,
            m.len() == st.n(),
            run_on(&self.holes.val(h), st, t, path, front(w, i, m)),
            self.arrives(st, j, back(w, i, m)),
        ensures
            accepts_from(self, st, q, w),
        decreases path.len(),
    {
        let c = self.holes.val(h);
        let n = st.n();
        let f = front(w, i, m);
        lemma_parts(n, w, i, m);
        if path.len() == 1 {
            assert(path.skip(1) =~= Seq::<(Place<C>, Pkt)>::empty());
            assert(trace_of(&c, path) =~= seq![path[0].1]);
            assert(f.drop_last().len() == 1);
            assert(f.drop_last()[0] == f[0]);
            assert(path.last() == path[0]);
            assert(i == 0);
            assert(f.last() == m);
            assert(c.out(st, t, w[0], m));
            let r = State::<Place<C>>::Outer(j);
            assert(self.step(st, q, w[0], r, m));
            let v = back(w, 0, m);
            if self.graph.states@[j as int].visible {
                assert(v[1] == w[1]);
                assert(v.skip(1) =~= w.skip(1));
            } else {
                assert(v =~= w.update(0, m));
            }
            assert(onward(self, st, q, w, r, m));
            lemma_first(self, st, q, w);
        } else {
            lemma_run_rest(&c, st, t, path, f);
            let (u, x) = path[1];
            let r = State::<Place<C>>::Inner(h, u, Some(j));
            assert(self.inner_step(st, h, t, Some(j), w[0], r, x));
            assert(self.hosts(st, r, h, u, Some(j)));
            if c.vis(u) {
                assert(f.len() >= 3);
                assert(i >= 1);
                assert(f[1] == w[1]);
                lemma_shorter(n, w);
                let v = w.skip(1);
                assert(front(v, i - 1, m) =~= f.skip(1));
                assert(back(v, i - 1, m) =~= back(w, i, m));
                self.lemma_pass(st, r, h, u, j, v, i - 1, m, path.skip(1));
            } else {
                lemma_updated(n, w, x);
                let v = w.update(0, x);
                assert(front(v, i, m) =~= f.update(0, x));
                assert(back(v, i, m) =~= back(w, i, m));
                self.lemma_pass(st, r, h, u, j, v, i, m, path.skip(1));
            }
            assert(onward(self, st, q, w, r, x));
            lemma_first(self, st, q, w);
        }
    }

    proof fn lemma_label_out(&self, st: SPPstore, i: usize, k: int, w: Word)
        requires
            st.wf(),
            self.valid(st),
            is_word(st.n(), w),
            0 <= i < self.graph.states@.len(),
            0 <= k < self.graph.ends@[i as int]@.len(),
            label_lang(st, self.fill(st), self.graph.ends@[i as int]@[k])(w),
        ensures
            accepts_from(self, st, State::<Place<C>>::Outer(i), w),
    {
        self.lemma_row(st, i as int);
        let q = State::<Place<C>>::Outer(i);
        let l = self.graph.ends@[i as int]@[k];
        assert(self.label_known(st, l));
        match l {
            EdgeLabel::Concrete(s) => {
                assert(self.label_out(st, self.graph.ends@[i as int]@[k], w[0], w[1]));
                assert(self.out(st, q, w[0], w[1]));
                lemma_first(self, st, q, w);
            },
            EdgeLabel::Abstract(h) => {
                let c = self.holes.val(h);
                let path = choose|path: Seq<(Place<C>, Pkt)>| #[trigger]
                    run_on(&c, st, c.init(), path, w);
                assert(self.hosts(st, q, h, c.init(), None)) by {
                    assert forall|p: Pkt, r: State<Place<C>>, x: Pkt| #[trigger]
                        self.inner_step(st, h, c.init(), None, p, r, x) implies self.step(
                        st,
                        q,
                        p,
                        r,
                        x,
                    ) by {
                        assert(self.end_step(st, self.graph.ends@[i as int]@[k], p, r, x));
                    }
                    assert forall|p: Pkt, x: Pkt| #[trigger]
                        c.out(st, c.init(), p, x) implies self.out(st, q, p, x) by {
                        assert(self.label_out(st, self.graph.ends@[i as int]@[k], p, x));
                    }
                }
                self.lemma_end_in(st, q, h, c.init(), w, path);
            },
        }
    }

    proof fn lemma_edge_pass(
        &self,
        st: SPPstore,
        i: usize,
        k: int,
        w: Word,
        y: int,
        m: Pkt,
    )
        requires
            st.wf(),
            self.valid(st),
            is_word(st.n(), w),
            0 <= i < self.graph.states@.len(),
            0 <= k < self.graph.edges@[i as int]@.len(),
            0 <= y <= w.len() - 2,
            m.len() == st.n(),
            label_lang(st, self.fill(st), self.graph.edges@[i as int]@[k].0)(front(w, y, m)),
            self.arrives(st, self.graph.edges@[i as int]@[k].1, back(w, y, m)),
        ensures
            accepts_from(self, st, State::<Place<C>>::Outer(i), w),
    {
        self.lemma_row(st, i as int);
        let n = st.n();
        let q = State::<Place<C>>::Outer(i);
        let e = self.graph.edges@[i as int]@[k];
        let r = State::<Place<C>>::Outer(e.1);
        assert(self.label_known(st, e.0));
        lemma_parts(n, w, y, m);
        match e.0 {
            EdgeLabel::Concrete(s) => {
                let f = front(w, y, m);
                assert(y == 0);
                assert(f[0] == w[0] && f[1] == m);
                assert(self.edge_step(st, self.graph.edges@[i as int]@[k], w[0], r, m));
                let v = back(w, 0, m);
                if self.graph.states@[e.1 as int].visible {
                    assert(v[1] == w[1]);
                    assert(v.skip(1) =~= w.skip(1));
                } else {
                    assert(v =~= w.update(0, m));
                }
                assert(onward(self, st, q, w, r, m));
                lemma_first(self, st, q, w);
            },
            EdgeLabel::Abstract(h) => {
                let c = self.holes.val(h);
                let f = front(w, y, m);
                let path = choose|path: Seq<(Place<C>, Pkt)>| #[trigger]
                    run_on(&c, st, c.init(), path, f);
                assert(self.hosts(st, q, h, c.init(), Some(e.1))) by {
                    assert forall|p: Pkt, r: State<Place<C>>, x: Pkt| #[trigger]
                        self.inner_step(st, h, c.init(), Some(e.1), p, r, x) implies self.step(
                        st,
                        q,
                        p,
                        r,
                        x,
                    ) by {
                        assert(self.edge_step(st, self.graph.edges@[i as int]@[k], p, r, x));
                    }
                    assert forall|p: Pkt, x: Pkt| #[trigger]
                        c.out(st, c.init(), p, x) implies self.step(st, q, p, r, x) by {
                        assert(self.edge_step(st, self.graph.edges@[i as int]@[k], p, r, x));
                    }
                }
                self.lemma_pass(st, q, h, c.init(), e.1, w, y, m, path);
            },
        }
    }

    /// A word of an expression is a word of its state.
    pub(crate) proof fn lemma_complete(&self, st: SPPstore, i: usize, w: Word, c: nat)
        requires
            st.wf(),
            self.valid(st),
            is_word(st.n(), w),
            0 <= i < self.graph.states@.len(),
            self.aut.takes(st, self.fill(st), self.graph.states@[i as int].aexpr, w, c),
        ensures
            accepts_from(self, st, State::<Place<C>>::Outer(i), w),
        decreases c,
    {
        let n = st.n();
        let hs = self.fill(st);
        assert(graph_row(self.aut, st, self.graph, i as int));
        let es = self.graph.edges@[i as int]@;
        let ts = targets(self.graph.states@, es);
        let ls = self.graph.ends@[i as int]@;
        if ends(st, hs, ls, w) {
            let k = choose|k: int| 0 <= k < ls.len() && label_lang(st, hs, #[trigger] ls[k])(w);
            self.lemma_label_out(st, i, k, w);
        } else {
            assert(leaves(self.aut, st, hs, ts, w, c));
            let (k, y, m, d) = choose|k: int, y: int, m: Pkt, d: nat|
                0 <= k < ts.len() && d < c && #[trigger]
                crosses(self.aut, st, hs, ts[k], w, y, m, d);
            assert(ts[k] == (es[k].0, self.graph.states@[es[k].1 as int]));
            lemma_parts(n, w, y, m);
            let v = back(w, y, m);
            let j = es[k].1;
            assert(j < self.graph.states@.len());
            if ts[k].1.visible {
                lemma_shorter(n, v);
                self.lemma_complete(st, j, v.skip(1), d);
            } else {
                self.lemma_complete(st, j, v, d);
            }
            self.lemma_edge_pass(st, i, k, w, y, m);
        }
    }

    /// The expression of state `j` has what is left of the word `v` on entering it.
    spec fn goes_on(&self, st: SPPstore, j: usize, v: Word) -> bool {
        let s = self.graph.states@[j as int];
        if s.visible {
            v.len() >= 3 && v[0] == v[1] && self.aut.accepts(
                st,
                self.fill(st),
                s.aexpr,
                v.skip(1),
            )
        } else {
            self.aut.accepts(st, self.fill(st), s.aexpr, v)
        }
    }

    /// The word goes through hole `h` from state `t` up to packet `i` and then `m`,
    /// and goes on in state `j`.
    spec fn through(
        &self,
        st: SPPstore,
        h: Hole,
        t: Place<C>,
        j: usize,
        w: Word,
        i: int,
        m: Pkt,
    ) -> bool {
        &&& 0 <= i <= w.len() - 2
        &&& m.len() == st.n()
        &&& accepts_from(&self.holes.val(h), st, t, front(w, i, m))
        &&& self.goes_on(st, j, back(w, i, m))
    }

    /// What a run from `q` on the word says of the expression and the holes.
    spec fn explained(&self, st: SPPstore, q: State<Place<C>>, w: Word) -> bool {
        match q {
            State::Outer(i) => self.aut.accepts(
                st,
                self.fill(st),
                self.graph.states@[i as int].aexpr,
                w,
            ),
            State::Inner(h, t, k) => match k {
                Some(j) => self.passes(st, h, t, j, w),
                None => accepts_from(&self.holes.val(h), st, t, w),
            },
        }
    }

    /// The word goes through hole `h` from state `t` and on in state `j`.
    spec fn passes(&self, st: SPPstore, h: Hole, t: Place<C>, j: usize, w: Word) -> bool {
        exists|i: int, m: Pkt| #[trigger] self.through(st, h, t, j, w, i, m)
    }

    /// A step inside the hole before a way through it.
    proof fn lemma_through_step(
        &self,
        st: SPPstore,
        h: Hole,
        t: Place<C>,
        u: Place<C>,
        j: usize,
        w: Word,
        x: Pkt,
    )
        requires
            is_word(st.n(), w),
            x.len() == st.n(),
            self.holes.val(h).step(st, t, w[0], u, x),
            if self.holes.val(h).vis(u) {
                w.len() >= 3 && x == w[1] && self.passes(st, h, u, j, w.skip(1))
            } else {
                self.passes(st, h, u, j, w.update(0, x))
            },
        ensures
            self.passes(st, h, t, j, w),
    {
        let c = self.holes.val(h);
        let n = st.n();
        if c.vis(u) {
            let v = w.skip(1);
            lemma_shorter(n, w);
            let (i, m) = choose|i: int, m: Pkt| #[trigger] self.through(st, h, u, j, v, i, m);
            let f = front(w, i + 1, m);
            lemma_parts(n, w, i + 1, m);
            assert(front(v, i, m) =~= f.skip(1));
            assert(back(v, i, m) =~= back(w, i + 1, m));
            assert(f[0] == w[0] && f[1] == w[1]);
            assert(onward(&c, st, t, f, u, x));
            lemma_first(&c, st, t, f);
            assert(self.through(st, h, t, j, w, i + 1, m));
        } else {
            let v = w.update(0, x);
            let (i, m) = choose|i: int, m: Pkt| #[trigger] self.through(st, h, u, j, v, i, m);
            let f = front(w, i, m);
            lemma_parts(n, w, i, m);
            assert(front(v, i, m) =~= f.update(0, x));
            assert(back(v, i, m) =~= back(w, i, m));
            assert(f[0] == w[0]);
            assert(onward(&c, st, t, f, u, x));
            lemma_first(&c, st, t, f);
            assert(self.through(st, h, t, j, w, i, m));
        }
    }

    /// Leaving the hole at once.
    proof fn lemma_through_out(
        &self,
        st: SPPstore,
        h: Hole,
        t: Place<C>,
        j: usize,
        w: Word,
        x: Pkt,
    )
        requires
            is_word(st.n(), w),
            x.len() == st.n(),
            self.holes.val(h).out(st, t, w[0], x),
            if self.graph.states@[j as int].visible {
                w.len() >= 3 && x == w[1] && self.explained(st, State::Outer(j), w.skip(1))
            } else {
                self.explained(st, State::Outer(j), w.update(0, x))
            },
        ensures
            self.through(st, h, t, j, w, 0, x),
    {
        let c = self.holes.val(h);
        let n = st.n();
        let f = front(w, 0, x);
        let b = back(w, 0, x);
        lemma_parts(n, w, 0, x);
        assert(f[0] == w[0] && f[1] == x);
        lemma_first(&c, st, t, f);
        if self.graph.states@[j as int].visible {
            assert(b[1] == w[1]);
            assert(b.skip(1) =~= w.skip(1));
        } else {
            assert(b =~= w.update(0, x));
        }
    }

    /// Going along an edge and on is a word of the expression.
    proof fn lemma_edge_accepts(&self, st: SPPstore, i: int, k: int, w: Word, y: int, m: Pkt)
        requires
            st.wf(),
            self.valid(st),
            is_word(st.n(), w),
            0 <= i < self.graph.states@.len(),
            0 <= k < self.graph.edges@[i]@.len(),
            0 <= y <= w.len() - 2,
            m.len() == st.n(),
            label_lang(st, self.fill(st), self.graph.edges@[i]@[k].0)(front(w, y, m)),
            self.goes_on(st, self.graph.edges@[i]@[k].1, back(w, y, m)),
        ensures
            self.aut.accepts(st, self.fill(st), self.graph.states@[i].aexpr, w),
    {
        let hs = self.fill(st);
        assert(graph_row(self.aut, st, self.graph, i));
        let es = self.graph.edges@[i]@;
        let ts = targets(self.graph.states@, es);
        assert(ts[k] == (es[k].0, self.graph.states@[es[k].1 as int]));
        let s = self.graph.states@[es[k].1 as int];
        let b = back(w, y, m);
        let u = if s.visible {
            b.skip(1)
        } else {
            b
        };
        let d = choose|d: nat| #[trigger] self.aut.takes(st, hs, s.aexpr, u, d);
        assert(crosses(self.aut, st, hs, ts[k], w, y, m, d));
        assert(leaves(self.aut, st, hs, ts, w, d + 1));
    }

    /// The first step of a run, from what the rest of it says.
    proof fn lemma_explain_step(
        &self,
        st: SPPstore,
        q: State<Place<C>>,
        w: Word,
        r: State<Place<C>>,
        x: Pkt,
    )
        requires
            st.wf(),
            self.valid(st),
            is_word(st.n(), w),
            x.len() == st.n(),
            self.is_state(q),
            self.step(st, q, w[0], r, x),
            if self.vis(r) {
                w.len() >= 3 && x == w[1] && self.explained(st, r, w.skip(1))
            } else {
                self.explained(st, r, w.update(0, x))
            },
        ensures
            self.explained(st, q, w),
    {
        let n = st.n();
        let hs = self.fill(st);
        match q {
            State::Outer(i) => {
                self.lemma_row(st, i as int);
                assert(graph_row(self.aut, st, self.graph, i as int));
                let es = self.graph.edges@[i as int]@;
                let ls = self.graph.ends@[i as int]@;
                if self.edges_step(st, es, w[0], r, x) {
                    let k = choose|k: int|
                        0 <= k < es.len() && self.edge_step(st, #[trigger] es[k], w[0], r, x);
                    let j = es[k].1;
                    assert(self.label_known(st, es[k].0));
                    match es[k].0 {
                        EdgeLabel::Concrete(s) => {
                            let f = front(w, 0, x);
                            let b = back(w, 0, x);
                            lemma_parts(n, w, 0, x);
                            assert(f[0] == w[0] && f[1] == x);
                            if self.graph.states@[j as int].visible {
                                assert(b[1] == w[1]);
                                assert(b.skip(1) =~= w.skip(1));
                            } else {
                                assert(b =~= w.update(0, x));
                            }
                            self.lemma_edge_accepts(st, i as int, k, w, 0, x);
                        },
                        EdgeLabel::Abstract(h) => {
                            let c = self.holes.val(h);
                            if r == State::<Place<C>>::Outer(j) {
                                self.lemma_through_out(st, h, c.init(), j, w, x);
                                self.lemma_edge_accepts(st, i as int, k, w, 0, x);
                            } else {
                                let u = r->Inner_1;
                                self.lemma_through_step(st, h, c.init(), u, j, w, x);
                                let (y, m) = choose|y: int, m: Pkt| #[trigger]
                                    self.through(st, h, c.init(), j, w, y, m);
                                self.lemma_edge_accepts(st, i as int, k, w, y, m);
                            }
                        },
                    }
                } else {
                    let k = choose|k: int|
                        0 <= k < ls.len() && self.end_step(st, #[trigger] ls[k], w[0], r, x);
                    assert(self.label_known(st, ls[k]));
                    match ls[k] {
                        EdgeLabel::Concrete(s) => {},
                        EdgeLabel::Abstract(h) => {
                            let c = self.holes.val(h);
                            let u = r->Inner_1;
                            assert(onward(&c, st, c.init(), w, u, x));
                            lemma_first(&c, st, c.init(), w);
                            assert(label_lang(st, hs, ls[k])(w));
                            assert(ends(st, hs, ls, w));
                        },
                    }
                }
            },
            State::Inner(h, t, k) => {
                let c = self.holes.val(h);
                match k {
                    Some(j) => {
                        if r == State::<Place<C>>::Outer(j) && c.out(st, t, w[0], x) {
                            self.lemma_through_out(st, h, t, j, w, x);
                        } else {
                            let u = r->Inner_1;
                            self.lemma_through_step(st, h, t, u, j, w, x);
                        }
                    },
                    None => {
                        let u = r->Inner_1;
                        assert(onward(&c, st, t, w, u, x));
                        lemma_first(&c, st, t, w);
                    },
                }
            },
        }
    }

    /// The end of a run.
    proof fn lemma_explain_out(&self, st: SPPstore, q: State<Place<C>>, w: Word)
        requires
            st.wf(),
            self.valid(st),
            is_word(st.n(), w),
            w.len() == 2,
            self.is_state(q),
            self.out(st, q, w[0], w[1]),
        ensures
            self.explained(st, q, w),
    {
        let hs = self.fill(st);
        match q {
            State::Outer(i) => {
                self.lemma_row(st, i as int);
                assert(graph_row(self.aut, st, self.graph, i as int));
                let ls = self.graph.ends@[i as int]@;
                let k = choose|k: int|
                    0 <= k < ls.len() && self.label_out(st, #[trigger] ls[k], w[0], w[1]);
                assert(self.label_known(st, ls[k]));
                match ls[k] {
                    EdgeLabel::Concrete(s) => {},
                    EdgeLabel::Abstract(h) => {
                        let c = self.holes.val(h);
                        lemma_first(&c, st, c.init(), w);
                    },
                }
                assert(label_lang(st, hs, ls[k])(w));
                assert(ends(st, hs, ls, w));
            },
            State::Inner(h, t, k) => {
                lemma_first(&self.holes.val(h), st, t, w);
            },
        }
    }

    /// A run is explained by the expression and what fills the holes.
    proof fn lemma_sound(
        &self,
        st: SPPstore,
        q: State<Place<C>>,
        path: Seq<(State<Place<C>>, Pkt)>,
        w: Word,
    )
        requires
            st.wf(),
            self.valid(st),
            is_word(st.n(), w),
            self.is_state(q),
            run_on(self, st, q, path, w),
        ensures
            self.explained(st, q, w),
        decreases path.len(),
    {
        let n = st.n();
        if path.len() == 1 {
            assert(path.skip(1) =~= Seq::<(State<Place<C>>, Pkt)>::empty());
            assert(trace_of(self, path) =~= seq![path[0].1]);
            assert(w.drop_last().len() == 1);
            assert(w.drop_last()[0] == w[0]);
            assert(path.last() == path[0]);
            assert(w.last() == w[1]);
            self.lemma_explain_out(st, q, w);
        } else {
            lemma_run_rest(self, st, q, path, w);
            let (r, x) = path[1];
            self.lemma_states(st);
            if self.vis(r) {
                lemma_shorter(n, w);
                self.lemma_sound(st, r, path.skip(1), w.skip(1));
            } else {
                lemma_updated(n, w, x);
                self.lemma_sound(st, r, path.skip(1), w.update(0, x));
            }
            self.lemma_explain_step(st, q, w, r, x);
        }
    }

    /// What is accepted from a state of the expression, its expression has.
    pub(crate) proof fn lemma_outer_sound(&self, st: SPPstore, i: usize, w: Word)
        requires
            st.wf(),
            self.valid(st),
            is_word(st.n(), w),
            i < self.graph.states@.len(),
            accepts_from(self, st, State::<Place<C>>::Outer(i), w),
        ensures
            self.aut.accepts(st, self.fill(st), self.graph.states@[i as int].aexpr, w),
    {
        let q = State::<Place<C>>::Outer(i);
        let path = choose|path: Seq<(State<Place<C>>, Pkt)>| #[trigger]
            run_on(self, st, q, path, w);
        self.lemma_sound(st, q, path, w);
    }

    /// The language of the filled automaton is that of the expression with the
    /// languages of the automata in its holes.
    pub proof fn law_instantiate(&self, st: SPPstore, w: Word)
        requires
            st.wf(),
            self.valid(st),
            is_word(st.n(), w),
        ensures
            enfa_lang(self, st)(w) <==> self.aut.accepts(
                st,
                self.fill(st),
                self.graph.states@[0].aexpr,
                w,
            ),
    {
        let hs = self.fill(st);
        let s = self.graph.states@[0].aexpr;
        let q = State::<Place<C>>::Outer(0);
        if enfa_lang(self, st)(w) {
            let path = choose|path: Seq<(State<Place<C>>, Pkt)>| #[trigger]
                run_on(self, st, q, path, w);
            self.lemma_sound(st, q, path, w);
        }
        if self.aut.accepts(st, hs, s, w) {
            let c = choose|c: nat| #[trigger] self.aut.takes(st, hs, s, w, c);
            self.lemma_complete(st, 0usize, w, c);
        }
    }
}


// ---- counterexamples ---------------------------------------------------------------------------

/// How a run went through a hole: the packet at which it entered, the states and
/// packets inside, and the packet with which it left.
pub type Witness<S> = (Hole, (Vec<bool>, Vec<(S, Vec<bool>)>, Vec<bool>));

/// The word of a way through a hole, if every state inside is visible.
pub open spec fn witness_word<S: StateKey>(u: Witness<S>) -> Word {
    (seq![u.1.0@] + packets_of(path_of(u.1.1@))).push(u.1.2@)
}

/// A way through a hole as a mathematical value.
pub type Way<S> = (Hole, Pkt, Seq<(S, Pkt)>, Pkt);

/// The ways through holes as mathematical values.
pub open spec fn ways_of<S: StateKey>(us: Seq<Witness<S>>) -> Seq<Way<S::M>> {
    Seq::new(us.len(), |i: int| (us[i].0, us[i].1.0@, path_of(us[i].1.1@), us[i].1.2@))
}

/// The first entry from `j` on that is not inside a hole.
pub open spec fn leave_at<S>(pm: Seq<(State<S>, Pkt)>, j: int) -> int
    decreases pm.len() - j,
{
    if j < 0 || j >= pm.len() || pm[j].0 is Outer {
        j
    } else {
        leave_at(pm, j + 1)
    }
}

/// What is inside a hole from entry `i` to before entry `j`.
pub open spec fn inside<S>(pm: Seq<(State<S>, Pkt)>, i: int, j: int) -> Seq<(S, Pkt)> {
    Seq::new((j - i) as nat, |z: int| (pm[i + z].0->Inner_1, pm[i + z].1))
}

/// What fills the holes has the words of the ways through them.
pub open spec fn admits<S: StateKey>(hs: Fill, us: Seq<Witness<S>>) -> bool {
    forall|k: int| 0 <= k < us.len() ==> hs((#[trigger] us[k]).0)(witness_word(us[k]))
}

/// A word that should be accepted and is not.
#[derive(Debug)]
pub struct LowerBoundCounterexample {
    /// The packets of the word but the last.
    pub trace: Vec<Vec<bool>>,
    /// The last packet.
    pub output: Vec<bool>,
}

proof fn lemma_seen_ref<T: ENFA>(a: &T, path: Seq<(Place<T>, Pkt)>)
    ensures
        seen(&a, path) == seen(a, path),
    decreases path.len(),
{
    if path.len() > 0 {
        lemma_seen_ref(a, path.drop_last());
    }
}

/// A run of a borrowed automaton is one of the automaton.
proof fn lemma_run_ref<T: ENFA>(
    a: &T,
    st: SPPstore,
    q: Place<T>,
    path: Seq<(Place<T>, Pkt)>,
    w: Word,
)
    ensures
        run_on(&a, st, q, path, w) == run_on(a, st, q, path, w),
{
    lemma_seen_ref(a, path.skip(1));
    if is_path(&a, st, path) {
        assert forall|i: int| 0 <= i < path.len() - 1 implies #[trigger] moves(a, st, path, i) by {
            assert(moves(&a, st, path, i));
        }
    }
    if is_path(a, st, path) {
        assert forall|i: int| 0 <= i < path.len() - 1 implies #[trigger] moves(&a, st, path, i) by {
            assert(moves(a, st, path, i));
        }
    }
}

/// A borrowed automaton has the language of the automaton.
pub proof fn lemma_lang_ref<T: ENFA>(a: &T, st: SPPstore, w: Word)
    ensures
        enfa_lang(&a, st)(w) == enfa_lang(a, st)(w),
{
    if enfa_lang(&a, st)(w) {
        let path = choose|path: Seq<(Place<T>, Pkt)>| #[trigger]
            run_on(&a, st, a.init(), path, w);
        lemma_run_ref(a, st, a.init(), path, w);
    }
    if enfa_lang(a, st)(w) {
        let path = choose|path: Seq<(Place<T>, Pkt)>| #[trigger]
            run_on(a, st, a.init(), path, w);
        lemma_run_ref(a, st, a.init(), path, w);
        assert(run_on(&a, st, a.init(), path, w));
    }
}

impl<C: ENFA> Instantiate<C> {
    /// An expression with its holes filled.  Every hole of the automaton has to be
    /// filled.
    pub fn new(store: &mut SPPstore, aut: AutWithHoles, start: HoleState, holes: Filling<C>) -> (r:
        Instantiate<C>)
        requires
            old(store).wf(),
            aut.wf(old(store)),
            aut.has(start.aexpr),
            holes.wf(),
            forall|h: Hole| #[trigger] aut.uses(h) ==> holes.has(h),
            forall|h: Hole| #[trigger] holes.has(h) ==> holes.val(h).valid(*old(store)),
        ensures
            final(store).wf(),
            final(store).sp == old(store).sp,
            keeps(aut, *old(store), r.aut, *final(store)),
            same_holes(aut, r.aut),
            r.valid(*final(store)),
            r.holes == holes,
            r.graph.states@[0] == start,
    {
        let ghost o = *store;
        let mut aut = aut;
        let graph = HoleGraph::explore(&mut aut, store, start);
        let r = Instantiate { aut, graph, holes };
        proof {
            assert forall|h: Hole| #[trigger] r.holes.has(h) implies r.holes.val(h).valid(
                *store,
            ) by {
                r.holes.val(h).lemma_valid(*store, o);
            }
        }
        r
    }

    /// Fill a hole anew.
    pub fn set_hole(&mut self, h: Hole, c: C)
        requires
            old(self).holes.wf(),
        ensures
            final(self).aut == old(self).aut,
            final(self).graph == old(self).graph,
            final(self).holes.wf(),
            final(self).holes.has(h),
            final(self).holes.val(h) == c,
            forall|g: Hole| #[trigger]
                final(self).holes.has(g) <==> old(self).holes.has(g) || g == h,
            forall|g: Hole| g != h && old(self).holes.has(g) ==> #[trigger] final(self).holes.val(g) == old(self).holes.val(g),
            forall|st: SPPstore|
                old(self).valid(st) && c.valid(st) ==> #[trigger] final(self).valid(st),
    {
        self.holes.insert(h, c);
        proof {
            assert forall|st: SPPstore|
                old(self).valid(st) && c.valid(st) implies #[trigger] self.valid(st) by {
                assert forall|g: Hole| #[trigger] self.holes.has(g) implies self.holes.val(
                    g,
                ).valid(st) by {
                    if g != h {
                        assert(old(self).holes.has(g));
                    }
                }
            }
        }
    }

    /// The automaton of the expression.
    pub fn aut(&self) -> (r: &AutWithHoles)
        ensures
            *r == self.aut,
    {
        &self.aut
    }

    /// What fills the holes.
    pub fn holes(&self) -> (r: &Filling<C>)
        ensures
            *r == self.holes,
    {
        &self.holes
    }

    /// The start state of the expression's automaton.
    pub fn start_state(&self) -> (q: HoleState)
        requires
            self.graph.states@.len() > 0,
        ensures
            q == self.graph.states@[0],
    {
        self.graph.states[0]
    }

    /// The way through a hole is one that the automaton in the hole goes.
    pub open spec fn is_witness(&self, st: SPPstore, u: Witness<C::State>) -> bool {
        let c = self.holes.val(u.0);
        let path = seq![(c.init(), u.1.0@)] + path_of(u.1.1@);
        &&& self.holes.has(u.0)
        &&& is_path(&c, st, path)
        &&& u.1.2@.len() == st.n()
        &&& c.out(st, path.last().0, path.last().1, u.1.2@)
    }

    /// Some edge from `i` to `j` is made by `x`.
    pub open spec fn has_edge(
        &self,
        st: SPPstore,
        i: int,
        j: usize,
        p: Pkt,
        x: Pkt,
        k: int,
    ) -> bool {
        &&& 0 <= k < self.graph.edges@[i]@.len()
        &&& self.graph.edges@[i]@[k].1 == j
        &&& self.label_out(st, self.graph.edges@[i]@[k].0, p, x)
    }

    /// The first edge from state `i` to `j`, from number `k` on, that leads from `p` to
    /// `x` without a step inside a hole.
    pub open spec fn first_edge(
        &self,
        st: SPPstore,
        i: int,
        j: usize,
        p: Pkt,
        x: Pkt,
        k: int,
    ) -> int
        decreases self.graph.edges@[i]@.len() - k,
    {
        if k < 0 || k >= self.graph.edges@[i]@.len() || self.has_edge(st, i, j, p, x, k) {
            k
        } else {
            self.first_edge(st, i, j, p, x, k + 1)
        }
    }

    /// The first label of state `i`, from number `k` on, that outputs `x` on `p`.
    pub open spec fn first_end(&self, st: SPPstore, i: int, p: Pkt, x: Pkt, k: int) -> int
        decreases self.graph.ends@[i]@.len() - k,
    {
        if k < 0 || k >= self.graph.ends@[i]@.len() || self.has_end(st, i, p, x, k) {
            k
        } else {
            self.first_end(st, i, p, x, k + 1)
        }
    }

    /// Which edge is the first does not change when the store grows.
    proof fn lemma_first_edge(
        &self,
        st: SPPstore,
        o: SPPstore,
        i: int,
        j: usize,
        p: Pkt,
        x: Pkt,
        k: int,
    )
        requires
            forall|y: int| #[trigger]
                self.has_edge(st, i, j, p, x, y) == self.has_edge(o, i, j, p, x, y),
        ensures
            self.first_edge(st, i, j, p, x, k) == self.first_edge(o, i, j, p, x, k),
        decreases self.graph.edges@[i]@.len() - k,
    {
        assert(self.has_edge(st, i, j, p, x, k) == self.has_edge(o, i, j, p, x, k));
        if !(k < 0 || k >= self.graph.edges@[i]@.len() || self.has_edge(st, i, j, p, x, k)) {
            self.lemma_first_edge(st, o, i, j, p, x, k + 1);
        }
    }

    /// Which label is the first does not change when the store grows.
    proof fn lemma_first_end(&self, st: SPPstore, o: SPPstore, i: int, p: Pkt, x: Pkt, k: int)
        requires
            forall|y: int| #[trigger] self.has_end(st, i, p, x, y) == self.has_end(o, i, p, x, y),
        ensures
            self.first_end(st, i, p, x, k) == self.first_end(o, i, p, x, k),
        decreases self.graph.ends@[i]@.len() - k,
    {
        assert(self.has_end(st, i, p, x, k) == self.has_end(o, i, p, x, k));
        if !(k < 0 || k >= self.graph.ends@[i]@.len() || self.has_end(st, i, p, x, k)) {
            self.lemma_first_end(st, o, i, p, x, k + 1);
        }
    }

    /// The ways through the holes along a path from entry `i` on, in order: at each step
    /// the first label that takes it, if it is a hole.
    pub open spec fn ways(
        &self,
        st: SPPstore,
        pm: Seq<(State<Place<C>>, Pkt)>,
        i: int,
        out: Pkt,
    ) -> Seq<Way<Place<C>>>
        decreases pm.len() - i,
    {
        if i < 0 || i >= pm.len() {
            Seq::empty()
        } else {
            let a = pm[i].0->Outer_0 as int;
            let p = pm[i].1;
            if i + 1 == pm.len() {
                match self.graph.ends@[a]@[self.first_end(st, a, p, out, 0)] {
                    EdgeLabel::Concrete(s) => Seq::empty(),
                    EdgeLabel::Abstract(h) => seq![(h, p, Seq::empty(), out)],
                }
            } else {
                let x = pm[i + 1].1;
                match pm[i + 1].0 {
                    State::Outer(b) => {
                        let rest = self.ways(st, pm, i + 1, out);
                        match self.graph.edges@[a]@[self.first_edge(st, a, b, p, x, 0)].0 {
                            EdgeLabel::Concrete(s) => rest,
                            EdgeLabel::Abstract(h) => seq![(h, p, Seq::empty(), x)] + rest,
                        }
                    },
                    State::Inner(h, t, k) => {
                        let j = leave_at(pm, i + 1);
                        let inner = inside(pm, i + 1, j);
                        if j >= pm.len() || j <= i {
                            seq![(h, p, inner, out)]
                        } else {
                            seq![(h, p, inner, pm[j].1)] + self.ways(st, pm, j, out)
                        }
                    },
                }
            }
        }
    }

    /// The first edge from state `i` to `j` that leads from `p` to `x` without a
    /// step inside a hole.
    fn find_edge(&self, store: &mut SPPstore, i: usize, j: usize, p: &Vec<bool>, x: &Vec<bool>) -> (k:
        usize)
        requires
            old(store).wf(),
            self.valid(*old(store)),
            i < self.graph.states@.len(),
            p@.len() == old(store).n(),
            x@.len() == old(store).n(),
            exists|k: int| #[trigger] self.has_edge(*old(store), i as int, j, p@, x@, k),
        ensures
            final(store).wf(),
            final(store).extends(old(store)),
            self.has_edge(*old(store), i as int, j, p@, x@, k as int),
            k == self.first_edge(*old(store), i as int, j, p@, x@, 0),
    {
        let ghost o = *store;
        proof {
            self.lemma_row(o, i as int);
            o.lemma_wf();
        }
        let es = &self.graph.edges[i];
        let mut k: usize = 0;
        while k < es.len()
            invariant
                o == *old(store),
                o.wf(),
                store.wf(),
                store.extends(&o),
                self.valid(o),
                es@ == self.graph.edges@[i as int]@,
                forall|y: int|
                    0 <= y < es@.len() ==> self.label_known(o, (#[trigger] es@[y]).0) && es@[y].1
                        < self.graph.states@.len(),
                p@.len() == o.n(),
                x@.len() == o.n(),
                k <= es@.len(),
                self.first_edge(o, i as int, j, p@, x@, 0) == self.first_edge(
                    o,
                    i as int,
                    j,
                    p@,
                    x@,
                    k as int,
                ),
                forall|y: int|
                    0 <= y < k ==> !#[trigger] self.has_edge(o, i as int, j, p@, x@, y),
            decreases es.len() - k,
        {
            if es[k].1 == j {
                let ghost s1 = *store;
                proof {
                    self.lemma_valid(s1, o);
                    assert(self.label_known(o, es@[k as int].0));
                    self.lemma_end_step_ext(s1, o, es@[k as int].0, p@, State::Outer(0), x@);
                }
                let y = self.resolve(store, es[k].0);
                if store.accepts(y, p.as_slice(), x.as_slice()) {
                    assert(self.has_edge(o, i as int, j, p@, x@, k as int));
                    return k;
                }
                assert(!self.has_edge(o, i as int, j, p@, x@, k as int));
            }
            k = k + 1;
        }
        proof {
            let y = choose|y: int| #[trigger] self.has_edge(o, i as int, j, p@, x@, y);
            assert(false);
        }
        k
    }

    /// Some end of `i` outputs `x`.
    pub open spec fn has_end(&self, st: SPPstore, i: int, p: Pkt, x: Pkt, k: int) -> bool {
        &&& 0 <= k < self.graph.ends@[i]@.len()
        &&& self.label_out(st, self.graph.ends@[i]@[k], p, x)
    }

    /// The first label of state `i` that outputs `x` on `p`.
    fn find_end(&self, store: &mut SPPstore, i: usize, p: &Vec<bool>, x: &[bool]) -> (k: usize)
        requires
            old(store).wf(),
            self.valid(*old(store)),
            i < self.graph.states@.len(),
            p@.len() == old(store).n(),
            x@.len() == old(store).n(),
            exists|k: int| #[trigger] self.has_end(*old(store), i as int, p@, x@, k),
        ensures
            final(store).wf(),
            final(store).extends(old(store)),
            self.has_end(*old(store), i as int, p@, x@, k as int),
            k == self.first_end(*old(store), i as int, p@, x@, 0),
    {
        let ghost o = *store;
        proof {
            self.lemma_row(o, i as int);
            o.lemma_wf();
        }
        let ls = &self.graph.ends[i];
        let mut k: usize = 0;
        while k < ls.len()
            invariant
                o == *old(store),
                o.wf(),
                store.wf(),
                store.extends(&o),
                self.valid(o),
                ls@ == self.graph.ends@[i as int]@,
                forall|y: int| 0 <= y < ls@.len() ==> self.label_known(o, #[trigger] ls@[y]),
                p@.len() == o.n(),
                x@.len() == o.n(),
                k <= ls@.len(),
                self.first_end(o, i as int, p@, x@, 0) == self.first_end(
                    o,
                    i as int,
                    p@,
                    x@,
                    k as int,
                ),
                forall|y: int| 0 <= y < k ==> !#[trigger] self.has_end(o, i as int, p@, x@, y),
            decreases ls.len() - k,
        {
            let ghost s1 = *store;
            proof {
                self.lemma_valid(s1, o);
                assert(self.label_known(o, ls@[k as int]));
                self.lemma_end_step_ext(s1, o, ls@[k as int], p@, State::Outer(0), x@);
            }
            let y = self.resolve(store, ls[k]);
            if store.accepts(y, p.as_slice(), x) {
                assert(self.has_end(o, i as int, p@, x@, k as int));
                return k;
            }
            assert(!self.has_end(o, i as int, p@, x@, k as int));
            k = k + 1;
        }
        proof {
            let y = choose|y: int| #[trigger] self.has_end(o, i as int, p@, x@, y);
            assert(false);
        }
        k
    }

    /// The words that the expression has for every filling that admits the ways
    /// through the holes.
    pub open spec fn accounts(
        &self,
        st: SPPstore,
        i: int,
        us: Seq<Witness<C::State>>,
        w: Word,
    ) -> bool {
        &&& forall|k: int| 0 <= k < us.len() ==> self.is_witness(st, #[trigger] us[k])
        &&& forall|hs: Fill| #[trigger]
            admits(hs, us) ==> self.aut.accepts(st, hs, self.graph.states@[i].aexpr, w)
    }
}

proof fn lemma_admits_first<S: StateKey>(hs: Fill, u: Witness<S>, us: Seq<Witness<S>>)
    ensures
        admits(hs, seq![u] + us) <==> hs(u.0)(witness_word(u)) && admits(hs, us),
{
    let vs = seq![u] + us;
    if admits(hs, vs) {
        assert(vs[0] == u);
        assert forall|k: int| 0 <= k < us.len() implies hs((#[trigger] us[k]).0)(
            witness_word(us[k]),
        ) by {
            assert(vs[k + 1] == us[k]);
        }
    }
    if hs(u.0)(witness_word(u)) && admits(hs, us) {
        assert forall|k: int| 0 <= k < vs.len() implies hs((#[trigger] vs[k]).0)(
            witness_word(vs[k]),
        ) by {
            if k > 0 {
                assert(vs[k] == us[k - 1]);
            }
        }
    }
}

impl<C: ENFA> Instantiate<C> {
    /// A hole along an edge, before what accounts for the rest of the word.
    proof fn lemma_account_hole(
        &self,
        st: SPPstore,
        i: int,
        k: int,
        h: Hole,
        u: Witness<C::State>,
        us: Seq<Witness<C::State>>,
        w: Word,
        y: int,
        m: Pkt,
        v: Word,
    )
        requires
            st.wf(),
            self.valid(st),
            is_word(st.n(), w),
            0 <= i < self.graph.states@.len(),
            0 <= k < self.graph.edges@[i]@.len(),
            self.graph.edges@[i]@[k].0 == EdgeLabel::Abstract(h),
            u.0 == h,
            self.is_witness(st, u),
            0 <= y <= w.len() - 2,
            m.len() == st.n(),
            witness_word(u) == front(w, y, m),
            self.accounts(st, self.graph.edges@[i]@[k].1 as int, us, v),
            if self.graph.states@[self.graph.edges@[i]@[k].1 as int].visible {
                back(w, y, m).len() >= 3 && back(w, y, m)[0] == back(w, y, m)[1] && v == back(
                    w,
                    y,
                    m,
                ).skip(1)
            } else {
                v == back(w, y, m)
            },
        ensures
            self.accounts(st, i, seq![u] + us, w),
    {
        let vs = seq![u] + us;
        assert forall|x: int| 0 <= x < vs.len() implies self.is_witness(st, #[trigger] vs[x]) by {
            if x > 0 {
                assert(vs[x] == us[x - 1]);
            }
        }
        assert forall|hs: Fill| #[trigger] admits(hs, vs) implies self.aut.accepts(
            st,
            hs,
            self.graph.states@[i].aexpr,
            w,
        ) by {
            lemma_admits_first(hs, u, us);
            self.lemma_cross(st, hs, i, k, w, y, m, v);
        }
    }

    /// Going along an edge, for any filling.
    proof fn lemma_cross(
        &self,
        st: SPPstore,
        hs: Fill,
        i: int,
        k: int,
        w: Word,
        y: int,
        m: Pkt,
        v: Word,
    )
        requires
            st.wf(),
            self.valid(st),
            is_word(st.n(), w),
            0 <= i < self.graph.states@.len(),
            0 <= k < self.graph.edges@[i]@.len(),
            0 <= y <= w.len() - 2,
            m.len() == st.n(),
            label_lang(st, hs, self.graph.edges@[i]@[k].0)(front(w, y, m)),
            self.aut.accepts(
                st,
                hs,
                self.graph.states@[self.graph.edges@[i]@[k].1 as int].aexpr,
                v,
            ),
            if self.graph.states@[self.graph.edges@[i]@[k].1 as int].visible {
                back(w, y, m).len() >= 3 && back(w, y, m)[0] == back(w, y, m)[1] && v == back(
                    w,
                    y,
                    m,
                ).skip(1)
            } else {
                v == back(w, y, m)
            },
        ensures
            self.aut.accepts(st, hs, self.graph.states@[i].aexpr, w),
    {
        assert(graph_row(self.aut, st, self.graph, i));
        let es = self.graph.edges@[i]@;
        let ts = targets(self.graph.states@, es);
        assert(ts[k] == (es[k].0, self.graph.states@[es[k].1 as int]));
        let s = self.graph.states@[es[k].1 as int];
        let d = choose|d: nat| #[trigger] self.aut.takes(st, hs, s.aexpr, v, d);
        assert(crosses(self.aut, st, hs, ts[k], w, y, m, d));
        assert(leaves(self.aut, st, hs, ts, w, d + 1));
    }

    /// Ending at a label, for any filling.
    proof fn lemma_ends_at(&self, st: SPPstore, hs: Fill, i: int, k: int, w: Word)
        requires
            st.wf(),
            self.valid(st),
            is_word(st.n(), w),
            0 <= i < self.graph.states@.len(),
            0 <= k < self.graph.ends@[i]@.len(),
            label_lang(st, hs, self.graph.ends@[i]@[k])(w),
        ensures
            self.aut.accepts(st, hs, self.graph.states@[i].aexpr, w),
    {
        assert(graph_row(self.aut, st, self.graph, i));
        assert(ends(st, hs, self.graph.ends@[i]@, w));
    }
}


/// The list with one more at its beginning.
fn first_and<T>(first: T, rest: Vec<T>) -> (r: Vec<T>)
    ensures
        r@ == seq![first] + rest@,
{
    let mut r: Vec<T> = Vec::new();
    r.push(first);
    let mut rest = rest;
    r.append(&mut rest);
    r
}

proof fn lemma_alone<A: ENFA>(a: &A, st: SPPstore, q: Place<A>, path: Seq<(Place<A>, Pkt)>, w: Word)
    requires
        run_on(a, st, q, path, w),
        path.len() == 1,
    ensures
        w.len() == 2,
        w[0] == path[0].1,
        a.out(st, q, w[0], w[1]),
{
    assert(path.skip(1) =~= Seq::<(Place<A>, Pkt)>::empty());
    assert(trace_of(a, path) =~= seq![path[0].1]);
    assert(w.drop_last().len() == 1);
    assert(w.drop_last()[0] == w[0]);
    assert(path.last() == path[0]);
    assert(w.last() == w[1]);
}

proof fn lemma_path_push<A: ENFA>(
    a: &A,
    st: SPPstore,
    path: Seq<(Place<A>, Pkt)>,
    q: Place<A>,
    p: Pkt,
)
    requires
        is_path(a, st, path),
        p.len() == st.n(),
        a.step(st, path.last().0, path.last().1, q, p),
    ensures
        is_path(a, st, path.push((q, p))),
{
    let u = path.push((q, p));
    assert forall|i: int| 0 <= i < u.len() - 1 implies #[trigger] moves(a, st, u, i) by {
        if i < path.len() - 1 {
            assert(moves(a, st, path, i));
        } else {
            assert(u[i] == path.last());
        }
    }
    assert forall|i: int| 0 <= i < u.len() implies (#[trigger] u[i]).1.len() == st.n() by {
        if i < path.len() {
            assert(u[i] == path[i]);
        }
    }
}

impl<C: NFA> Instantiate<C> {
    /// A hole in which the word ends.
    proof fn lemma_account_end(
        &self,
        st: SPPstore,
        i: int,
        k: int,
        h: Hole,
        u: Witness<C::State>,
        w: Word,
    )
        requires
            st.wf(),
            self.valid(st),
            is_word(st.n(), w),
            0 <= i < self.graph.states@.len(),
            0 <= k < self.graph.ends@[i]@.len(),
            self.graph.ends@[i]@[k] == EdgeLabel::Abstract(h),
            u.0 == h,
            self.is_witness(st, u),
            witness_word(u) == w,
        ensures
            self.accounts(st, i, seq![u], w),
    {
        assert forall|x: int| 0 <= x < seq![u].len() implies self.is_witness(
            st,
            #[trigger] seq![u][x],
        ) by {}
        assert forall|hs: Fill| #[trigger] admits(hs, seq![u]) implies self.aut.accepts(
            st,
            hs,
            self.graph.states@[i].aexpr,
            w,
        ) by {
            assert(seq![u][0] == u);
            self.lemma_ends_at(st, hs, i, k, w);
        }
    }

    /// The ways through the holes in the run from entry `i` of a path on.
    fn ways_from(
        &self,
        store: &mut SPPstore,
        path: &Vec<(State<C::State>, Vec<bool>)>,
        i: usize,
        output: &[bool],
        Ghost(o): Ghost<SPPstore>,
        Ghost(w): Ghost<Word>,
    ) -> (us: Vec<Witness<C::State>>)
        requires
            o.wf(),
            old(store).wf(),
            old(store).extends(&o),
            self.valid(o),
            i < path@.len(),
            is_word(o.n(), w),
            path@[i as int].0 is Outer,
            self.is_state(path_of(path@)[i as int].0),
            run_on(self, o, path_of(path@)[i as int].0, path_of(path@).skip(i as int), w),
            output@ == w.last(),
        ensures
            final(store).wf(),
            final(store).extends(old(store)),
            self.accounts(o, path@[i as int].0->Outer_0 as int, us@, w),
            ways_of(us@) == self.ways(o, path_of(path@), i as int, output@),
        decreases path.len() - i,
    {
        let ghost n = o.n();
        let ghost pm = path_of(path@);
        let ghost rest = pm.skip(i as int);
        let ghost s0 = *store;
        let a: usize = match &path[i].0 {
            State::Outer(a) => *a,
            State::Inner(_, _, _) => 0,
        };
        let ghost q = State::<Place<C>>::Outer(a);
        proof {
            assert(pm[i as int] == (q, path@[i as int].1@));
            assert(rest[0] == pm[i as int]);
            assert(trace_of(self, rest)[0] == rest[0].1);
            assert(w.drop_last()[0] == w[0]);
            assert(w[0] == path@[i as int].1@);
            self.lemma_valid(s0, o);
            self.lemma_row(o, a as int);
            s0.lemma_wf();
        }
        if i + 1 == path.len() {
            proof {
                lemma_alone(self, o, q, rest, w);
                let ls = self.graph.ends@[a as int]@;
                let k = choose|k: int|
                    0 <= k < ls.len() && self.label_out(o, #[trigger] ls[k], w[0], w[1]);
                self.lemma_end_step_ext(s0, o, ls[k], w[0], State::Outer(0), w[1]);
                assert(self.has_end(s0, a as int, w[0], w[1], k));
            }
            let k = self.find_end(store, a, &path[i].1, output);
            proof {
                self.lemma_end_step_ext(
                    s0,
                    o,
                    self.graph.ends@[a as int]@[k as int],
                    w[0],
                    State::Outer(0),
                    w[1],
                );
            }
            proof {
                assert forall|y: int| #[trigger]
                    self.has_end(s0, a as int, w[0], w[1], y) == self.has_end(
                        o,
                        a as int,
                        w[0],
                        w[1],
                        y,
                    ) by {
                    if 0 <= y < self.graph.ends@[a as int]@.len() {
                        self.lemma_end_step_ext(
                            s0,
                            o,
                            self.graph.ends@[a as int]@[y],
                            w[0],
                            State::Outer(0),
                            w[1],
                        );
                    }
                }
                self.lemma_first_end(s0, o, a as int, w[0], w[1], 0);
            }
            match self.graph.ends[a][k] {
                EdgeLabel::Concrete(s) => {
                    let us: Vec<Witness<C::State>> = Vec::new();
                    proof {
                        assert(ways_of(us@) =~= Seq::empty());
                        assert forall|hs: Fill| #[trigger] admits(hs, us@) implies self.aut.accepts(
                            o,
                            hs,
                            self.graph.states@[a as int].aexpr,
                            w,
                        ) by {
                            self.lemma_ends_at(o, hs, a as int, k as int, w);
                        }
                    }
                    return us;
                },
                EdgeLabel::Abstract(h) => {
                    let inner: Vec<(C::State, Vec<bool>)> = Vec::new();
                    let u = (h, (copy_bits(&path[i].1), inner, copy_slice(output)));
                    let ghost u1 = u;
                    let mut us: Vec<Witness<C::State>> = Vec::new();
                    us.push(u);
                    proof {
                        let c = self.holes.val(h);
                        assert(path_of(u1.1.1@) =~= Seq::<(Place<C>, Pkt)>::empty());
                        assert(ways_of(us@) =~= seq![
                            (h, w[0], Seq::<(Place<C>, Pkt)>::empty(), output@),
                        ]);
                        assert(packets_of(path_of(u1.1.1@)) =~= Seq::<Pkt>::empty());
                        assert(witness_word(u1) =~= w);
                        assert(seq![(c.init(), u1.1.0@)] + path_of(u1.1.1@) =~= seq![
                            (c.init(), u1.1.0@),
                        ]);
                        assert(self.label_known(o, self.graph.ends@[a as int]@[k as int]));
                        assert(self.is_witness(o, u1));
                        self.lemma_account_end(o, a as int, k as int, h, u1, w);
                        assert(us@ =~= seq![u1]);
                    }
                    return us;
                },
            }
        }
        proof {
            lemma_run_rest(self, o, q, rest, w);
            assert(rest[1] == pm[i + 1]);
            assert(rest.skip(1) =~= pm.skip(i + 1));
            self.lemma_states(o);
            assert(self.is_state(pm[i + 1].0));
        }
        let ghost x = pm[i + 1].1;
        let next: Option<usize> = match &path[i + 1].0 {
            State::Outer(b) => Some(*b),
            State::Inner(_, _, _) => None,
        };
        if let Some(b) = next {
            proof {
                assert(pm[i + 1].0 == State::<Place<C>>::Outer(b));
                assert(x == path@[i + 1].1@);
                let es = self.graph.edges@[a as int]@;
                let k = choose|k: int|
                    0 <= k < es.len() && self.edge_step(
                        o,
                        #[trigger] es[k],
                        w[0],
                        State::<Place<C>>::Outer(b),
                        x,
                    );
                assert(self.label_out(o, es[k].0, w[0], x));
                self.lemma_end_step_ext(s0, o, es[k].0, w[0], State::Outer(0), x);
                assert(self.has_edge(s0, a as int, b, w[0], x, k));
            }
            let k = self.find_edge(store, a, b, &path[i].1, &path[i + 1].1);
            let ghost v = if self.graph.states@[b as int].visible {
                w.skip(1)
            } else {
                w.update(0, x)
            };
            proof {
                lemma_parts(n, w, 0, x);
                self.lemma_end_step_ext(
                    s0,
                    o,
                    self.graph.edges@[a as int]@[k as int].0,
                    w[0],
                    State::Outer(0),
                    x,
                );
                if self.graph.states@[b as int].visible {
                    lemma_shorter(n, w);
                    assert(back(w, 0, x)[1] == w[1]);
                    assert(back(w, 0, x).skip(1) =~= v);
                } else {
                    lemma_updated(n, w, x);
                    assert(back(w, 0, x) =~= v);
                }
                assert(v.last() == w.last());
            }
            proof {
                assert forall|y: int| #[trigger]
                    self.has_edge(s0, a as int, b, w[0], x, y) == self.has_edge(
                        o,
                        a as int,
                        b,
                        w[0],
                        x,
                        y,
                    ) by {
                    if 0 <= y < self.graph.edges@[a as int]@.len() {
                        self.lemma_end_step_ext(
                            s0,
                            o,
                            self.graph.edges@[a as int]@[y].0,
                            w[0],
                            State::Outer(0),
                            x,
                        );
                    }
                }
                self.lemma_first_edge(s0, o, a as int, b, w[0], x, 0);
            }
            let us = self.ways_from(store, path, i + 1, output, Ghost(o), Ghost(v));
            match self.graph.edges[a][k].0 {
                EdgeLabel::Concrete(s) => {
                    proof {
                        let f = front(w, 0, x);
                        assert(f[0] == w[0] && f[1] == x);
                        assert forall|hs: Fill| #[trigger] admits(hs, us@) implies self.aut.accepts(
                            o,
                            hs,
                            self.graph.states@[a as int].aexpr,
                            w,
                        ) by {
                            self.lemma_cross(o, hs, a as int, k as int, w, 0, x, v);
                        }
                    }
                    return us;
                },
                EdgeLabel::Abstract(h) => {
                    let inner: Vec<(C::State, Vec<bool>)> = Vec::new();
                    let u = (h, (copy_bits(&path[i].1), inner, copy_bits(&path[i + 1].1)));
                    let ghost u1 = u;
                    proof {
                        let c = self.holes.val(h);
                        assert(path_of(u1.1.1@) =~= Seq::<(Place<C>, Pkt)>::empty());
                        assert(packets_of(path_of(u1.1.1@)) =~= Seq::<Pkt>::empty());
                        assert(witness_word(u1) =~= front(w, 0, x));
                        assert(seq![(c.init(), u1.1.0@)] + path_of(u1.1.1@) =~= seq![
                            (c.init(), u1.1.0@),
                        ]);
                        assert(self.label_known(o, self.graph.edges@[a as int]@[k as int].0));
                        assert(self.is_witness(o, u1));
                        self.lemma_account_hole(o, a as int, k as int, h, u1, us@, w, 0, x, v);
                        assert(ways_of(seq![u1] + us@) =~= seq![
                            (h, w[0], Seq::<(Place<C>, Pkt)>::empty(), x),
                        ] + ways_of(us@));
                    }
                    return first_and(u, us);
                },
            }
        }
        let (h, k): (Hole, Option<usize>) = match &path[i + 1].0 {
            State::Outer(_) => (Hole(0), None),
            State::Inner(h, _, k) => (*h, *k),
        };
        let ghost c = self.holes.val(h);
        let ghost p0 = w[0];
        let mut inner: Vec<(C::State, Vec<bool>)> = Vec::new();
        let mut j: usize = i;
        proof {
            c.lemma_visible();
            assert(path_of(inner@) =~= Seq::<(Place<C>, Pkt)>::empty());
            assert(inside(pm, i + 1, i + 1) =~= Seq::<(Place<C>, Pkt)>::empty());
            assert(seq![(c.init(), p0)] + path_of(inner@) =~= seq![(c.init(), p0)]);
            assert(is_path(&c, o, seq![(c.init(), p0)]));
            assert(w.skip(0) =~= w);
            let t1 = path@[i + 1].0->Inner_1;
            assert(pm[i + 1].0 == State::<Place<C>>::Inner(h, t1.model(), k));
            assert(self.holes.has(h));
            assert(self.inner_step(o, h, c.init(), k, p0, pm[i + 1].0, x));
        }
        while j + 1 < path.len() && self.inside_hole(&path[j + 1].0)
            invariant
                n == o.n(),
                o.wf(),
                self.valid(o),
                pm == path_of(path@),
                i <= j < path@.len(),
                i + 1 < path@.len(),
                is_word(n, w),
                c == self.holes.val(h),
                p0 == w[0],
                self.holes.has(h),
                forall|t: Place<C>| #[trigger] c.vis(t),
                self.is_state(pm[j as int].0),
                j - i <= w.len() - 2,
                run_on(self, o, pm[j as int].0, pm.skip(j as int), w.skip(j - i)),
                inner@.len() == j - i,
                leave_at(pm, i + 1) == leave_at(pm, j + 1),
                path_of(inner@) == inside(pm, i + 1, j + 1),
                path_of(inner@).len() == j - i,
                is_path(&c, o, seq![(c.init(), p0)] + path_of(inner@)),
                packets_of(path_of(inner@)) == w.subrange(1, j - i + 1),
                (seq![(c.init(), p0)] + path_of(inner@)).last().1 == w[j - i],
                j > i ==> pm[j as int].0 == State::<Place<C>>::Inner(
                    h,
                    (seq![(c.init(), p0)] + path_of(inner@)).last().0,
                    k,
                ),
                j == i ==> pm[j as int].0 == q && pm[j + 1].0 is Inner && self.inner_step(
                    o,
                    h,
                    c.init(),
                    k,
                    p0,
                    pm[j + 1].0,
                    pm[j + 1].1,
                ),
            decreases path.len() - j,
        {
            let ghost v = w.skip(j - i);
            let ghost rj = pm.skip(j as int);
            let ghost cp = seq![(c.init(), p0)] + path_of(inner@);
            let ghost inner0 = inner@;
            proof {
                assert(rj.len() >= 2);
                assert(rj[0] == pm[j as int] && rj[1] == pm[j + 1]);
                lemma_run_rest(self, o, pm[j as int].0, rj, v);
                assert(rj.skip(1) =~= pm.skip(j + 1));
                self.lemma_states(o);
                assert(v[0] == w[j - i]);
            }
            match &path[j + 1].0 {
                State::Outer(_) => {},
                State::Inner(_, t, _) => {
                    proof {
                        let g = path@[j + 1].0->Inner_0;
                        let l = path@[j + 1].0->Inner_2;
                        assert(pm[j + 1].0 == State::<Place<C>>::Inner(g, t.model(), l));
                        if j > i {
                            assert(self.inner_step(
                                o,
                                h,
                                cp.last().0,
                                k,
                                v[0],
                                pm[j + 1].0,
                                pm[j + 1].1,
                            ));
                        }
                        assert(g == h && l == k);
                        assert(c.step(o, cp.last().0, v[0], t.model(), pm[j + 1].1));
                        assert(c.vis(t.model()));
                        assert(self.vis(pm[j + 1].0));
                        assert(v.skip(1) =~= w.skip(j + 1 - i));
                        assert(v[1] == w[j + 1 - i]);
                        lemma_path_push(&c, o, cp, t.model(), pm[j + 1].1);
                    }
                    inner.push((t.dup(), copy_bits(&path[j + 1].1)));
                    proof {
                        assert(path_of(inner@) =~= path_of(inner0).push((t.model(), pm[j + 1].1)));
                        assert(inside(pm, i + 1, j + 2) =~= inside(pm, i + 1, j + 1).push(
                            (t.model(), pm[j + 1].1),
                        ));
                        assert(seq![(c.init(), p0)] + path_of(inner@) =~= cp.push(
                            (t.model(), pm[j + 1].1),
                        ));
                        assert(packets_of(path_of(inner@)) =~= packets_of(path_of(inner0)).push(
                            pm[j + 1].1,
                        ));
                        assert(w.subrange(1, j + 1 - i + 1) =~= w.subrange(1, j - i + 1).push(
                            w[j + 1 - i],
                        ));
                    }
                },
            }
            j = j + 1;
        }
        let ghost y = j - i;
        let ghost v = w.skip(y);
        let ghost rj = pm.skip(j as int);
        let ghost cp = seq![(c.init(), p0)] + path_of(inner@);
        proof {
            assert(j > i);
            assert(rj[0] == pm[j as int]);
            assert(trace_of(self, rj)[0] == rj[0].1);
            assert(v.drop_last()[0] == v[0]);
            assert(v[0] == w[y]);
        }
        if j + 1 == path.len() {
            let u = (h, (copy_bits(&path[i].1), inner, copy_slice(output)));
            let ghost u1 = u;
            let mut us: Vec<Witness<C::State>> = Vec::new();
            us.push(u);
            proof {
                lemma_alone(self, o, pm[j as int].0, rj, v);
                assert(v[1] == w.last());
                assert(witness_word(u1) =~= w) by {
                    assert(seq![p0] + w.subrange(1, y + 1) =~= w.take(y + 1));
                    assert(w.len() == y + 2);
                    assert(w.take(y + 1).push(w.last()) =~= w);
                }
                assert(self.is_witness(o, u1));
                let ls = self.graph.ends@[a as int]@;
                let es = self.graph.edges@[a as int]@;
                let r1 = pm[i + 1].0;
                assert(k is None);
                assert(self.ends_step(o, ls, p0, r1, x)) by {
                    if self.edges_step(o, es, p0, r1, x) {
                        let z = choose|z: int|
                            0 <= z < es.len() && self.edge_step(o, #[trigger] es[z], p0, r1, x);
                        assert(false);
                    }
                }
                let z = choose|z: int|
                    0 <= z < ls.len() && self.end_step(o, #[trigger] ls[z], p0, r1, x);
                self.lemma_account_end(o, a as int, z, h, u1, w);
                assert(us@ =~= seq![u1]);
                assert(leave_at(pm, i + 1) == j + 1);
                assert(ways_of(us@) =~= seq![(h, p0, inside(pm, i + 1, j + 1), output@)]);
            }
            return us;
        }
        let b: usize = match &path[j + 1].0 {
            State::Outer(b) => *b,
            State::Inner(_, _, _) => 0,
        };
        let ghost m = pm[j + 1].1;
        let ghost v2 = if self.graph.states@[b as int].visible {
            v.skip(1)
        } else {
            v.update(0, m)
        };
        proof {
            assert(rj[1] == pm[j + 1]);
            lemma_run_rest(self, o, pm[j as int].0, rj, v);
            assert(rj.skip(1) =~= pm.skip(j + 1));
            self.lemma_states(o);
            assert(pm[j + 1].0 == State::<Place<C>>::Outer(b));
            assert(k == Some(b));
            lemma_parts(n, w, y, m);
            let bk = back(w, y, m);
            if self.graph.states@[b as int].visible {
                assert(v[1] == w[y + 1]);
                assert(bk[1] == w[y + 1]);
                assert(bk.skip(1) =~= v2);
                lemma_shorter(n, bk);
            } else {
                assert(bk =~= v2);
            }
            assert(v2.last() == w.last());
        }
        let us = self.ways_from(store, path, j + 1, output, Ghost(o), Ghost(v2));
        let u = (h, (copy_bits(&path[i].1), inner, copy_bits(&path[j + 1].1)));
        let ghost u1 = u;
        proof {
            assert(witness_word(u1) =~= front(w, y, m)) by {
                assert(seq![p0] + w.subrange(1, y + 1) =~= w.take(y + 1));
            }
            assert(self.is_witness(o, u1));
            let es = self.graph.edges@[a as int]@;
            let ls = self.graph.ends@[a as int]@;
            let r1 = pm[i + 1].0;
            assert(self.edges_step(o, es, p0, r1, x)) by {
                if self.ends_step(o, ls, p0, r1, x) {
                    let z = choose|z: int|
                        0 <= z < ls.len() && self.end_step(o, #[trigger] ls[z], p0, r1, x);
                    assert(false);
                }
            }
            let z = choose|z: int|
                0 <= z < es.len() && self.edge_step(o, #[trigger] es[z], p0, r1, x);
            assert(es[z] == (EdgeLabel::Abstract(h), b));
            self.lemma_account_hole(o, a as int, z, h, u1, us@, w, y, m, v2);
            assert(leave_at(pm, i + 1) == j + 1);
            assert(ways_of(seq![u1] + us@) =~= seq![
                (h, p0, inside(pm, i + 1, j + 1), m),
            ] + ways_of(us@));
        }
        first_and(u, us)
    }

    fn inside_hole(&self, q: &State<C::State>) -> (b: bool)
        ensures
            b == (*q is Inner),
    {
        match q {
            State::Outer(_) => false,
            State::Inner(_, _, _) => true,
        }
    }
}

/// The same bits.
fn copy_slice(bits: &[bool]) -> (r: Vec<bool>)
    ensures
        r@ == bits@,
{
    let mut r: Vec<bool> = Vec::new();
    let mut i: usize = 0;
    while i < bits.len()
        invariant
            i <= bits@.len(),
            r@ == bits@.take(i as int),
        decreases bits.len() - i,
    {
        r.push(bits[i]);
        assert(bits@.take(i + 1) =~= bits@.take(i as int).push(bits@[i as int]));
        i = i + 1;
    }
    assert(bits@.take(i as int) =~= bits@);
    r
}


/// Every word of `a` is a word of `b`.
pub open spec fn contained(n: nat, a: Lang, b: Lang) -> bool {
    forall|w: Word| is_word(n, w) && #[trigger] a(w) ==> b(w)
}

/// A word of the first language that is none of the second.
pub open spec fn separates(n: nat, a: Lang, b: Lang, w: Word) -> bool {
    is_word(n, w) && a(w) && !b(w)
}

/// The first components of the states of a path.
fn left_path<A: StateKey, B: StateKey>(path: &Vec<((A, B), Vec<bool>)>) -> (r: Vec<
    (A, Vec<bool>),
>)
    ensures
        r@.len() == path@.len(),
        path_of(r@).len() == path@.len(),
        forall|i: int|
            0 <= i < path@.len() ==> (#[trigger] path_of(r@)[i]).0 == path_of(path@)[i].0.0
                && path_of(r@)[i].1 == path_of(path@)[i].1,
{
    let mut r: Vec<(A, Vec<bool>)> = Vec::new();
    let mut i: usize = 0;
    while i < path.len()
        invariant
            i <= path@.len(),
            r@.len() == i,
            forall|j: int|
                0 <= j < i ==> (#[trigger] r@[j]).0.model() == path@[j].0.0.model() && r@[j].1@
                    == path@[j].1@,
        decreases path.len() - i,
    {
        r.push((path[i].0.0.dup(), copy_bits(&path[i].1)));
        i = i + 1;
    }
    proof {
        assert forall|i: int| 0 <= i < path@.len() implies (#[trigger] path_of(r@)[i]).0
            == path_of(path@)[i].0.0 && path_of(r@)[i].1 == path_of(path@)[i].1 by {
            assert(r@[i].0.model() == path@[i].0.0.model());
            assert(path@[i].0.model() == (path@[i].0.0.model(), path@[i].0.1.model()));
        }
    }
    r
}

/// If every state is visible, a path shows all of its packets.
proof fn lemma_shown<A: ENFA>(a: &A, path: Seq<(Place<A>, Pkt)>)
    requires
        forall|q: Place<A>| #[trigger] a.vis(q),
    ensures
        seen(a, path) == packets_of(path),
    decreases path.len(),
{
    if path.len() > 0 {
        lemma_shown(a, path.drop_last());
        assert(a.vis(path.last().0));
        assert(packets_of(path) =~= packets_of(path.drop_last()).push(path.last().1));
    } else {
        assert(packets_of(path) =~= Seq::<Pkt>::empty());
    }
}

impl<C: NFA> Instantiate<C> {
    /// The ways through the holes along a run, in order: any filling that admits them
    /// has the word of the run.
    pub fn holes_used_in_trace(
        &self,
        store: &mut SPPstore,
        path: &Vec<(State<C::State>, Vec<bool>)>,
        output_pkt: &[bool],
    ) -> (us: Vec<Witness<C::State>>)
        requires
            old(store).wf(),
            self.valid(*old(store)),
            is_path(self, *old(store), path_of(path@)),
            path_of(path@)[0].0 == self.init(),
            output_pkt@.len() == old(store).n(),
            self.out(
                *old(store),
                path_of(path@).last().0,
                path_of(path@).last().1,
                output_pkt@,
            ),
        ensures
            final(store).wf(),
            final(store).extends(old(store)),
            self.accounts(
                *old(store),
                0,
                us@,
                trace_of(self, path_of(path@)).push(output_pkt@),
            ),
            ways_of(us@) == self.ways(*old(store), path_of(path@), 0, output_pkt@),
    {
        let ghost o = *store;
        let ghost pm = path_of(path@);
        let ghost w = trace_of(self, pm).push(output_pkt@);
        proof {
            lemma_word_of(self, o, pm, output_pkt@);
            o.lemma_wf();
            assert(pm.skip(0) =~= pm);
            assert(pm[0] == (path@[0].0.model(), path@[0].1@));
            assert(path@[0].0 is Outer);
            self.lemma_states(o);
        }
        self.ways_from(store, path, 0, output_pkt, Ghost(o), Ghost(w))
    }

    /// Whether every word is one of the upper bound.  If not, the ways through the
    /// holes along a run on a word that is not: as long as the holes admit these,
    /// the word stays.
    pub fn check_less_than<U: DFA>(&self, store: &mut SPPstore, upper_bound: &U) -> (r: Result<
        (),
        Vec<Witness<C::State>>,
    >)
        requires
            old(store).wf(),
            self.valid(*old(store)),
            upper_bound.valid(*old(store)),
        ensures
            final(store).wf(),
            final(store).extends(old(store)),
            r is Ok <==> contained(
                old(store).n(),
                enfa_lang(self, *old(store)),
                enfa_lang(upper_bound, *old(store)),
            ),
            r matches Err(us) ==> exists|w: Word| #[trigger]
                separates(
                    old(store).n(),
                    enfa_lang(self, *old(store)),
                    enfa_lang(upper_bound, *old(store)),
                    w,
                ) && self.accounts(*old(store), 0, us@, w),
    {
        let ghost o = *store;
        let ghost n = o.n();
        let closed = EpsilonClosure::new(self);
        let outside = complement(upper_bound);
        let product = intersection(&closed, &outside);
        proof {
            assert forall|w: Word| is_word(n, w) implies (#[trigger] enfa_lang(&product, o)(w)
                <==> enfa_lang(self, o)(w) && !enfa_lang(upper_bound, o)(w)) by {
                law_intersection(&product, o, w);
                lemma_lang_ref(&closed, o, w);
                lemma_lang_ref(&outside, o, w);
                law_closure(&closed, o, w);
                lemma_lang_ref(self, o, w);
                law_complement(&outside, o, w);
                lemma_lang_ref(upper_bound, o, w);
            }
        }
        match get_any_trace_with_states(&product, store) {
            None => {
                proof {
                    assert forall|w: Word|
                        is_word(n, w) && #[trigger] enfa_lang(self, o)(w) implies enfa_lang(
                        upper_bound,
                        o,
                    )(w) by {
                        if !enfa_lang(upper_bound, o)(w) {
                            assert(enfa_lang(&product, o)(w));
                            assert(inhabited(&product, o));
                        }
                    }
                }
                Ok(())
            },
            Some((visible_path, output)) => {
                let ghost vp = path_of(visible_path@);
                let ghost w = trace_of(&product, vp).push(output@);
                let self_path = left_path(&visible_path);
                let ghost sp = path_of(self_path@);
                let ghost s1 = *store;
                proof {
                    lemma_word_of(&product, o, vp, output@);
                    product.lemma_visible();
                    lemma_shown(&product, vp.skip(1));
                    assert(enfa_lang(&product, o)(w));
                    assert forall|i: int| 0 <= i < sp.len() - 1 implies #[trigger] moves(
                        &closed,
                        o,
                        sp,
                        i,
                    ) by {
                        assert(moves(&product, o, vp, i));
                        assert(sp[i].0 == vp[i].0.0 && sp[i + 1].0 == vp[i + 1].0.0);
                    }
                    assert forall|i: int| 0 <= i < sp.len() implies (#[trigger] sp[i]).1.len()
                        == n by {
                        assert(vp[i].1.len() == n);
                    }
                    assert(sp[sp.len() - 1].0 == vp[vp.len() - 1].0.0);
                    assert(is_path(&closed, o, sp));
                    assert(packets_of(sp).push(output@) =~= w) by {
                        assert(packets_of(sp) =~= seq![vp[0].1] + packets_of(vp.skip(1)));
                    }
                    self.lemma_states(o);
                    closed.lemma_valid(s1, o);
                    self.lemma_valid(s1, o);
                    assert(sp[0].0 == vp[0].0.0);
                    lemma_path_store(&closed, s1, o, sp);
                    lemma_path_states(&closed, o, sp, sp.len() - 1);
                }
                let full = closed.elaborate_trace(store, &self_path, output.as_slice());
                let ghost fp = path_of(full@);
                proof {
                    lemma_run_ref(self, s1, sp[0].0, fp, w);
                    self.lemma_valid(*store, s1);
                    lemma_run_store(self, s1, o, self.init(), fp, w);
                    lemma_run_store(self, *store, s1, self.init(), fp, w);
                    assert(w.last() == output@);
                }
                let ghost s2 = *store;
                proof {
                    assert(trace_of(self, fp).push(output@) =~= w);
                }
                let us = self.holes_used_in_trace(store, &full, output.as_slice());
                proof {
                    self.lemma_accounts_store(s2, o, us@, w);
                    assert(separates(n, enfa_lang(self, o), enfa_lang(upper_bound, o), w));
                }
                Err(us)
            },
        }
    }

    /// What accounts for a word in a store that grew accounted for it before.
    proof fn lemma_accounts_store(
        &self,
        st: SPPstore,
        o: SPPstore,
        us: Seq<Witness<C::State>>,
        w: Word,
    )
        requires
            o.wf(),
            st.wf(),
            st.extends(&o),
            self.valid(o),
            is_word(o.n(), w),
            self.accounts(st, 0, us, w),
        ensures
            self.accounts(o, 0, us, w),
    {
        self.lemma_valid(st, o);
        self.aut.lemma_wf_ext(st, o);
        assert(self.aut.has(self.graph.states@[0].aexpr));
        assert forall|hs: Fill| #[trigger] admits(hs, us) implies self.aut.accepts(
            o,
            hs,
            self.graph.states@[0].aexpr,
            w,
        ) by {
            assert(self.aut.accepts(st, hs, self.graph.states@[0].aexpr, w));
        }
        assert forall|k: int| 0 <= k < us.len() implies self.is_witness(o, #[trigger] us[k]) by {
            let u = us[k];
            assert(self.is_witness(st, u));
            let c = self.holes.val(u.0);
            let path = seq![(c.init(), u.1.0@)] + path_of(u.1.1@);
            c.lemma_valid(st, o);
            c.lemma_states(o);
            assert(path[0] == (c.init(), u.1.0@));
            lemma_path_store(&c, st, o, path);
            lemma_path_states(&c, o, path, path.len() - 1);
            assert(path[path.len() - 1].1.len() == o.n());
        }
    }

    /// Whether every word of the lower bound is a word of the automaton; if not,
    /// one that is not.
    pub fn check_greater_than<L: DFA>(&self, store: &mut SPPstore, lower_bound: &L) -> (r: Result<
        (),
        LowerBoundCounterexample,
    >)
        requires
            old(store).wf(),
            self.valid(*old(store)),
            lower_bound.valid(*old(store)),
        ensures
            final(store).wf(),
            final(store).extends(old(store)),
            r is Ok <==> contained(
                old(store).n(),
                enfa_lang(lower_bound, *old(store)),
                enfa_lang(self, *old(store)),
            ),
            r matches Err(cex) ==> cex.trace@.len() >= 1 && separates(
                old(store).n(),
                enfa_lang(lower_bound, *old(store)),
                enfa_lang(self, *old(store)),
                packets(cex.trace@).push(cex.output@),
            ),
    {
        let ghost o = *store;
        let ghost n = o.n();
        let closed = EpsilonClosure::new(self);
        let sets = SubsetDfa::new(&closed);
        let outside = complement(&sets);
        let product = intersection(lower_bound, &outside);
        proof {
            assert forall|w: Word| is_word(n, w) implies (#[trigger] enfa_lang(&product, o)(w)
                <==> enfa_lang(lower_bound, o)(w) && !enfa_lang(self, o)(w)) by {
                law_intersection(&product, o, w);
                lemma_lang_ref(lower_bound, o, w);
                lemma_lang_ref(&outside, o, w);
                law_complement(&outside, o, w);
                lemma_lang_ref(&sets, o, w);
                law_subset(&sets, o, w);
                lemma_lang_ref(&closed, o, w);
                law_closure(&closed, o, w);
                lemma_lang_ref(self, o, w);
            }
        }
        match get_any_trace(&product, store) {
            None => {
                proof {
                    assert forall|w: Word|
                        is_word(n, w) && #[trigger] enfa_lang(lower_bound, o)(w) implies enfa_lang(
                        self,
                        o,
                    )(w) by {
                        if !enfa_lang(self, o)(w) {
                            assert(enfa_lang(&product, o)(w));
                            assert(inhabited(&product, o));
                        }
                    }
                }
                Ok(())
            },
            Some((trace, output)) => {
                proof {
                    let w = packets(trace@).push(output@);
                    assert(enfa_lang(&product, o)(w));
                    assert(enfa_lang(lower_bound, o)(w));
                }
                Err(LowerBoundCounterexample { trace, output })
            },
        }
    }
}

/// A path in a store that grew is one in the store before, and the other way round.
pub proof fn lemma_path_store<A: ENFA>(
    a: &A,
    st: SPPstore,
    o: SPPstore,
    path: Seq<(Place<A>, Pkt)>,
)
    requires
        o.wf(),
        st.wf(),
        st.extends(&o),
        a.valid(o),
        a.is_state(path[0].0),
    ensures
        is_path(a, st, path) == is_path(a, o, path),
{
    a.lemma_valid(st, o);
    if is_path(a, st, path) {
        assert forall|i: int| 0 <= i < path.len() - 1 implies #[trigger] moves(a, o, path, i) by {
            assert(moves(a, st, path, i));
            lemma_path_states(a, st, path, i);
            assert(path[i].1.len() == o.n() && path[i + 1].1.len() == o.n());
        }
    }
    if is_path(a, o, path) {
        assert forall|i: int| 0 <= i < path.len() - 1 implies #[trigger] moves(a, st, path, i) by {
            assert(moves(a, o, path, i));
            lemma_path_states(a, o, path, i);
            assert(path[i].1.len() == o.n() && path[i + 1].1.len() == o.n());
        }
    }
}

/// A run in a store that grew is one in the store before, and the other way round.
proof fn lemma_run_store<A: ENFA>(
    a: &A,
    st: SPPstore,
    o: SPPstore,
    q: Place<A>,
    path: Seq<(Place<A>, Pkt)>,
    w: Word,
)
    requires
        o.wf(),
        st.wf(),
        st.extends(&o),
        a.valid(o),
        a.is_state(q),
        is_word(o.n(), w),
    ensures
        run_on(a, st, q, path, w) == run_on(a, o, q, path, w),
{
    a.lemma_valid(st, o);
    if path.len() >= 1 && path[0].0 == q {
        lemma_path_store(a, st, o, path);
        if is_path(a, o, path) {
            lemma_path_states(a, o, path, path.len() - 1);
            assert(path[path.len() - 1].1.len() == o.n());
            assert(w[w.len() - 1].len() == o.n());
        }
    }
}

} // verus!
