//! Deterministic automata as flat tables.
use vstd::prelude::*;
use std::collections::HashMap;
use crate::aut::{lists, state_lang, Aut, State, ST};
use crate::expr::Expr;
use crate::holes::aut::{
    among, deterministic, enfa_lang, lemma_lang_valid, lemma_nfa_word, listed, models, moves_on,
    nfa_word, total, Place, StateKey, DFA, ENFA, NFA,
};
use crate::holes::ops::{law_product, law_product_total, lemma_listed_ext, NAryProduct};
use crate::holes::reach::{lemma_graph_closed, lemma_states_exact};
use crate::holes::table::{can_reach, hop_at, hops, law_memo, output_of, row_of, Memo};
use crate::lang::{closed_over, cons, is_word, lang, lemma_tail, lemma_uncons, pair, Word};
use crate::sp::Pkt;
use crate::spp::{SPPstore, SPP};

verus! {

/// A deterministic automaton whose states are numbers: `transitions[i]` and
/// `outputs[i]` are those of state `i`.
#[derive(Debug)]
pub struct ExplicitDFA {
    pub start: usize,
    pub transitions: Vec<Vec<(SPP, usize)>>,
    pub outputs: Vec<SPP>,
}

/// The row leads to one state for every pair of packets.
pub open spec fn row_single(st: SPPstore, row: Seq<(SPP, usize)>) -> bool {
    forall|p: Pkt, r: usize, s: usize, x: Pkt|
        #![trigger listed(st, row, p, r, x), listed(st, row, p, s, x)]
        p.len() == st.n() && x.len() == st.n() && listed(st, row, p, r, x) && listed(
            st,
            row,
            p,
            s,
            x,
        ) ==> r == s
}

/// The row has relations of the store, and leads to the first `n` states.
pub open spec fn row_within(st: SPPstore, row: Seq<(SPP, usize)>, n: nat) -> bool {
    forall|i: int| 0 <= i < row.len() ==> st.has((#[trigger] row[i]).0) && row[i].1 < n
}

impl ExplicitDFA {
    /// The number of states.
    pub fn num_states(&self) -> (n: usize)
        ensures
            n == self.transitions@.len(),
    {
        self.transitions.len()
    }

    /// The same automaton.
    pub fn copy(&self) -> (r: ExplicitDFA)
        ensures
            r.start == self.start,
            r.outputs@ == self.outputs@,
            r.transitions@.len() == self.transitions@.len(),
            forall|i: int|
                0 <= i < r.transitions@.len() ==> (#[trigger] r.transitions@[i])@
                    == self.transitions@[i]@,
            forall|st: SPPstore| self.valid(st) ==> #[trigger] r.valid(st),
            forall|st: SPPstore, w: Word|
                self.valid(st) && st.wf() && is_word(st.n(), w) ==> #[trigger] enfa_lang(&r, st)(w)
                    == enfa_lang(self, st)(w),
    {
        let mut transitions: Vec<Vec<(SPP, usize)>> = Vec::new();
        let mut i: usize = 0;
        while i < self.transitions.len()
            invariant
                i <= self.transitions@.len(),
                transitions@.len() == i,
                forall|j: int|
                    0 <= j < i ==> (#[trigger] transitions@[j])@ == self.transitions@[j]@,
            decreases self.transitions.len() - i,
        {
            transitions.push(copy_entries(&self.transitions[i]));
            i = i + 1;
        }
        let mut outputs: Vec<SPP> = Vec::new();
        let mut j: usize = 0;
        while j < self.outputs.len()
            invariant
                j <= self.outputs@.len(),
                outputs@ == self.outputs@.take(j as int),
            decreases self.outputs.len() - j,
        {
            outputs.push(self.outputs[j]);
            j = j + 1;
        }
        proof {
            assert(self.outputs@.take(j as int) =~= self.outputs@);
        }
        let r = ExplicitDFA { start: self.start, transitions, outputs };
        proof {
            assert forall|st: SPPstore| self.valid(st) implies #[trigger] r.valid(st) by {
                assert forall|k: int| 0 <= k < r.transitions@.len() implies row_within(
                    st,
                    (#[trigger] r.transitions@[k])@,
                    r.transitions@.len(),
                ) && row_single(st, r.transitions@[k]@) by {
                    assert(row_within(
                        st,
                        self.transitions@[k]@,
                        self.transitions@.len(),
                    ) && row_single(st, self.transitions@[k]@));
                }
            }
            assert forall|st: SPPstore, w: Word| self.valid(st) && st.wf() && is_word(
                st.n(),
                w,
            ) implies #[trigger] enfa_lang(&r, st)(w) == enfa_lang(self, st)(w) by {
                lemma_nfa_word(&r, st, r.start, w);
                lemma_nfa_word(self, st, self.start, w);
                lemma_same_rows(&r, self, st, self.start, w);
            }
        }
        r
    }
}

/// Tables with the same rows accept the same words.
proof fn lemma_same_rows(a: &ExplicitDFA, b: &ExplicitDFA, st: SPPstore, q: usize, w: Word)
    requires
        st.wf(),
        b.valid(st),
        b.is_state(q),
        is_word(st.n(), w),
        a.outputs@ == b.outputs@,
        a.transitions@.len() == b.transitions@.len(),
        forall|i: int|
            0 <= i < a.transitions@.len() ==> (#[trigger] a.transitions@[i])@
                == b.transitions@[i]@,
    ensures
        nfa_word(a, st, q, w) == nfa_word(b, st, q, w),
    decreases w.len(),
{
    if w.len() >= 3 {
        lemma_tail(st.n(), w, 1);
        b.lemma_states(st);
        assert(w[0].len() == st.n() && w[1].len() == st.n());
        let v = w.skip(1);
        assert(a.transitions@[q as int]@ == b.transitions@[q as int]@);
        assert forall|r: usize| b.is_state(r) implies #[trigger] nfa_word(a, st, r, v) == nfa_word(
            b,
            st,
            r,
            v,
        ) by {
            lemma_same_rows(a, b, st, r, v);
        }
        if nfa_word(a, st, q, w) {
            let r = choose|r: usize| #[trigger]
                a.step(st, q, w[0], r, w[1]) && nfa_word(a, st, r, v);
            assert(b.step(st, q, w[0], r, w[1]));
            assert(b.is_state(r));
            assert(nfa_word(b, st, r, v));
        }
        if nfa_word(b, st, q, w) {
            let r = choose|r: usize| #[trigger]
                b.step(st, q, w[0], r, w[1]) && nfa_word(b, st, r, v);
            assert(a.step(st, q, w[0], r, w[1]));
            assert(b.is_state(r));
            assert(nfa_word(a, st, r, v));
        }
    }
}

impl Clone for ExplicitDFA {
    fn clone(&self) -> (r: ExplicitDFA) {
        self.copy()
    }
}

/// The same transitions.
fn copy_entries(row: &Vec<(SPP, usize)>) -> (r: Vec<(SPP, usize)>)
    ensures
        r@ == row@,
{
    let mut r: Vec<(SPP, usize)> = Vec::new();
    let mut i: usize = 0;
    while i < row.len()
        invariant
            i <= row@.len(),
            r@ == row@.take(i as int),
        decreases row.len() - i,
    {
        let (x, j) = row[i];
        r.push((x, j));
        proof {
            assert(row@.take(i + 1) =~= row@.take(i as int).push(row@[i as int]));
        }
        i = i + 1;
    }
    proof {
        assert(row@.take(i as int) =~= row@);
    }
    r
}

impl ENFA for ExplicitDFA {
    type State = usize;

    open spec fn valid(&self, st: SPPstore) -> bool {
        &&& self.start < self.transitions@.len()
        &&& self.outputs@.len() == self.transitions@.len()
        &&& forall|i: int|
            0 <= i < self.transitions@.len() ==> row_within(
                st,
                (#[trigger] self.transitions@[i])@,
                self.transitions@.len(),
            ) && row_single(st, self.transitions@[i]@)
        &&& forall|i: int| 0 <= i < self.outputs@.len() ==> st.has(#[trigger] self.outputs@[i])
    }

    open spec fn is_state(&self, q: usize) -> bool {
        q < self.transitions@.len()
    }

    open spec fn init(&self) -> usize {
        self.start
    }

    open spec fn vis(&self, q: usize) -> bool {
        true
    }

    open spec fn step(&self, st: SPPstore, q: usize, p: Pkt, r: usize, x: Pkt) -> bool {
        listed(st, self.transitions@[q as int]@, p, r, x)
    }

    open spec fn out(&self, st: SPPstore, q: usize, p: Pkt, x: Pkt) -> bool {
        st.rel(self.outputs@[q as int], p, x)
    }

    proof fn lemma_valid(&self, st: SPPstore, o: SPPstore) {
        assert forall|i: int| 0 <= i < self.transitions@.len() implies row_within(
            st,
            (#[trigger] self.transitions@[i])@,
            self.transitions@.len(),
        ) && row_single(st, self.transitions@[i]@) by {
            let row = self.transitions@[i]@;
            assert(row_within(o, row, self.transitions@.len()) && row_single(o, row));
            lemma_listed_ext(st, o, row);
            assert forall|k: int| 0 <= k < row.len() implies st.has((#[trigger] row[k]).0)
                && row[k].1 < self.transitions@.len() by {
                assert(o.has(row[k].0));
            }
        }
        assert forall|q: usize, p: Pkt, r: usize, x: Pkt|
            #![trigger self.step(st, q, p, r, x)]
            #![trigger self.step(o, q, p, r, x)]
            self.is_state(q) && p.len() == o.n() && x.len() == o.n() implies self.step(
            st,
            q,
            p,
            r,
            x,
        ) == self.step(o, q, p, r, x) by {
            let row = self.transitions@[q as int]@;
            assert(row_within(o, row, self.transitions@.len()));
            lemma_listed_ext(st, o, row);
        }
        assert forall|q: usize, p: Pkt, x: Pkt|
            #![trigger self.out(st, q, p, x)]
            #![trigger self.out(o, q, p, x)]
            self.is_state(q) && p.len() == o.n() && x.len() == o.n() implies self.out(st, q, p, x)
            == self.out(o, q, p, x) by {
            assert(o.has(self.outputs@[q as int]));
        }
    }

    proof fn lemma_states(&self, st: SPPstore) {
        assert forall|q: usize, p: Pkt, r: usize, x: Pkt| #[trigger]
            self.step(st, q, p, r, x) && self.is_state(q) && p.len() == st.n() && x.len()
                == st.n() implies self.is_state(r) by {
            let row = self.transitions@[q as int]@;
            assert(row_within(st, row, self.transitions@.len()));
            let i = choose|i: int|
                0 <= i < row.len() && st.rel((#[trigger] row[i]).0, p, x) && row[i].1.model() == r;
            assert(row[i].1 < self.transitions@.len());
        }
    }

    fn start(&self, store: &mut SPPstore) -> (q: usize) {
        self.start
    }

    fn is_visible(&self, store: &mut SPPstore, q: &usize) -> (b: bool) {
        true
    }

    fn transitions(&self, store: &mut SPPstore, q: &usize) -> (ts: Vec<(SPP, usize)>) {
        let ts = copy_entries(&self.transitions[*q]);
        proof {
            let row = self.transitions@[*q as int]@;
            assert(row_within(*store, row, self.transitions@.len()));
            assert forall|i: int| 0 <= i < ts@.len() implies store.has((#[trigger] ts@[i]).0)
                && self.is_state(ts@[i].1.model()) by {
                assert(store.has(row[i].0) && row[i].1 < self.transitions@.len());
            }
        }
        ts
    }

    fn output(&self, store: &mut SPPstore, q: &usize) -> (y: SPP) {
        proof {
            assert(store.has(self.outputs@[*q as int]));
        }
        self.outputs[*q]
    }
}

impl NFA for ExplicitDFA {
    proof fn lemma_visible(&self) {
    }
}

impl DFA for ExplicitDFA {
    proof fn lemma_deterministic(&self, st: SPPstore) {
        assert forall|q: usize, p: Pkt, r: usize, s: usize, x: Pkt|
            #![trigger self.step(st, q, p, r, x), self.step(st, q, p, s, x)]
            self.is_state(q) && p.len() == st.n() && x.len() == st.n() && self.step(
                st,
                q,
                p,
                r,
                x,
            ) && self.step(st, q, p, s, x) implies r == s by {
            assert(row_single(st, self.transitions@[q as int]@));
        }
    }
}

// ---- from other automata ---------------------------------------------------------------------

/// A table with the rows of a numbered automaton accepts its words.
proof fn lemma_memo_rows<T: DFA>(
    a: &ExplicitDFA,
    b: &Memo<T>,
    st: SPPstore,
    q: usize,
    w: Word,
)
    requires
        is_word(st.n(), w),
        a.transitions@ == b.graph.edges@,
        a.outputs@ == b.graph.outputs@,
    ensures
        nfa_word(a, st, q, w) == nfa_word(b, st, q, w),
    decreases w.len(),
{
    if w.len() >= 3 {
        lemma_tail(st.n(), w, 1);
        let v = w.skip(1);
        assert forall|r: usize| #[trigger] nfa_word(a, st, r, v) == nfa_word(b, st, r, v) by {
            lemma_memo_rows(a, b, st, r, v);
        }
        if nfa_word(a, st, q, w) {
            let r = choose|r: usize| #[trigger]
                a.step(st, q, w[0], r, w[1]) && nfa_word(a, st, r, v);
            assert(b.step(st, q, w[0], r, w[1]) && nfa_word(b, st, r, v));
        }
        if nfa_word(b, st, q, w) {
            let r = choose|r: usize| #[trigger]
                b.step(st, q, w[0], r, w[1]) && nfa_word(b, st, r, v);
            assert(nfa_word(a, st, r, v));
            assert(a.step(st, q, w[0], r, w[1]));
        }
    }
}

/// The states of the table are those of the list: all that can be reached, each once,
/// beginning with the start.  They have the same transitions and outputs.
pub open spec fn numbers<T: ENFA>(
    r: ExplicitDFA,
    st: SPPstore,
    a: &T,
    o: SPPstore,
    f: Seq<Place<T>>,
) -> bool {
    &&& f.len() == r.transitions@.len()
    &&& f.no_duplicates()
    &&& f.len() > 0
    &&& f[0] == a.init()
    &&& forall|q: Place<T>| #[trigger] f.contains(q) <==> can_reach(a, o, Seq::empty(), q)
    &&& forall|i: usize, p: Pkt, j: usize, x: Pkt|
        i < f.len() && j < f.len() && p.len() == o.n() && x.len() == o.n() ==> #[trigger] r.step(
            st,
            i,
            p,
            j,
            x,
        ) == a.step(o, f[i as int], p, f[j as int], x)
    &&& forall|i: usize, p: Pkt, x: Pkt|
        i < f.len() && p.len() == o.n() && x.len() == o.n() ==> #[trigger] r.out(st, i, p, x)
            == a.out(o, f[i as int], p, x)
}

/// The models of the states of a table number its rows.
proof fn lemma_numbers<T: DFA>(m: Memo<T>, st: SPPstore, o: SPPstore, r: ExplicitDFA)
    requires
        o.wf(),
        st.wf(),
        st.extends(&o),
        m.inner.valid(o),
        m.valid(st),
        r.transitions == m.graph.edges,
        r.outputs == m.graph.outputs,
        forall|i: int|
            0 <= i < m.graph.states@.len() ==> can_reach(
                &m.inner,
                o,
                Seq::empty(),
                (#[trigger] m.graph.states@[i]).model(),
            ),
    ensures
        numbers(r, st, &m.inner, o, models(m.graph.states@)),
{
    let a = &m.inner;
    let g = m.graph;
    let ss = g.states@;
    let f = models(ss);
    let none = Seq::<T::State>::empty();
    a.lemma_valid(st, o);
    lemma_graph_closed(a, st, o, g);
    lemma_states_exact(a, o, none, ss);
    assert forall|q: Place<T>| #[trigger] f.contains(q) <==> can_reach(
        a,
        o,
        Seq::empty(),
        q,
    ) by {
        if f.contains(q) {
            let i = choose|i: int| 0 <= i < f.len() && f[i] == q;
            assert(ss[i].model() == q);
        }
        if can_reach(a, o, none, q) {
            assert(among(ss, q));
            let i = choose|i: int| 0 <= i < ss.len() && (#[trigger] ss[i]).model() == q;
            assert(f[i] == q);
        }
    }
    assert(f.no_duplicates()) by {
        assert forall|i: int, j: int|
            0 <= i < f.len() && 0 <= j < f.len() && i != j implies f[i] != f[j] by {
            assert(ss[i].model() == f[i] && ss[j].model() == f[j]);
        }
    }
    assert forall|i: usize, p: Pkt, j: usize, x: Pkt|
        i < f.len() && j < f.len() && p.len() == o.n() && x.len() == o.n() implies
        #[trigger] r.step(st, i, p, j, x) == a.step(o, f[i as int], p, f[j as int], x) by {
        assert(row_of(a, st, ss, ss[i as int].model(), g.edges@[i as int]@));
        assert(a.is_state(ss[i as int].model()));
        assert(listed(st, g.edges@[i as int]@, p, j, x) == a.step(
            st,
            ss[i as int].model(),
            p,
            ss[j as int].model(),
            x,
        ));
    }
    assert forall|i: usize, p: Pkt, x: Pkt|
        i < f.len() && p.len() == o.n() && x.len() == o.n() implies #[trigger] r.out(st, i, p, x)
        == a.out(o, f[i as int], p, x) by {
        assert(output_of(a, st, ss[i as int].model(), g.outputs@[i as int]));
        assert(a.is_state(ss[i as int].model()));
    }
}

/// The automaton has one state, to which everything leads and in which every packet is
/// output for every packet.
spec fn is_everywhere(r: ExplicitDFA, st: SPPstore) -> bool {
    &&& r.start == 0
    &&& r.transitions@.len() == 1
    &&& r.transitions@[0]@ == seq![(st.top, 0usize)]
    &&& r.outputs@ == seq![st.top]
}

/// The automaton with all words.
fn everywhere(store: &SPPstore) -> (r: ExplicitDFA)
    ensures
        is_everywhere(r, *store),
{
    let mut row: Vec<(SPP, usize)> = Vec::new();
    row.push((store.top, 0));
    proof {
        assert(row@ =~= seq![(store.top, 0usize)]);
    }
    let mut transitions: Vec<Vec<(SPP, usize)>> = Vec::new();
    transitions.push(row);
    let mut outputs: Vec<SPP> = Vec::new();
    outputs.push(store.top);
    proof {
        assert(outputs@ =~= seq![store.top]);
    }
    ExplicitDFA { start: 0, transitions, outputs }
}

/// It is total, and has every word.
proof fn lemma_everywhere(r: ExplicitDFA, st: SPPstore)
    requires
        st.wf(),
        is_everywhere(r, st),
    ensures
        r.valid(st),
        total(&r, st),
        forall|w: Word| is_word(st.n(), w) ==> #[trigger] enfa_lang(&r, st)(w),
        forall|p: Pkt, x: Pkt|
            p.len() == st.n() && x.len() == st.n() ==> #[trigger] r.step(st, 0, p, 0, x),
        forall|p: Pkt, x: Pkt|
            p.len() == st.n() && x.len() == st.n() ==> #[trigger] r.out(st, 0, p, x),
{
    st.lemma_wf();
    let row = r.transitions@[0]@;
    assert forall|p: Pkt, a: usize, x: Pkt| #[trigger] listed(st, row, p, a, x) implies a == 0 by {
        let i = choose|i: int|
            0 <= i < row.len() && st.rel((#[trigger] row[i]).0, p, x) && row[i].1.model() == a;
        assert(row[i].1 == 0);
    }
    assert forall|p: Pkt, x: Pkt|
        p.len() == st.n() && x.len() == st.n() implies #[trigger] r.step(st, 0, p, 0, x) by {
        assert(st.rel(row[0].0, p, x));
    }
    assert(row_within(st, row, 1)) by {
        assert forall|k: int| 0 <= k < row.len() implies st.has((#[trigger] row[k]).0) && row[k].1
            < 1 by {}
    }
    assert forall|q: usize, p: Pkt, x: Pkt|
        r.is_state(q) && p.len() == st.n() && x.len() == st.n() implies #[trigger] moves_on(
        &r,
        st,
        q,
        p,
        x,
    ) by {
        assert(r.step(st, 0, p, 0, x));
    }
    assert forall|w: Word| is_word(st.n(), w) implies #[trigger] enfa_lang(&r, st)(w) by {
        lemma_every_word(r, st, w);
        lemma_nfa_word(&r, st, 0, w);
    }
}

proof fn lemma_every_word(r: ExplicitDFA, st: SPPstore, w: Word)
    requires
        is_word(st.n(), w),
        forall|p: Pkt, x: Pkt|
            p.len() == st.n() && x.len() == st.n() ==> #[trigger] r.step(st, 0, p, 0, x),
        forall|p: Pkt, x: Pkt|
            p.len() == st.n() && x.len() == st.n() ==> #[trigger] r.out(st, 0, p, x),
    ensures
        nfa_word(&r, st, 0, w),
    decreases w.len(),
{
    assert(w[0].len() == st.n() && w[1].len() == st.n());
    if w.len() >= 3 {
        lemma_tail(st.n(), w, 1);
        lemma_every_word(r, st, w.skip(1));
        assert(r.step(st, 0, w[0], 0, w[1]));
    }
}

/// The product of none has one state, to which everything leads.
proof fn lemma_product_none<'a, T: DFA>(all: &NAryProduct<'a, T>, r: ExplicitDFA, o: SPPstore)
    requires
        all.inner@.len() == 0,
        o.wf(),
        is_everywhere(r, o),
        forall|p: Pkt, x: Pkt|
            p.len() == o.n() && x.len() == o.n() ==> #[trigger] r.step(o, 0, p, 0, x),
        forall|p: Pkt, x: Pkt|
            p.len() == o.n() && x.len() == o.n() ==> #[trigger] r.out(o, 0, p, x),
    ensures
        exists|f: Seq<Seq<Place<T>>>| #[trigger] numbers(r, o, all, o, f),
{
    let f: Seq<Seq<Place<T>>> = seq![all.init()];
    let none = Seq::<Vec<T::State>>::empty();
    assert forall|q: Seq<Place<T>>| #[trigger] f.contains(q) <==> can_reach(all, o, none, q) by {
        if f.contains(q) {
            let path = seq![q];
            assert(hops(all, o, path));
            assert(path[0] == all.init() && path.last() == q);
        }
        if can_reach(all, o, none, q) {
            let path = choose|path: Seq<Seq<Place<T>>>| #[trigger]
                hops(all, o, path) && (path[0] == all.init() || among(none, path[0]))
                    && path.last() == q;
            if path.len() > 1 {
                let k = path.len() - 2;
                assert(hop_at(all, o, path, k));
                let (p, x) = choose|p: Pkt, x: Pkt|
                    p.len() == o.n() && x.len() == o.n() && #[trigger] all.step(
                        o,
                        path[k],
                        p,
                        path[k + 1],
                        x,
                    );
                assert(path.last().len() == 0);
            }
            assert(q =~= all.init());
            assert(f[0] == q);
        }
    }
    assert forall|i: usize, p: Pkt, j: usize, x: Pkt|
        i < f.len() && j < f.len() && p.len() == o.n() && x.len() == o.n() implies #[trigger] r.step(
        o,
        i,
        p,
        j,
        x,
    ) == all.step(o, f[i as int], p, f[j as int], x) by {
        assert(i == 0 && j == 0);
    }
    assert(numbers(r, o, all, o, f));
}

impl ExplicitDFA {
    /// The table of a deterministic automaton: the same words, with the start as
    /// state `0`.  Its states are those that can be reached.
    pub fn from_dfa<T: DFA>(store: &mut SPPstore, dfa: T) -> (r: ExplicitDFA)
        requires
            old(store).wf(),
            dfa.valid(*old(store)),
        ensures
            final(store).wf(),
            final(store).extends(old(store)),
            r.valid(*final(store)),
            r.start == 0,
            forall|w: Word|
                is_word(old(store).n(), w) ==> #[trigger] enfa_lang(&r, *final(store))(w)
                    == enfa_lang(&dfa, *old(store))(w),
            total(&dfa, *old(store)) ==> total(&r, *final(store)),
            exists|f: Seq<Place<T>>| #[trigger] numbers(r, *final(store), &dfa, *old(store), f),
    {
        let ghost o = *store;
        let memo = Memo::new(store, dfa);
        let ghost st = *store;
        let ghost m = memo;
        let ghost g = memo.graph;
        let r = ExplicitDFA {
            start: 0,
            transitions: memo.graph.edges,
            outputs: memo.graph.outputs,
        };
        proof {
            lemma_numbers(m, st, o, r);
            m.lemma_deterministic(st);
            assert forall|i: int| 0 <= i < r.transitions@.len() implies row_within(
                st,
                (#[trigger] r.transitions@[i])@,
                r.transitions@.len(),
            ) && row_single(st, r.transitions@[i]@) by {
                let row = g.edges@[i]@;
                assert(row_of(&dfa, st, g.states@, g.states@[i].model(), row));
                assert forall|k: int| 0 <= k < row.len() implies st.has((#[trigger] row[k]).0)
                    && row[k].1 < g.states@.len() by {}
                assert forall|p: Pkt, a: usize, b: usize, x: Pkt|
                    #![trigger listed(st, row, p, a, x), listed(st, row, p, b, x)]
                    p.len() == st.n() && x.len() == st.n() && listed(st, row, p, a, x) && listed(
                        st,
                        row,
                        p,
                        b,
                        x,
                    ) implies a == b by {
                    assert(i < m.graph.edges.len());
                    let q = i as usize;
                    assert(m.step(st, q, p, a, x) && m.step(st, q, p, b, x));
                    assert(m.is_state(q));
                }
            }
            assert forall|i: int| 0 <= i < r.outputs@.len() implies st.has(
                #[trigger] r.outputs@[i],
            ) by {
                assert(output_of(&dfa, st, g.states@[i].model(), g.outputs@[i]));
            }
            assert forall|w: Word| is_word(o.n(), w) implies #[trigger] enfa_lang(&r, st)(w)
                == enfa_lang(&dfa, o)(w) by {
                m.lemma_visible();
                lemma_nfa_word(&r, st, 0, w);
                lemma_nfa_word(&m, st, 0, w);
                lemma_memo_rows(&r, &m, st, 0, w);
                law_memo(&m, st, w);
                dfa.lemma_states(o);
                lemma_lang_valid(&dfa, st, o, dfa.init(), w);
            }
            if total(&dfa, o) {
                dfa.lemma_valid(st, o);
                assert forall|q: usize, p: Pkt, x: Pkt|
                    r.is_state(q) && p.len() == st.n() && x.len() == st.n()
                    implies #[trigger] moves_on(&r, st, q, p, x) by {
                    let s = g.states@[q as int].model();
                    let row = g.edges@[q as int]@;
                    assert(dfa.is_state(g.states@[q as int].model()));
                    assert(moves_on(&dfa, o, s, p, x));
                    let t = choose|t: Place<T>| #[trigger] dfa.step(o, s, p, t, x);
                    assert(dfa.step(st, s, p, t, x));
                    assert(row_of(&dfa, st, g.states@, s, row));
                    assert(among(g.states@, t));
                    let j = choose|j: int| 0 <= j < g.states@.len() && (
                    #[trigger] g.states@[j]).model() == t;
                    assert(j < g.edges.len());
                    let k = j as usize;
                    assert(listed(st, row, p, k, x) == dfa.step(
                        st,
                        s,
                        p,
                        g.states@[k as int].model(),
                        x,
                    ));
                    assert(r.step(st, q, p, k, x));
                }
            }
        }
        r
    }

    /// The table of the product of deterministic automata.  That of none has one state,
    /// to which everything leads and in which every packet is output for every packet.
    pub fn product<T: DFA>(store: &mut SPPstore, dfas: &[T]) -> (r: ExplicitDFA)
        requires
            old(store).wf(),
            forall|i: int| 0 <= i < dfas@.len() ==> (#[trigger] dfas@[i]).valid(*old(store)),
        ensures
            final(store).wf(),
            final(store).extends(old(store)),
            r.valid(*final(store)),
            forall|w: Word|
                is_word(old(store).n(), w) ==> (#[trigger] enfa_lang(&r, *final(store))(w)
                    <==> forall|i: int|
                    0 <= i < dfas@.len() ==> #[trigger] enfa_lang(&dfas@[i], *old(store))(w)),
            (forall|i: int| 0 <= i < dfas@.len() ==> #[trigger] total(&dfas@[i], *old(store)))
                ==> total(&r, *final(store)),
            r.start == 0,
            exists|f: Seq<Seq<Place<T>>>| #[trigger]
                numbers(r, *final(store), &(NAryProduct { inner: dfas }), *old(store), f),
            dfas@.len() == 0 ==> r.transitions@.len() == 1 && r.transitions@[0]@ == seq![
                (final(store).top, 0usize),
            ] && r.outputs@ == seq![final(store).top],
    {
        let ghost o = *store;
        let all = NAryProduct { inner: dfas };
        if dfas.len() == 0 {
            let r = everywhere(store);
            proof {
                lemma_everywhere(r, o);
                lemma_product_none(&all, r, o);
            }
            return r;
        }
        let r = ExplicitDFA::from_dfa(store, all);
        proof {
            assert forall|w: Word| is_word(o.n(), w) implies (#[trigger] enfa_lang(&r, *store)(w)
                <==> forall|i: int|
                0 <= i < dfas@.len() ==> #[trigger] enfa_lang(&dfas@[i], o)(w)) by {
                law_product(&all, o, w);
            }
            if forall|i: int| 0 <= i < dfas@.len() ==> #[trigger] total(&dfas@[i], o) {
                law_product_total(&all, o);
            }
        }
        r
    }
}

/// The rows of the table are the transitions of the states.
spec fn rows_match(
    a: &Aut,
    ss: Seq<State>,
    ts: Seq<ST>,
    rows: Seq<Vec<(SPP, usize)>>,
    k: int,
) -> bool {
    forall|i: int| 0 <= i < k ==> row_match(a, ss, ts[i]@, (#[trigger] rows[i])@)
}

/// The row has the transitions, by the positions of the states.
spec fn row_match(a: &Aut, ss: Seq<State>, m: Map<State, SPP>, row: Seq<(SPP, usize)>) -> bool {
    &&& row_within(a.store(), row, ss.len())
    &&& forall|p: Pkt, j: usize, x: Pkt|
        #![trigger listed(a.store(), row, p, j, x)]
        j < ss.len() ==> (listed(a.store(), row, p, j, x) <==> m.contains_key(ss[j as int])
            && a.store().rel(m[ss[j as int]], p, x))
}

/// The position of every state of the list.
fn positions(states: &Vec<State>) -> (r: HashMap<State, usize>)
    requires
        states@.no_duplicates(),
    ensures
        forall|i: int|
            0 <= i < states@.len() ==> r@.contains_key(#[trigger] states@[i]) && r@[states@[i]]
                == i,
{
    let mut r: HashMap<State, usize> = HashMap::new();
    let mut i: usize = 0;
    while i < states.len()
        invariant
            i <= states@.len(),
            states@.no_duplicates(),
            forall|j: int|
                0 <= j < i ==> r@.contains_key(#[trigger] states@[j]) && r@[states@[j]] == j,
        decreases states.len() - i,
    {
        r.insert(states[i], i);
        proof {
            assert forall|j: int| 0 <= j < i + 1 implies r@.contains_key(#[trigger] states@[j])
                && r@[states@[j]] == j by {
                if j < i {
                    assert(states@[j] != states@[i as int]);
                }
            }
        }
        i = i + 1;
    }
    r
}

/// The transitions by the positions of the states.
fn number_row(
    a: &Aut,
    states: &Vec<State>,
    index: &HashMap<State, usize>,
    st: &ST,
) -> (row: Vec<(SPP, usize)>)
    requires
        states@.no_duplicates(),
        forall|i: int|
            0 <= i < states@.len() ==> index@.contains_key(#[trigger] states@[i])
                && index@[states@[i]] == i,
        forall|k: State| #[trigger] st@.contains_key(k) ==> states@.contains(k),
        a.st_wf(st@),
    ensures
        row_match(a, states@, st@, row@),
        row_single(a.store(), row@),
{
    let ghost m = st@;
    let ghost ss = states@;
    let es = st.entries();
    let mut row: Vec<(SPP, usize)> = Vec::new();
    let mut i: usize = 0;
    while i < es.len()
        invariant
            ss == states@,
            m == st@,
            lists(es@, m),
            states@.no_duplicates(),
            forall|j: int|
                0 <= j < ss.len() ==> index@.contains_key(#[trigger] ss[j]) && index@[ss[j]] == j,
            forall|k: State| #[trigger] m.contains_key(k) ==> ss.contains(k),
            a.st_wf(m),
            i <= es@.len(),
            row@.len() == i,
            forall|j: int|
                0 <= j < i ==> (#[trigger] row@[j]).0 == es@[j].1 && row@[j].1 < ss.len()
                    && ss[row@[j].1 as int] == es@[j].0,
        decreases es.len() - i,
    {
        let (k, spp) = es[i];
        proof {
            assert(es@[i as int] == (k, spp));
            assert(m.contains_key(es@[i as int].0));
            let h = choose|h: int| 0 <= h < ss.len() && ss[h] == k;
            assert(index@.contains_key(ss[h]));
        }
        let at: usize = *index.get(&k).unwrap();
        row.push((spp, at));
        i = i + 1;
    }
    proof {
        let st0 = a.store();
        assert forall|j: int| 0 <= j < row@.len() implies st0.has((#[trigger] row@[j]).0)
            && row@[j].1 < ss.len() by {
            assert(m.contains_key(es@[j].0));
            assert(st0.has(m[es@[j].0]));
        }
        assert forall|p: Pkt, j: usize, x: Pkt|
            #![trigger listed(st0, row@, p, j, x)]
            j < ss.len() implies (listed(st0, row@, p, j, x) <==> m.contains_key(ss[j as int])
            && st0.rel(m[ss[j as int]], p, x)) by {
            if listed(st0, row@, p, j, x) {
                let k = choose|k: int|
                    0 <= k < row@.len() && st0.rel((#[trigger] row@[k]).0, p, x)
                        && row@[k].1.model() == j;
                assert(es@[k].0 == ss[j as int]);
                assert(m.contains_key(es@[k].0) && m[es@[k].0] == es@[k].1);
            }
            if m.contains_key(ss[j as int]) && st0.rel(m[ss[j as int]], p, x) {
                let k = choose|k: int| 0 <= k < es@.len() && (#[trigger] es@[k]).0 == ss[j as int];
                assert(m[es@[k].0] == es@[k].1);
                assert(row@[k].0 == es@[k].1);
                assert(ss[row@[k].1 as int] == ss[j as int]);
                assert(row@[k].1 == j);
                assert(row@[k].1.model() == j);
            }
        }
        assert forall|p: Pkt, r: usize, s: usize, x: Pkt|
            #![trigger listed(st0, row@, p, r, x), listed(st0, row@, p, s, x)]
            p.len() == st0.n() && x.len() == st0.n() && listed(st0, row@, p, r, x) && listed(
                st0,
                row@,
                p,
                s,
                x,
            ) implies r == s by {
            let k = choose|k: int|
                0 <= k < row@.len() && st0.rel((#[trigger] row@[k]).0, p, x) && row@[k].1.model()
                    == r;
            let l = choose|l: int|
                0 <= l < row@.len() && st0.rel((#[trigger] row@[l]).0, p, x) && row@[l].1.model()
                    == s;
            assert(m.contains_key(es@[k].0) && m[es@[k].0] == es@[k].1);
            assert(m.contains_key(es@[l].0) && m[es@[l].0] == es@[l].1);
            assert(st0.rel(m[es@[k].0], p, x) && st0.rel(m[es@[l].0], p, x));
            assert(es@[k].0 == es@[l].0);
            assert(ss[r as int] == ss[s as int]);
        }
    }
    row
}

/// A table of the transitions and single steps accepts the words of the states.
proof fn lemma_aut_rows(
    d: &ExplicitDFA,
    a: &Aut,
    ss: Seq<State>,
    ts: Seq<ST>,
    q: usize,
    w: Word,
)
    requires
        a.spans(ss, ts),
        ts.len() == ss.len(),
        d.transitions@.len() == ss.len(),
        d.outputs@.len() == ss.len(),
        rows_match(a, ss, ts, d.transitions@, ss.len() as int),
        forall|i: int| 0 <= i < ss.len() ==> a.single(#[trigger] d.outputs@[i], ss[i]),
        q < ss.len(),
        is_word(a.n(), w),
    ensures
        nfa_word(d, a.store(), q, w) == a.accepts(ss[q as int], w),
    decreases w.len(),
{
    let st = a.store();
    let m = ts[q as int]@;
    if w.len() == 2 {
        assert(a.single(d.outputs@[q as int], ss[q as int]));
        assert(w =~= pair(w[0], w[1]));
        assert(w[0].len() == a.n() && w[1].len() == a.n());
        assert(st.rel(d.outputs@[q as int], w[0], w[1]) == a.lang(ss[q as int])(pair(w[0], w[1])));
    } else {
        lemma_uncons(a.n(), w);
        let v = w.skip(1);
        assert(w[0].len() == a.n());
        assert(a.derives(m, ss[q as int]));
        assert(a.leads(m, w[0], v) <==> a.lang(ss[q as int])(cons(w[0], v)));
        assert(row_match(a, ss, m, d.transitions@[q as int]@));
        if nfa_word(d, st, q, w) {
            let r = choose|r: usize| #[trigger]
                d.step(st, q, w[0], r, w[1]) && nfa_word(d, st, r, v);
            let row = d.transitions@[q as int]@;
            let i = choose|i: int|
                0 <= i < row.len() && st.rel((#[trigger] row[i]).0, w[0], w[1])
                    && row[i].1.model() == r;
            assert(row[i].1 < ss.len());
            lemma_aut_rows(d, a, ss, ts, r, v);
            assert(listed(st, row, w[0], r, w[1]));
            assert(m.contains_key(ss[r as int]) && st.rel(m[ss[r as int]], w[0], v[0]));
            assert(a.accepts(ss[r as int], v));
            assert(a.leads(m, w[0], v));
        }
        if a.accepts(ss[q as int], w) {
            assert(a.leads(m, w[0], v));
            let k = choose|k: State| #[trigger]
                m.contains_key(k) && st.rel(m[k], w[0], v[0]) && state_lang(
                    a.tbl(),
                    st,
                    k,
                )(v);
            assert(ss.contains(k));
            let h = choose|h: int| 0 <= h < ss.len() && ss[h] == k;
            assert(h < d.transitions.len());
            let r = h as usize;
            lemma_aut_rows(d, a, ss, ts, r, v);
            assert(listed(st, d.transitions@[q as int]@, w[0], r, w[1]));
            assert(d.step(st, q, w[0], r, w[1]));
        }
    }
}

/// The table of the states that are reachable from `start`: the words of that
/// state.  It is state `0`, with its single steps as output.
pub fn aut_to_dfa(aut: &mut Aut, start: usize) -> (r: ExplicitDFA)
    requires
        old(aut).wf(),
        old(aut).has(start),
    ensures
        final(aut).wf(),
        final(aut).extends(old(aut)),
        r.valid(final(aut).store()),
        forall|w: Word|
            is_word(old(aut).n(), w) ==> #[trigger] enfa_lang(&r, final(aut).store())(w) == old(aut).accepts(start, w),
        r.start == 0,
        r.outputs@.len() > 0,
        final(aut).single(r.outputs@[0], start),
{
    let ghost o = *aut;
    let (states, steps) = aut.explore(start);
    let ghost a0 = *aut;
    let mut outputs: Vec<SPP> = Vec::new();
    let mut i: usize = 0;
    while i < states.len()
        invariant
            aut.wf(),
            aut.extends(&a0),
            a0.wf(),
            a0.have(states@),
            i <= states@.len(),
            outputs@.len() == i,
            forall|j: int| 0 <= j < i ==> aut.single(#[trigger] outputs@[j], states@[j]),
        decreases states.len() - i,
    {
        let ghost a1 = *aut;
        let ghost o1 = outputs@;
        proof {
            assert(a0.has(states@[i as int]));
        }
        let eps = aut.epsilon(states[i]);
        outputs.push(eps);
        proof {
            assert forall|j: int| 0 <= j < i + 1 implies aut.single(
                #[trigger] outputs@[j],
                states@[j],
            ) by {
                if j < i {
                    assert(outputs@[j] == o1[j]);
                    assert(a0.has(states@[j]));
                    aut.lemma_keep(&a1, states@[j]);
                    assert(a1.single(o1[j], states@[j]));
                }
            }
        }
        i = i + 1;
    }
    proof {
        aut.lemma_spans_ext(&a0, states@, steps@);
    }
    let ghost a = *aut;
    let ghost ss = states@;
    let ghost ts = steps@;
    let index = positions(&states);
    let mut transitions: Vec<Vec<(SPP, usize)>> = Vec::new();
    let mut k: usize = 0;
    while k < states.len()
        invariant
            *aut == a,
            a.spans(ss, ts),
            ss == states@,
            ts == steps@,
            ss.len() == ts.len(),
            ss.no_duplicates(),
            forall|j: int|
                0 <= j < ss.len() ==> index@.contains_key(#[trigger] ss[j]) && index@[ss[j]] == j,
            k <= ss.len(),
            transitions@.len() == k,
            rows_match(&a, ss, ts, transitions@, k as int),
            forall|j: int| 0 <= j < k ==> row_single(a.store(), (#[trigger] transitions@[j])@),
        decreases states.len() - k,
    {
        let ghost t0 = transitions@;
        proof {
            assert(a.derives(ts[k as int]@, ss[k as int]));
        }
        let row = number_row(aut, &states, &index, &steps[k]);
        transitions.push(row);
        proof {
            assert forall|j: int| 0 <= j < k + 1 implies row_match(
                &a,
                ss,
                ts[j]@,
                (#[trigger] transitions@[j])@,
            ) && row_single(a.store(), transitions@[j]@) by {
                if j < k {
                    assert(transitions@[j] == t0[j]);
                }
            }
        }
        k = k + 1;
    }
    let r = ExplicitDFA { start: 0, transitions, outputs };
    proof {
        let st = a.store();
        assert forall|j: int| 0 <= j < r.transitions@.len() implies row_within(
            st,
            (#[trigger] r.transitions@[j])@,
            r.transitions@.len(),
        ) && row_single(st, r.transitions@[j]@) by {
            assert(row_match(&a, ss, ts[j]@, r.transitions@[j]@));
        }
        assert forall|j: int| 0 <= j < r.outputs@.len() implies st.has(
            #[trigger] r.outputs@[j],
        ) by {
            assert(a.single(r.outputs@[j], ss[j]));
        }
        assert forall|w: Word| is_word(o.n(), w) implies #[trigger] enfa_lang(&r, st)(w)
            == o.accepts(start, w) by {
            lemma_nfa_word(&r, st, 0, w);
            lemma_aut_rows(&r, &a, ss, ts, 0, w);
            assert(a.accepts(start, w) == o.accepts(start, w));
        }
    }
    r
}

/// The deterministic automaton of an expression: it accepts the words of the
/// expression.
pub fn expr_to_dfa(expr: &Expr, store: &mut SPPstore) -> (r: ExplicitDFA)
    requires
        old(store).wf(),
        closed_over(expr@, old(store).n()),
    ensures
        final(store).wf(),
        final(store).extends(old(store)),
        r.valid(*final(store)),
        forall|w: Word|
            is_word(old(store).n(), w) ==> #[trigger] enfa_lang(&r, *final(store))(w) == lang(
                expr@,
                old(store).n(),
            )(w),
{
    let ghost o = *store;
    let mut taken = SPPstore::new(0);
    std::mem::swap(store, &mut taken);
    let mut aut = Aut::from_spp_store(taken);
    let start = aut.expr_to_state(expr);
    let ghost a = aut;
    let r = aut_to_dfa(&mut aut, start);
    proof {
        assert forall|w: Word| is_word(o.n(), w) implies #[trigger] enfa_lang(&r, aut.store())(w)
            == lang(expr@, o.n())(w) by {
            assert(a.accepts(start, w) == lang(expr@, o.n())(w));
        }
    }
    let mut back = aut.into_spp_store();
    std::mem::swap(store, &mut back);
    r
}


/// An automaton some of whose states do not record packets.
#[derive(Debug)]
pub struct WithVisibility {
    pub inner: ExplicitDFA,
    pub visible: Vec<bool>,
}

impl ENFA for WithVisibility {
    type State = usize;

    open spec fn valid(&self, st: SPPstore) -> bool {
        self.inner.valid(st) && self.visible@.len() == self.inner.transitions@.len()
    }

    open spec fn is_state(&self, q: usize) -> bool {
        self.inner.is_state(q)
    }

    open spec fn init(&self) -> usize {
        self.inner.init()
    }

    open spec fn vis(&self, q: usize) -> bool {
        self.visible@[q as int]
    }

    open spec fn step(&self, st: SPPstore, q: usize, p: Pkt, r: usize, x: Pkt) -> bool {
        self.inner.step(st, q, p, r, x)
    }

    open spec fn out(&self, st: SPPstore, q: usize, p: Pkt, x: Pkt) -> bool {
        self.inner.out(st, q, p, x)
    }

    proof fn lemma_valid(&self, st: SPPstore, o: SPPstore) {
        self.inner.lemma_valid(st, o);
    }

    proof fn lemma_states(&self, st: SPPstore) {
        self.inner.lemma_states(st);
    }

    fn start(&self, store: &mut SPPstore) -> (q: usize) {
        self.inner.start(store)
    }

    fn is_visible(&self, store: &mut SPPstore, q: &usize) -> (b: bool) {
        self.visible[*q]
    }

    fn transitions(&self, store: &mut SPPstore, q: &usize) -> (ts: Vec<(SPP, usize)>) {
        self.inner.transitions(store, q)
    }

    fn output(&self, store: &mut SPPstore, q: &usize) -> (y: SPP) {
        self.inner.output(store, q)
    }
}

} // verus!
