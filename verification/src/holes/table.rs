//! Automata as tables.
use vstd::prelude::*;
use std::collections::HashMap;
use crate::holes::aut::{
    accepts_from, among, distinct, enfa_lang, is_path, lemma_among_push, lemma_listed_push,
    lemma_path_states, listed, moves, position, run_on, seen, Place, StateKey, DFA, ENFA, NFA,
};
use crate::holes::ops::lemma_listed_ext;
use crate::lang::{is_word, Word};
use crate::sp::Pkt;
use crate::spp::{SPPstore, SPP};

verus! {

// ---- tables ----------------------------------------------------------------------------

/// The states of an automaton that can be reached, with what is known of each.
/// A transition leads to the state with the given index.
pub struct StateGraph<S> {
    pub states: Vec<S>,
    pub edges: Vec<Vec<(SPP, usize)>>,
    pub outputs: Vec<SPP>,
    pub visible: Vec<bool>,
}

/// The row holds the transitions of the state `q` to the states of the list.
pub open spec fn row_of<A: ENFA>(
    a: &A,
    st: SPPstore,
    states: Seq<A::State>,
    q: Place<A>,
    row: Seq<(SPP, usize)>,
) -> bool {
    &&& forall|i: int|
        0 <= i < row.len() ==> st.has((#[trigger] row[i]).0) && row[i].1 < states.len()
    &&& forall|p: Pkt, j: usize, x: Pkt|
        #![trigger listed(st, row, p, j, x)]
        #![trigger a.step(st, q, p, states[j as int].model(), x)]
        j < states.len() && p.len() == st.n() && x.len() == st.n() ==> listed(st, row, p, j, x)
            == a.step(st, q, p, states[j as int].model(), x)
    &&& forall|p: Pkt, r: Place<A>, x: Pkt| #[trigger]
        a.step(st, q, p, r, x) && p.len() == st.n() && x.len() == st.n() ==> among(states, r)
}

/// The relation is the output of state `q`.
pub open spec fn output_of<A: ENFA>(a: &A, st: SPPstore, q: Place<A>, y: SPP) -> bool {
    st.has(y) && forall|p: Pkt, x: Pkt|
        #![trigger st.rel(y, p, x)]
        #![trigger a.out(st, q, p, x)]
        p.len() == st.n() && x.len() == st.n() ==> st.rel(y, p, x) == a.out(st, q, p, x)
}

/// The first `k` rows of the table are those of the automaton.
pub open spec fn rows_of<A: ENFA>(a: &A, st: SPPstore, g: StateGraph<A::State>, k: nat) -> bool {
    &&& k <= g.states@.len()
    &&& g.edges@.len() == k
    &&& g.outputs@.len() == k
    &&& g.visible@.len() == k
    &&& distinct(g.states@)
    &&& forall|i: int| 0 <= i < g.states@.len() ==> a.is_state((#[trigger] g.states@[i]).model())
    &&& forall|i: int|
        0 <= i < k ==> row_of(
            a,
            st,
            g.states@,
            g.states@[i].model(),
            (#[trigger] g.edges@[i])@,
        )
    &&& forall|i: int|
        0 <= i < k ==> output_of(a, st, g.states@[i].model(), #[trigger] g.outputs@[i])
    &&& forall|i: int| 0 <= i < k ==> #[trigger] g.visible@[i] == a.vis(g.states@[i].model())
}

/// The table is that of the automaton, with the start state first.
pub open spec fn tabulates<A: ENFA>(a: &A, st: SPPstore, g: StateGraph<A::State>) -> bool {
    &&& rows_of(a, st, g, g.states@.len())
    &&& g.states@.len() >= 1
    &&& g.states@[0].model() == a.init()
}

proof fn lemma_row_ext<A: ENFA>(
    a: &A,
    st: SPPstore,
    o: SPPstore,
    states: Seq<A::State>,
    more: Seq<A::State>,
    q: Place<A>,
    row: Seq<(SPP, usize)>,
)
    requires
        o.wf(),
        st.extends(&o),
        a.valid(o),
        a.is_state(q),
        row_of(a, o, states, q, row),
        states.len() <= more.len(),
        distinct(more),
        forall|i: int| 0 <= i < states.len() ==> (#[trigger] more[i]).model() == states[i].model(),
    ensures
        row_of(a, st, more, q, row),
{
    a.lemma_valid(st, o);
    assert forall|i: int| 0 <= i < row.len() implies o.has((#[trigger] row[i]).0) by {}
    lemma_listed_ext(st, o, row);
    assert forall|p: Pkt, r: Place<A>, x: Pkt| #[trigger]
        a.step(st, q, p, r, x) && p.len() == st.n() && x.len() == st.n() implies among(more, r) by {
        assert(a.step(o, q, p, r, x));
        let i = choose|i: int| 0 <= i < states.len() && (#[trigger] states[i]).model() == r;
        assert(more[i].model() == r);
    }
    assert forall|p: Pkt, j: usize, x: Pkt|
        #![trigger listed(st, row, p, j, x)]
        #![trigger a.step(st, q, p, more[j as int].model(), x)]
        j < more.len() && p.len() == st.n() && x.len() == st.n() implies listed(st, row, p, j, x)
        == a.step(st, q, p, more[j as int].model(), x) by {
        let r = more[j as int].model();
        assert(a.step(st, q, p, r, x) == a.step(o, q, p, r, x));
        assert(listed(st, row, p, j, x) == listed(o, row, p, j, x));
        if j < states.len() {
            assert(listed(o, row, p, j, x) == a.step(o, q, p, states[j as int].model(), x));
        } else {
            if a.step(o, q, p, r, x) {
                let i = choose|i: int| 0 <= i < states.len() && (#[trigger] states[i]).model()
                    == r;
                assert(more[i].model() == r);
                assert(more[j as int].model() == r);
            }
            if listed(o, row, p, j, x) {
                let i = choose|i: int|
                    0 <= i < row.len() && o.rel((#[trigger] row[i]).0, p, x) && row[i].1.model()
                        == j;
                assert(row[i].1 < states.len());
            }
        }
    }
}

proof fn lemma_output_ext<A: ENFA>(a: &A, st: SPPstore, o: SPPstore, q: Place<A>, y: SPP)
    requires
        o.wf(),
        st.extends(&o),
        a.valid(o),
        a.is_state(q),
        output_of(a, o, q, y),
    ensures
        output_of(a, st, q, y),
{
    a.lemma_valid(st, o);
    assert forall|p: Pkt, x: Pkt|
        #![trigger st.rel(y, p, x)]
        #![trigger a.out(st, q, p, x)]
        p.len() == st.n() && x.len() == st.n() implies st.rel(y, p, x) == a.out(st, q, p, x) by {
        assert(o.rel(y, p, x) == a.out(o, q, p, x));
    }
}

/// A table is kept when the store grows.
pub proof fn lemma_rows_ext<A: ENFA>(a: &A, st: SPPstore, o: SPPstore, g: StateGraph<A::State>, k: nat)
    requires
        o.wf(),
        st.extends(&o),
        a.valid(o),
        rows_of(a, o, g, k),
    ensures
        rows_of(a, st, g, k),
{
    assert forall|i: int| 0 <= i < k implies row_of(
        a,
        st,
        g.states@,
        g.states@[i].model(),
        (#[trigger] g.edges@[i])@,
    ) by {
        assert(a.is_state(g.states@[i].model()));
        lemma_row_ext(a, st, o, g.states@, g.states@, g.states@[i].model(), g.edges@[i]@);
    }
    assert forall|i: int| 0 <= i < k implies output_of(
        a,
        st,
        g.states@[i].model(),
        #[trigger] g.outputs@[i],
    ) by {
        assert(a.is_state(g.states@[i].model()));
        lemma_output_ext(a, st, o, g.states@[i].model(), g.outputs@[i]);
    }
}

/// Some packets lead from state `q` to state `r`.
pub open spec fn hop<A: ENFA>(a: &A, st: SPPstore, q: Place<A>, r: Place<A>) -> bool {
    exists|p: Pkt, x: Pkt|
        p.len() == st.n() && x.len() == st.n() && #[trigger] a.step(st, q, p, r, x)
}

/// Each state of the list leads to the next.
pub open spec fn hops<A: ENFA>(a: &A, st: SPPstore, path: Seq<Place<A>>) -> bool {
    path.len() >= 1 && forall|i: int|
        0 <= i < path.len() - 1 ==> #[trigger] hop_at(a, st, path, i)
}

pub open spec fn hop_at<A: ENFA>(a: &A, st: SPPstore, path: Seq<Place<A>>, i: int) -> bool {
    hop(a, st, path[i], path[i + 1])
}

/// The state can be reached from the start or from one of the further states.
pub open spec fn can_reach<A: ENFA>(
    a: &A,
    st: SPPstore,
    roots: Seq<A::State>,
    q: Place<A>,
) -> bool {
    exists|path: Seq<Place<A>>| #[trigger]
        hops(a, st, path) && (path[0] == a.init() || among(roots, path[0])) && path.last() == q
}

/// The start and the further states can be reached.
proof fn lemma_can_reach_root<A: ENFA>(
    a: &A,
    st: SPPstore,
    roots: Seq<A::State>,
    q: Place<A>,
)
    requires
        q == a.init() || among(roots, q),
    ensures
        can_reach(a, st, roots, q),
{
    assert(hops(a, st, seq![q]));
}

/// What a state that can be reached leads to can be reached.
pub proof fn lemma_can_reach_next<A: ENFA>(
    a: &A,
    st: SPPstore,
    roots: Seq<A::State>,
    q: Place<A>,
    r: Place<A>,
)
    requires
        can_reach(a, st, roots, q),
        hop(a, st, q, r),
    ensures
        can_reach(a, st, roots, r),
{
    let path = choose|path: Seq<Place<A>>| #[trigger]
        hops(a, st, path) && (path[0] == a.init() || among(roots, path[0])) && path.last() == q;
    let more = path.push(r);
    assert forall|i: int| 0 <= i < more.len() - 1 implies #[trigger] hop_at(a, st, more, i) by {
        if i < path.len() - 1 {
            assert(hop_at(a, st, path, i));
        }
    }
    assert(hops(a, st, more));
}

/// The states of a list that has the start and the further states, and what its states
/// lead to, are all that can be reached.
pub proof fn lemma_reach_among<A: ENFA>(
    a: &A,
    st: SPPstore,
    roots: Seq<A::State>,
    states: Seq<A::State>,
    path: Seq<Place<A>>,
    i: int,
)
    requires
        hops(a, st, path),
        path[0] == a.init() || among(roots, path[0]),
        0 <= i < path.len(),
        among(states, a.init()),
        subsumes(states, roots),
        forall|q: Place<A>, r: Place<A>|
            among(states, q) && #[trigger] hop(a, st, q, r) ==> among(states, r),
    ensures
        among(states, path[i]),
    decreases i,
{
    if i == 0 {
        if path[0] != a.init() {
            let j = choose|j: int| 0 <= j < roots.len() && (#[trigger] roots[j]).model() == path[0];
            assert(among(states, roots[j].model()));
        }
    } else {
        lemma_reach_among(a, st, roots, states, path, i - 1);
        assert(hop_at(a, st, path, i - 1));
    }
}

/// The transitions without those by the empty relation.
fn filled_only<S: StateKey>(ts: Vec<(SPP, S)>, store: &SPPstore) -> (r: Vec<(SPP, S)>)
    requires
        store.wf(),
        forall|i: int| 0 <= i < ts@.len() ==> store.has((#[trigger] ts@[i]).0),
    ensures
        forall|i: int|
            0 <= i < r@.len() ==> (#[trigger] r@[i]).0 != store.zero && exists|j: int|
                0 <= j < ts@.len() && (#[trigger] ts@[j]).0 == r@[i].0 && ts@[j].1.model()
                    == r@[i].1.model(),
        forall|p: Pkt, m: S::M, x: Pkt|
            #![trigger listed(*store, r@, p, m, x)]
            #![trigger listed(*store, ts@, p, m, x)]
            p.len() == store.n() && x.len() == store.n() ==> listed(*store, r@, p, m, x) == listed(
                *store,
                ts@,
                p,
                m,
                x,
            ),
{
    let ghost st = *store;
    let mut r: Vec<(SPP, S)> = Vec::new();
    let mut i: usize = 0;
    proof {
        assert forall|p: Pkt, m: S::M, x: Pkt| #[trigger] listed(st, r@, p, m, x) == listed(
            st,
            ts@.take(0),
            p,
            m,
            x,
        ) by {}
    }
    while i < ts.len()
        invariant
            st == *store,
            st.wf(),
            forall|j: int| 0 <= j < ts@.len() ==> st.has((#[trigger] ts@[j]).0),
            i <= ts@.len(),
            forall|k: int|
                0 <= k < r@.len() ==> (#[trigger] r@[k]).0 != st.zero && exists|j: int|
                    0 <= j < ts@.len() && (#[trigger] ts@[j]).0 == r@[k].0 && ts@[j].1.model()
                        == r@[k].1.model(),
            forall|p: Pkt, m: S::M, x: Pkt|
                #![trigger listed(st, r@, p, m, x)]
                p.len() == st.n() && x.len() == st.n() ==> listed(st, r@, p, m, x) == listed(
                    st,
                    ts@.take(i as int),
                    p,
                    m,
                    x,
                ),
        decreases ts.len() - i,
    {
        let ghost r0 = r@;
        let ghost t = ts@[i as int];
        proof {
            assert(ts@.take(i + 1) =~= ts@.take(i as int).push(t));
            assert(st.has(t.0));
            st.lemma_nonzero(t.0);
        }
        if ts[i].0 != store.zero {
            r.push((ts[i].0, ts[i].1.dup()));
            proof {
                assert(r@ =~= r0.push(r@[r0.len() as int]));
                assert forall|k: int| 0 <= k < r@.len() implies (#[trigger] r@[k]).0 != st.zero
                    && exists|j: int|
                    0 <= j < ts@.len() && (#[trigger] ts@[j]).0 == r@[k].0 && ts@[j].1.model()
                        == r@[k].1.model() by {
                    if k < r0.len() {
                        assert(r@[k] == r0[k]);
                    } else {
                        assert(ts@[i as int].0 == r@[k].0);
                    }
                }
            }
        }
        proof {
            assert forall|p: Pkt, m: S::M, x: Pkt|
                #![trigger listed(st, r@, p, m, x)]
                p.len() == st.n() && x.len() == st.n() implies listed(st, r@, p, m, x) == listed(
                st,
                ts@.take(i + 1),
                p,
                m,
                x,
            ) by {
                lemma_listed_push(st, ts@.take(i as int), t, p, m, x);
                assert(listed(st, r0, p, m, x) == listed(st, ts@.take(i as int), p, m, x));
                if t.0 != st.zero {
                    lemma_listed_push(st, r0, r@[r0.len() as int], p, m, x);
                }
            }
        }
        i = i + 1;
    }
    proof {
        assert(ts@.take(i as int) =~= ts@);
    }
    r
}


/// The transitions with the indices of the states they lead to; new states are
/// added to the list.
fn number_targets<A: ENFA>(
    a: &A,
    states: &mut Vec<A::State>,
    ts: &Vec<(SPP, A::State)>,
    Ghost(st): Ghost<SPPstore>,
    Ghost(q): Ghost<Place<A>>,
) -> (row: Vec<(SPP, usize)>)
    requires
        st.wf(),
        distinct(old(states)@),
        forall|i: int|
            0 <= i < old(states)@.len() ==> a.is_state((#[trigger] old(states)@[i]).model()),
        forall|i: int|
            0 <= i < ts@.len() ==> st.has((#[trigger] ts@[i]).0) && a.is_state(ts@[i].1.model()),
        forall|i: int| 0 <= i < ts@.len() ==> (#[trigger] ts@[i]).0 != st.zero,
        forall|p: Pkt, r: Place<A>, x: Pkt|
            #![trigger a.step(st, q, p, r, x)]
            #![trigger listed(st, ts@, p, r, x)]
            p.len() == st.n() && x.len() == st.n() ==> a.step(st, q, p, r, x) == listed(
                st,
                ts@,
                p,
                r,
                x,
            ),
    ensures
        distinct(final(states)@),
        old(states)@.len() <= final(states)@.len(),
        forall|i: int|
            0 <= i < old(states)@.len() ==> (#[trigger] final(states)@[i]).model() == old(states)@[i].model(),
        forall|i: int|
            0 <= i < final(states)@.len() ==> a.is_state((#[trigger] final(states)@[i]).model()),
        row_of(a, st, final(states)@, q, row@),
        forall|i: int|
            old(states)@.len() <= i < final(states)@.len() ==> hop(
                a,
                st,
                q,
                (#[trigger] final(states)@[i]).model(),
            ),
        forall|i: int| 0 <= i < row@.len() ==> (#[trigger] row@[i]).0 != st.zero,
{
    let ghost s0 = states@;
    let mut row: Vec<(SPP, usize)> = Vec::new();
    let mut i: usize = 0;
    while i < ts.len()
        invariant
            st.wf(),
            distinct(states@),
            s0.len() <= states@.len(),
            forall|j: int| 0 <= j < ts@.len() ==> (#[trigger] ts@[j]).0 != st.zero,
            forall|p: Pkt, r: Place<A>, x: Pkt|
                #![trigger a.step(st, q, p, r, x)]
                #![trigger listed(st, ts@, p, r, x)]
                p.len() == st.n() && x.len() == st.n() ==> a.step(st, q, p, r, x) == listed(
                    st,
                    ts@,
                    p,
                    r,
                    x,
                ),
            forall|j: int|
                s0.len() <= j < states@.len() ==> hop(a, st, q, (#[trigger] states@[j]).model()),
            forall|j: int| 0 <= j < s0.len() ==> (#[trigger] states@[j]).model() == s0[j].model(),
            forall|j: int| 0 <= j < states@.len() ==> a.is_state((#[trigger] states@[j]).model()),
            forall|j: int|
                0 <= j < ts@.len() ==> st.has((#[trigger] ts@[j]).0) && a.is_state(
                    ts@[j].1.model(),
                ),
            i <= ts@.len(),
            row@.len() == i,
            forall|j: int|
                0 <= j < i ==> (#[trigger] row@[j]).0 == ts@[j].0 && row@[j].1 < states@.len()
                    && states@[row@[j].1 as int].model() == ts@[j].1.model(),
        decreases ts.len() - i,
    {
        let ghost s1 = states@;
        let ghost r1 = row@;
        proof {
            assert(a.is_state(ts@[i as int].1.model()));
        }
        let at: usize = match position(states, &ts[i].1) {
            Some(j) => j,
            None => {
                let j: usize = states.len();
                states.push(ts[i].1.dup());
                j
            },
        };
        row.push((ts[i].0, at));
        proof {
            let m = ts@[i as int].1.model();
            st.lemma_nonzero(ts@[i as int].0);
            let (p, x) = choose|p: Pkt, x: Pkt|
                p.len() == st.n() && x.len() == st.n() && st.rel(ts@[i as int].0, p, x);
            assert(listed(st, ts@, p, m, x));
            assert(a.step(st, q, p, m, x));
            assert(hop(a, st, q, m));
            assert forall|j: int| s0.len() <= j < states@.len() implies hop(
                a,
                st,
                q,
                (#[trigger] states@[j]).model(),
            ) by {
                if j < s1.len() {
                    assert(states@[j] == s1[j]);
                } else {
                    assert(states@[j].model() == m);
                }
            }
            assert forall|j: int| 0 <= j < states@.len() implies a.is_state(
                (#[trigger] states@[j]).model(),
            ) by {
                if j < s1.len() {
                    assert(states@[j] == s1[j]);
                }
            }
            assert forall|j: int, k: int|
                #![trigger states@[j], states@[k]]
                0 <= j < k < states@.len() implies states@[j].model() != states@[k].model() by {
                assert(states@[j] == s1[j]);
                if k < s1.len() {
                    assert(states@[k] == s1[k]);
                }
            }
            assert forall|j: int|
                0 <= j < i + 1 implies (#[trigger] row@[j]).0 == ts@[j].0 && row@[j].1
                < states@.len() && states@[row@[j].1 as int].model() == ts@[j].1.model() by {
                if j < i {
                    assert(row@[j] == r1[j]);
                    assert(states@[r1[j].1 as int] == s1[r1[j].1 as int]);
                }
            }
            assert forall|j: int| 0 <= j < s0.len() implies (#[trigger] states@[j]).model()
                == s0[j].model() by {
                assert(states@[j] == s1[j]);
            }
        }
        i = i + 1;
    }
    proof {
        let ss = states@;
        assert forall|j: int| 0 <= j < row@.len() implies st.has((#[trigger] row@[j]).0)
            && row@[j].1 < ss.len() by {
            assert(st.has(ts@[j].0));
        }
        assert forall|p: Pkt, j: usize, x: Pkt|
            #![trigger listed(st, row@, p, j, x)]
            #![trigger a.step(st, q, p, ss[j as int].model(), x)]
            j < ss.len() && p.len() == st.n() && x.len() == st.n() implies listed(
            st,
            row@,
            p,
            j,
            x,
        ) == a.step(st, q, p, ss[j as int].model(), x) by {
            let r = ss[j as int].model();
            if listed(st, row@, p, j, x) {
                let k = choose|k: int|
                    0 <= k < row@.len() && st.rel((#[trigger] row@[k]).0, p, x)
                        && row@[k].1.model() == j;
                assert(row@[k].1 == j);
                assert(st.rel(ts@[k].0, p, x) && ts@[k].1.model() == r);
                assert(listed(st, ts@, p, r, x));
            }
            if a.step(st, q, p, r, x) {
                assert(listed(st, ts@, p, r, x));
                let k = choose|k: int|
                    0 <= k < ts@.len() && st.rel((#[trigger] ts@[k]).0, p, x) && ts@[k].1.model()
                        == r;
                assert(row@[k].0 == ts@[k].0);
                assert(ss[row@[k].1 as int].model() == r);
                assert(row@[k].1 == j) by {
                    let h = row@[k].1 as int;
                    if h < j {
                        assert(ss[h].model() != ss[j as int].model());
                    } else if h > j {
                        assert(ss[j as int].model() != ss[h].model());
                    }
                }
                assert(row@[k].1.model() == j);
            }
        }
        assert forall|p: Pkt, r: Place<A>, x: Pkt| #[trigger]
            a.step(st, q, p, r, x) && p.len() == st.n() && x.len() == st.n() implies among(
            ss,
            r,
        ) by {
            assert(listed(st, ts@, p, r, x));
            let k = choose|k: int|
                0 <= k < ts@.len() && st.rel((#[trigger] ts@[k]).0, p, x) && ts@[k].1.model() == r;
            assert(row@[k].0 == ts@[k].0);
            assert(ss[row@[k].1 as int].model() == r);
        }
    }
    row
}

/// The states of the list are among those of the other.
pub open spec fn subsumes<S: StateKey>(v: Seq<S>, roots: Seq<S>) -> bool {
    forall|i: int| 0 <= i < roots.len() ==> among(v, (#[trigger] roots[i]).model())
}

/// The table of the states that can be reached from the start and from further
/// states.
pub fn tabulate<A: ENFA>(a: &A, store: &mut SPPstore, roots: &Vec<A::State>) -> (g: StateGraph<A::State>)
    requires
        old(store).wf(),
        a.valid(*old(store)),
        forall|i: int| 0 <= i < roots@.len() ==> a.is_state((#[trigger] roots@[i]).model()),
    ensures
        final(store).wf(),
        final(store).extends(old(store)),
        tabulates(a, *final(store), g),
        subsumes(g.states@, roots@),
        forall|i: int|
            0 <= i < g.states@.len() ==> can_reach(
                a,
                *old(store),
                roots@,
                (#[trigger] g.states@[i]).model(),
            ),
        forall|i: int, b: int|
            #![trigger g.edges@[i]@[b]]
            0 <= i < g.edges@.len() && 0 <= b < g.edges@[i]@.len() ==> g.edges@[i]@[b].0
                != final(store).zero,
{
    let ghost o = *store;
    let mut states: Vec<A::State> = Vec::new();
    proof {
        a.lemma_states(o);
    }
    states.push(a.start(store));
    let mut k: usize = 0;
    proof {
        lemma_can_reach_root(a, o, roots@, a.init());
    }
    while k < roots.len()
        invariant
            forall|i: int|
                0 <= i < states@.len() ==> can_reach(a, o, roots@, (#[trigger] states@[i]).model()),
            k <= roots@.len(),
            states@.len() >= 1,
            states@[0].model() == a.init(),
            distinct(states@),
            forall|i: int| 0 <= i < roots@.len() ==> a.is_state((#[trigger] roots@[i]).model()),
            forall|i: int| 0 <= i < states@.len() ==> a.is_state((#[trigger] states@[i]).model()),
            forall|i: int| 0 <= i < k ==> among(states@, (#[trigger] roots@[i]).model()),
        decreases roots.len() - k,
    {
        let ghost s0 = states@;
        proof {
            assert(a.is_state(roots@[k as int].model()));
            assert(among(roots@, roots@[k as int].model()));
            lemma_can_reach_root(a, o, roots@, roots@[k as int].model());
        }
        if position(&states, &roots[k]).is_none() {
            states.push(roots[k].dup());
        } else {
            proof {
                let m = roots@[k as int].model();
                let j = choose|j: int| 0 <= j < s0.len() && (#[trigger] s0[j]).model() == m;
                assert(among(s0, m));
            }
        }
        proof {
            assert forall|i: int| 0 <= i < k + 1 implies among(
                states@,
                (#[trigger] roots@[i]).model(),
            ) by {
                let m = roots@[i].model();
                if states@.len() > s0.len() {
                    assert(states@ =~= s0.push(states@[s0.len() as int]));
                    lemma_among_push(s0, states@[s0.len() as int], m);
                }
            }
            assert forall|i: int| 0 <= i < states@.len() implies a.is_state(
                (#[trigger] states@[i]).model(),
            ) by {
                if i < s0.len() {
                    assert(states@[i] == s0[i]);
                }
            }
            assert forall|i: int, j: int|
                #![trigger states@[i], states@[j]]
                0 <= i < j < states@.len() implies states@[i].model() != states@[j].model() by {
                assert(states@[i] == s0[i]);
                if j < s0.len() {
                    assert(states@[j] == s0[j]);
                }
            }
        }
        k = k + 1;
    }
    let ghost s1 = states@;
    let mut g = StateGraph { states, edges: Vec::new(), outputs: Vec::new(), visible: Vec::new() };
    let mut head: usize = 0;
    while head < g.states.len()
        invariant
            store.wf(),
            store.extends(&o),
            o == *old(store),
            o.wf(),
            a.valid(o),
            forall|i: int|
                0 <= i < g.states@.len() ==> can_reach(
                    a,
                    o,
                    roots@,
                    (#[trigger] g.states@[i]).model(),
                ),
            forall|i: int, b: int|
                #![trigger g.edges@[i]@[b]]
                0 <= i < g.edges@.len() && 0 <= b < g.edges@[i]@.len() ==> g.edges@[i]@[b].0
                    != store.zero,
            head <= g.states@.len(),
            g.states@.len() >= 1,
            g.states@[0].model() == a.init(),
            rows_of(a, *store, g, head as nat),
            s1.len() <= g.states@.len(),
            forall|i: int| 0 <= i < s1.len() ==> (#[trigger] g.states@[i]).model() == s1[i].model(),
        decreases usize::MAX - head,
    {
        let ghost st0 = *store;
        let ghost g0 = g;
        let ghost q = g.states@[head as int].model();
        proof {
            a.lemma_valid(st0, o);
            assert(a.is_state(g.states@[head as int].model()));
        }
        let y = a.output(store, &g.states[head]);
        let ghost st1 = *store;
        proof {
            a.lemma_valid(st1, st0);
        }
        let b = a.is_visible(store, &g.states[head]);
        let ghost st2 = *store;
        proof {
            a.lemma_valid(st2, st1);
        }
        let all = a.transitions(store, &g.states[head]);
        let ghost all0 = all@;
        let ghost st3 = *store;
        let ts = filled_only(all, store);
        proof {
            assert forall|i: int| 0 <= i < ts@.len() implies st3.has((#[trigger] ts@[i]).0)
                && a.is_state(ts@[i].1.model()) by {
                let j = choose|j: int|
                    0 <= j < all0.len() && (#[trigger] all0[j]).0 == ts@[i].0
                        && all0[j].1.model() == ts@[i].1.model();
                assert(st3.has(all0[j].0));
            }
            a.lemma_valid(st3, st2);
            assert forall|p: Pkt, r: Place<A>, x: Pkt|
                #![trigger a.step(st3, q, p, r, x)]
                #![trigger listed(st3, ts@, p, r, x)]
                p.len() == st3.n() && x.len() == st3.n() implies a.step(st3, q, p, r, x) == listed(
                st3,
                ts@,
                p,
                r,
                x,
            ) by {
                assert(a.step(st2, q, p, r, x) == a.step(st3, q, p, r, x));
                assert(a.step(st2, q, p, r, x) == listed(st3, all0, p, r, x));
            }
            assert forall|p: Pkt, x: Pkt|
                #![trigger st3.rel(y, p, x)]
                #![trigger a.out(st3, q, p, x)]
                p.len() == st3.n() && x.len() == st3.n() implies st3.rel(y, p, x) == a.out(
                st3,
                q,
                p,
                x,
            ) by {
                assert(a.out(st0, q, p, x) == st1.rel(y, p, x));
                assert(a.out(st1, q, p, x) == a.out(st0, q, p, x));
                assert(a.out(st2, q, p, x) == a.out(st1, q, p, x));
                assert(a.out(st3, q, p, x) == a.out(st2, q, p, x));
                assert(st3.rel(y, p, x) == st1.rel(y, p, x));
            }
        }
        let mut states = g.states;
        let row = number_targets(a, &mut states, &ts, Ghost(st3), Ghost(q));
        g.states = states;
        g.edges.push(row);
        g.outputs.push(y);
        g.visible.push(b);
        proof {
            a.lemma_valid(st3, o);
            assert forall|i: int| 0 <= i < g.states@.len() implies can_reach(
                a,
                o,
                roots@,
                (#[trigger] g.states@[i]).model(),
            ) by {
                if i < g0.states@.len() {
                    assert(g.states@[i].model() == g0.states@[i].model());
                } else {
                    let r = g.states@[i].model();
                    assert(hop(a, st3, q, r));
                    let (p, x) = choose|p: Pkt, x: Pkt|
                        p.len() == st3.n() && x.len() == st3.n() && #[trigger] a.step(
                            st3,
                            q,
                            p,
                            r,
                            x,
                        );
                    assert(a.step(o, q, p, r, x));
                    assert(hop(a, o, q, r));
                    lemma_can_reach_next(a, o, roots@, q, r);
                }
            }
            assert forall|i: int, b: int|
                #![trigger g.edges@[i]@[b]]
                0 <= i < g.edges@.len() && 0 <= b < g.edges@[i]@.len() implies g.edges@[i]@[b].0
                != st3.zero by {
                if i < head {
                    assert(g.edges@[i] == g0.edges@[i]);
                    assert(g0.edges@[i]@[b].0 != st0.zero);
                } else {
                    assert(g.edges@[i]@ == row@);
                }
            }
            assert forall|i: int| 0 <= i < head + 1 implies row_of(
                a,
                st3,
                g.states@,
                g.states@[i].model(),
                (#[trigger] g.edges@[i])@,
            ) by {
                if i < head {
                    assert(g.edges@[i] == g0.edges@[i]);
                    assert(a.is_state(g0.states@[i].model()));
                    lemma_row_ext(
                        a,
                        st3,
                        st0,
                        g0.states@,
                        g.states@,
                        g0.states@[i].model(),
                        g0.edges@[i]@,
                    );
                    assert(g.states@[i].model() == g0.states@[i].model());
                } else {
                    assert(g.states@[i].model() == q);
                }
            }
            assert forall|i: int| 0 <= i < head + 1 implies output_of(
                a,
                st3,
                g.states@[i].model(),
                #[trigger] g.outputs@[i],
            ) by {
                if i < head {
                    assert(g.outputs@[i] == g0.outputs@[i]);
                    assert(a.is_state(g0.states@[i].model()));
                    lemma_output_ext(a, st3, st0, g0.states@[i].model(), g0.outputs@[i]);
                    assert(g.states@[i].model() == g0.states@[i].model());
                } else {
                    assert(g.states@[i].model() == q);
                }
            }
            assert forall|i: int| 0 <= i < head + 1 implies #[trigger] g.visible@[i] == a.vis(
                g.states@[i].model(),
            ) by {
                assert(g.states@[i].model() == g0.states@[i].model());
                if i < head {
                    assert(g.visible@[i] == g0.visible@[i]);
                }
            }
            assert forall|i: int| 0 <= i < s1.len() implies (#[trigger] g.states@[i]).model()
                == s1[i].model() by {
                assert(g.states@[i].model() == g0.states@[i].model());
            }
        }
        head = head + 1;
    }
    proof {
        assert forall|i: int| 0 <= i < roots@.len() implies among(
            g.states@,
            (#[trigger] roots@[i]).model(),
        ) by {
            let m = roots@[i].model();
            assert(among(s1, m));
            let j = choose|j: int| 0 <= j < s1.len() && (#[trigger] s1[j]).model() == m;
            assert(g.states@[j].model() == m);
        }
    }
    g
}

// ---- numbered states ---------------------------------------------------------------------

/// An automaton with numbers for states: the inner one, with the table of its
/// reachable states.
pub struct Memo<T: ENFA> {
    pub inner: T,
    pub graph: StateGraph<T::State>,
}

impl<T: ENFA> Memo<T> {
    /// The automaton with its table.
    pub fn new(store: &mut SPPstore, inner: T) -> (r: Self)
        requires
            old(store).wf(),
            inner.valid(*old(store)),
        ensures
            final(store).wf(),
            final(store).extends(old(store)),
            r.inner == inner,
            r.valid(*final(store)),
            forall|i: int|
                0 <= i < r.graph.states@.len() ==> can_reach(
                    &inner,
                    *old(store),
                    Seq::empty(),
                    (#[trigger] r.graph.states@[i]).model(),
                ),
    {
        let roots: Vec<T::State> = Vec::new();
        let graph = tabulate(&inner, store, &roots);
        proof {
            assert(roots@ =~= Seq::<T::State>::empty());
            inner.lemma_valid(*store, *old(store));
        }
        Memo { inner, graph }
    }
}

impl<T: ENFA> ENFA for Memo<T> {
    type State = usize;

    open spec fn valid(&self, st: SPPstore) -> bool {
        self.inner.valid(st) && tabulates(&self.inner, st, self.graph)
    }

    open spec fn is_state(&self, q: usize) -> bool {
        q < self.graph.states@.len()
    }

    open spec fn init(&self) -> usize {
        0
    }

    open spec fn vis(&self, q: usize) -> bool {
        self.inner.vis(self.graph.states@[q as int].model())
    }

    open spec fn step(&self, st: SPPstore, q: usize, p: Pkt, r: usize, x: Pkt) -> bool {
        listed(st, self.graph.edges@[q as int]@, p, r, x)
    }

    open spec fn out(&self, st: SPPstore, q: usize, p: Pkt, x: Pkt) -> bool {
        st.rel(self.graph.outputs@[q as int], p, x)
    }

    proof fn lemma_valid(&self, st: SPPstore, o: SPPstore) {
        self.inner.lemma_valid(st, o);
        lemma_rows_ext(&self.inner, st, o, self.graph, self.graph.states@.len());
        assert forall|q: usize, p: Pkt, r: usize, x: Pkt|
            #![trigger self.step(st, q, p, r, x)]
            #![trigger self.step(o, q, p, r, x)]
            self.is_state(q) && p.len() == o.n() && x.len() == o.n() implies self.step(
            st,
            q,
            p,
            r,
            x,
        ) == self.step(o, q, p, r, x) by {
            let row = self.graph.edges@[q as int]@;
            assert(row_of(
                &self.inner,
                o,
                self.graph.states@,
                self.graph.states@[q as int].model(),
                row,
            ));
            lemma_listed_ext(st, o, row);
        }
        assert forall|q: usize, p: Pkt, x: Pkt|
            #![trigger self.out(st, q, p, x)]
            #![trigger self.out(o, q, p, x)]
            self.is_state(q) && p.len() == o.n() && x.len() == o.n() implies self.out(st, q, p, x)
            == self.out(o, q, p, x) by {
            assert(output_of(
                &self.inner,
                o,
                self.graph.states@[q as int].model(),
                self.graph.outputs@[q as int],
            ));
        }
    }

    proof fn lemma_states(&self, st: SPPstore) {
        assert forall|q: usize, p: Pkt, r: usize, x: Pkt| #[trigger]
            self.step(st, q, p, r, x) && self.is_state(q) && p.len() == st.n() && x.len()
                == st.n() implies self.is_state(r) by {
            let row = self.graph.edges@[q as int]@;
            assert(row_of(
                &self.inner,
                st,
                self.graph.states@,
                self.graph.states@[q as int].model(),
                row,
            ));
            let i = choose|i: int|
                0 <= i < row.len() && st.rel((#[trigger] row[i]).0, p, x) && row[i].1.model() == r;
            assert(row[i].1 < self.graph.states@.len());
        }
    }

    fn start(&self, store: &mut SPPstore) -> (q: usize) {
        0
    }

    fn is_visible(&self, store: &mut SPPstore, q: &usize) -> (b: bool) {
        self.graph.visible[*q]
    }

    fn transitions(&self, store: &mut SPPstore, q: &usize) -> (ts: Vec<(SPP, usize)>) {
        let ghost row = self.graph.edges@[*q as int]@;
        proof {
            assert(row_of(
                &self.inner,
                *store,
                self.graph.states@,
                self.graph.states@[*q as int].model(),
                row,
            ));
        }
        let ts = copy_row(&self.graph.edges[*q]);
        proof {
            assert forall|i: int| 0 <= i < ts@.len() implies store.has((#[trigger] ts@[i]).0)
                && self.is_state(ts@[i].1.model()) by {
                assert(row[i].1 < self.graph.states@.len());
            }
        }
        ts
    }

    fn output(&self, store: &mut SPPstore, q: &usize) -> (y: SPP) {
        proof {
            assert(output_of(
                &self.inner,
                *store,
                self.graph.states@[*q as int].model(),
                self.graph.outputs@[*q as int],
            ));
        }
        self.graph.outputs[*q]
    }
}

/// The same transitions.
fn copy_row(row: &Vec<(SPP, usize)>) -> (r: Vec<(SPP, usize)>)
    ensures
        r@ == row@,
{
    let mut r: Vec<(SPP, usize)> = Vec::new();
    let mut i: usize = 0;
    while i < row.len()
        invariant
            i <= row@.len(),
            r@ == row@.take(i as int),
        decreases row.len() - i,
    {
        let (x, j) = row[i];
        r.push((x, j));
        proof {
            assert(row@.take(i + 1) =~= row@.take(i as int).push(row@[i as int]));
        }
        i = i + 1;
    }
    proof {
        assert(row@.take(i as int) =~= row@);
    }
    r
}

/// The path with the states in place of their numbers.
spec fn unnumbered<T: ENFA>(a: &Memo<T>, path: Seq<(usize, Pkt)>) -> Seq<(Place<T>, Pkt)> {
    Seq::new(path.len(), |i: int| (a.graph.states@[path[i].0 as int].model(), path[i].1))
}

/// The number of a state.
spec fn number_of<T: ENFA>(a: &Memo<T>, m: Place<T>) -> usize {
    choose|i: usize| i < a.graph.states@.len() && a.graph.states@[i as int].model() == m
}

proof fn lemma_seen_unnumbered<T: ENFA>(a: &Memo<T>, st: SPPstore, path: Seq<(usize, Pkt)>)
    requires
        a.valid(st),
        forall|i: int| 0 <= i < path.len() ==> a.is_state((#[trigger] path[i]).0),
    ensures
        seen(a, path) == seen(&a.inner, unnumbered(a, path)),
    decreases path.len(),
{
    if path.len() > 0 {
        let front = path.drop_last();
        lemma_seen_unnumbered(a, st, front);
        let u = unnumbered(a, path);
        assert(u.drop_last() =~= unnumbered(a, front));
        let q = path.last().0;
        assert(a.is_state(path[path.len() - 1].0));
        assert(u.last() == (a.graph.states@[q as int].model(), path.last().1));
    }
}

/// A run on numbers is a run on states.
proof fn lemma_unnumber<T: ENFA>(
    a: &Memo<T>,
    st: SPPstore,
    q: usize,
    path: Seq<(usize, Pkt)>,
    w: Word,
)
    requires
        st.wf(),
        a.valid(st),
        a.is_state(q),
        is_word(st.n(), w),
        run_on(a, st, q, path, w),
    ensures
        run_on(&a.inner, st, a.graph.states@[q as int].model(), unnumbered(a, path), w),
{
    let g = a.graph;
    let u = unnumbered(a, path);
    assert forall|i: int| 0 <= i < path.len() implies a.is_state((#[trigger] path[i]).0) by {
        lemma_path_states(a, st, path, i);
    }
    assert forall|i: int| 0 <= i < u.len() - 1 implies #[trigger] moves(&a.inner, st, u, i) by {
        assert(moves(a, st, path, i));
        let (h, j) = (path[i].0, path[i + 1].0);
        assert(a.is_state(h) && a.is_state(j));
        assert(path[i].1.len() == st.n() && path[i + 1].1.len() == st.n());
        assert(row_of(&a.inner, st, g.states@, g.states@[h as int].model(), g.edges@[h as int]@));
        assert(listed(st, g.edges@[h as int]@, path[i].1, j, path[i + 1].1));
    }
    assert forall|i: int| 0 <= i < u.len() implies (#[trigger] u[i]).1.len() == st.n() by {
        assert(path[i].1.len() == st.n());
    }
    assert(u.skip(1) =~= unnumbered(a, path.skip(1)));
    assert forall|i: int| 0 <= i < path.skip(1).len() implies a.is_state(
        (#[trigger] path.skip(1)[i]).0,
    ) by {
        assert(path.skip(1)[i] == path[i + 1]);
    }
    lemma_seen_unnumbered(a, st, path.skip(1));
    let last = path.last().0;
    assert(a.is_state(path[path.len() - 1].0));
    assert(path[path.len() - 1].1.len() == st.n());
    assert(output_of(&a.inner, st, g.states@[last as int].model(), g.outputs@[last as int]));
    assert(st.rel(g.outputs@[last as int], path.last().1, w.last()));
    assert(w.last().len() == st.n());
}

/// The states of a run are in the table.
proof fn lemma_in_table<T: ENFA>(
    a: &Memo<T>,
    st: SPPstore,
    path: Seq<(Place<T>, Pkt)>,
    i: int,
)
    requires
        st.wf(),
        a.valid(st),
        is_path(&a.inner, st, path),
        among(a.graph.states@, path[0].0),
        0 <= i < path.len(),
    ensures
        among(a.graph.states@, path[i].0),
    decreases i,
{
    if i > 0 {
        lemma_in_table(a, st, path, i - 1);
        let g = a.graph;
        let m = path[i - 1].0;
        let h = choose|h: int| 0 <= h < g.states@.len() && (#[trigger] g.states@[h]).model() == m;
        assert(row_of(&a.inner, st, g.states@, g.states@[h].model(), g.edges@[h]@));
        assert(moves(&a.inner, st, path, i - 1));
        assert(path[i - 1].1.len() == st.n() && path[i].1.len() == st.n());
    }
}

/// A run on states is a run on numbers.
proof fn lemma_number<T: ENFA>(
    a: &Memo<T>,
    st: SPPstore,
    q: usize,
    path: Seq<(Place<T>, Pkt)>,
    w: Word,
)
    requires
        st.wf(),
        a.valid(st),
        a.is_state(q),
        is_word(st.n(), w),
        run_on(&a.inner, st, a.graph.states@[q as int].model(), path, w),
    ensures
        accepts_from(a, st, q, w),
{
    let g = a.graph;
    let u = Seq::new(path.len(), |i: int| (number_of(a, path[i].0), path[i].1));
    assert(among(g.states@, path[0].0));
    assert forall|i: int| 0 <= i < path.len() implies a.is_state((#[trigger] u[i]).0)
        && g.states@[u[i].0 as int].model() == path[i].0 by {
        lemma_in_table(a, st, path, i);
        let m = path[i].0;
        let h = choose|h: int| 0 <= h < g.states@.len() && (#[trigger] g.states@[h]).model() == m;
        let k = h as usize;
        assert(h < a.graph.states.len());
        assert(k < g.states@.len() && g.states@[k as int].model() == m);
    }
    assert(unnumbered(a, u) =~= path);
    assert(u[0].0 == q) by {
        let h = u[0].0 as int;
        assert(g.states@[h].model() == g.states@[q as int].model());
        if h < q {
            assert(g.states@[h].model() != g.states@[q as int].model());
        } else if h > q {
            assert(g.states@[q as int].model() != g.states@[h].model());
        }
    }
    assert forall|i: int| 0 <= i < u.len() - 1 implies #[trigger] moves(a, st, u, i) by {
        assert(moves(&a.inner, st, path, i));
        let (h, j) = (u[i].0, u[i + 1].0);
        assert(a.is_state(h) && a.is_state(j));
        assert(path[i].1.len() == st.n() && path[i + 1].1.len() == st.n());
        assert(row_of(&a.inner, st, g.states@, g.states@[h as int].model(), g.edges@[h as int]@));
        assert(a.inner.step(
            st,
            g.states@[h as int].model(),
            u[i].1,
            g.states@[j as int].model(),
            u[i + 1].1,
        ));
    }
    assert forall|i: int| 0 <= i < u.len() implies (#[trigger] u[i]).1.len() == st.n() by {
        assert(path[i].1.len() == st.n());
    }
    assert(path.skip(1) =~= unnumbered(a, u.skip(1)));
    assert forall|i: int| 0 <= i < u.skip(1).len() implies a.is_state(
        (#[trigger] u.skip(1)[i]).0,
    ) by {
        assert(u.skip(1)[i] == u[i + 1]);
    }
    lemma_seen_unnumbered(a, st, u.skip(1));
    let last = u.last().0;
    assert(a.is_state(u[u.len() - 1].0));
    assert(path[path.len() - 1].1.len() == st.n());
    assert(g.states@[last as int].model() == path.last().0);
    assert(output_of(&a.inner, st, g.states@[last as int].model(), g.outputs@[last as int]));
    assert(w.last().len() == st.n());
    assert(a.inner.out(st, g.states@[last as int].model(), u.last().1, w.last()));
    assert(run_on(a, st, q, u, w));
}

/// Numbering the states keeps the words.
pub proof fn law_memo<T: ENFA>(a: &Memo<T>, st: SPPstore, w: Word)
    requires
        st.wf(),
        a.valid(st),
        is_word(st.n(), w),
    ensures
        enfa_lang(a, st)(w) == enfa_lang(&a.inner, st)(w),
{
    lemma_memo_from(a, st, 0, w);
}

/// A number accepts the words of its state.
pub proof fn lemma_memo_from<T: ENFA>(a: &Memo<T>, st: SPPstore, q: usize, w: Word)
    requires
        st.wf(),
        a.valid(st),
        a.is_state(q),
        is_word(st.n(), w),
    ensures
        accepts_from(a, st, q, w) == accepts_from(
            &a.inner,
            st,
            a.graph.states@[q as int].model(),
            w,
        ),
{
    let m = a.graph.states@[q as int].model();
    if accepts_from(a, st, q, w) {
        let path = choose|path: Seq<(usize, Pkt)>| #[trigger] run_on(a, st, q, path, w);
        lemma_unnumber(a, st, q, path, w);
    }
    if accepts_from(&a.inner, st, m, w) {
        let path = choose|path: Seq<(Place<T>, Pkt)>| #[trigger] run_on(&a.inner, st, m, path, w);
        lemma_number(a, st, q, path, w);
    }
}

impl<T: NFA> NFA for Memo<T> {
    proof fn lemma_visible(&self) {
        self.inner.lemma_visible();
    }
}

impl<T: DFA> DFA for Memo<T> {
    proof fn lemma_deterministic(&self, st: SPPstore) {
        self.inner.lemma_deterministic(st);
        self.lemma_states(st);
        let g = self.graph;
        assert forall|q: usize, p: Pkt, r: usize, s: usize, x: Pkt|
            #![trigger self.step(st, q, p, r, x), self.step(st, q, p, s, x)]
            self.is_state(q) && p.len() == st.n() && x.len() == st.n() && self.step(
                st,
                q,
                p,
                r,
                x,
            ) && self.step(st, q, p, s, x) implies r == s by {
            let m = g.states@[q as int].model();
            assert(row_of(&self.inner, st, g.states@, m, g.edges@[q as int]@));
            assert(self.is_state(r) && self.is_state(s));
            assert(self.inner.is_state(g.states@[q as int].model()));
            assert(listed(st, g.edges@[q as int]@, p, r, x));
            assert(listed(st, g.edges@[q as int]@, p, s, x));
            assert(self.inner.step(st, m, p, g.states@[r as int].model(), x));
            assert(self.inner.step(st, m, p, g.states@[s as int].model(), x));
            if r < s {
                assert(g.states@[r as int].model() != g.states@[s as int].model());
            } else if s < r {
                assert(g.states@[s as int].model() != g.states@[r as int].model());
            }
        }
    }
}

} // verus!
