//! Runs on a word that have to leave a set of places.
//!
//! An automaton with holes does not have a word as its holes are filled.  With
//! another filling it does.  Then the run on the word leaves, through a hole, the
//! places that are reached now.
use vstd::prelude::*;
use crate::holes::aut::{
    accepts_from, enfa_lang, is_path, lemma_first, moves, onward, trace_of, Place, ENFA,
};
use crate::holes::candidate::span_word;
use crate::holes::inst::{graph_row, lemma_path_store, targets, Instantiate, State};
use crate::holes::nk_with_holes::{crosses, ends, enters, label_lang, leaves, Fill, Hole};
use crate::holes::reach::{follows, lemma_word_from, word_from};
use crate::lang::{back, front, is_word, Word};
use crate::sp::Pkt;
use crate::spp::SPPstore;

verus! {

/// A run up to a place and one on from there are a run on the whole word.
pub proof fn lemma_meet<A: ENFA>(
    a: &A,
    st: SPPstore,
    t: Seq<Pkt>,
    out: Pkt,
    q: Place<A>,
    i: int,
    p: Pkt,
    path: Seq<(Place<A>, Pkt)>,
)
    requires
        forall|j: int| 0 <= j < t.len() ==> (#[trigger] t[j]).len() == st.n(),
        out.len() == st.n(),
        0 <= i < t.len(),
        is_path(a, st, path),
        path[0].0 == a.init(),
        path.last() == (q, p),
        trace_of(a, path) == t.take(i + 1),
        accepts_from(a, st, q, word_from(t, out, i, p)),
    ensures
        enfa_lang(a, st)(t.push(out)),
    decreases path.len(),
{
    let k = path.len() - 1;
    assert(path[k].1.len() == st.n());
    assert(trace_of(a, path).len() == i + 1);
    if k == 0 {
        assert(path.skip(1) =~= Seq::<(Place<A>, Pkt)>::empty());
        assert(trace_of(a, path)[0] == p);
        assert(t.take(i + 1)[0] == t[0]);
        assert(word_from(t, out, 0, p) =~= t.push(out));
    } else {
        let prev = path.drop_last();
        let (q0, p0) = prev.last();
        assert(path[k - 1] == (q0, p0));
        assert(moves(a, st, path, k - 1));
        assert(p0.len() == st.n());
        assert forall|j: int| 0 <= j < prev.len() - 1 implies #[trigger] moves(a, st, prev, j) by {
            assert(moves(a, st, path, j));
        }
        assert forall|j: int| 0 <= j < prev.len() implies (#[trigger] prev[j]).1.len() == st.n() by {
            assert(path[j].1.len() == st.n());
        }
        assert(path.skip(1).drop_last() =~= prev.skip(1));
        assert(path.skip(1).last() == (q, p));
        if a.vis(q) {
            assert(trace_of(a, path) =~= trace_of(a, prev).push(p));
            assert(trace_of(a, path).last() == p);
            assert(t.take(i + 1).last() == t[i]);
            assert(trace_of(a, prev) =~= t.take(i + 1).drop_last());
            assert(t.take(i + 1).drop_last() =~= t.take(i));
            lemma_word_from(st.n(), t, out, i - 1, p0);
            let w = word_from(t, out, i - 1, p0);
            lemma_first(a, st, q0, w);
            assert(onward(a, st, q0, w, q, p));
            lemma_meet(a, st, t, out, q0, i - 1, p0, prev);
        } else {
            assert(trace_of(a, path) =~= trace_of(a, prev));
            lemma_word_from(st.n(), t, out, i, p0);
            let w = word_from(t, out, i, p0);
            lemma_first(a, st, q0, w);
            assert(w.update(0, p) == word_from(t, out, i, p));
            assert(onward(a, st, q0, w, q, p));
            lemma_meet(a, st, t, out, q0, i, p0, prev);
        }
    }
}

/// What fills the holes in `hs` is part of what fills them in `gs`.
pub open spec fn below_fill<C: ENFA>(x: &Instantiate<C>, st: SPPstore, hs: Fill, gs: Fill) -> bool {
    forall|h: Hole, w: Word|
        #![trigger hs(h)(w)]
        #![trigger gs(h)(w)]
        x.aut.uses(h) && is_word(st.n(), w) && hs(h)(w) ==> gs(h)(w)
}

/// Expressions have more words with more in their holes.
pub proof fn lemma_more<C: ENFA>(
    x: &Instantiate<C>,
    st: SPPstore,
    hs: Fill,
    gs: Fill,
    a: usize,
    w: Word,
    c: nat,
)
    requires
        st.wf(),
        x.valid(st),
        below_fill(x, st, hs, gs),
        a < x.graph.states@.len(),
        is_word(st.n(), w),
        x.aut.takes(st, hs, x.graph.states@[a as int].aexpr, w, c),
    ensures
        x.aut.accepts(st, gs, x.graph.states@[a as int].aexpr, w),
    decreases c,
{
    let n = st.n();
    let s = x.graph.states@[a as int].aexpr;
    assert(graph_row(x.aut, st, x.graph, a as int));
    let es0 = x.graph.edges@[a as int]@;
    let es = targets(x.graph.states@, es0);
    let ls = x.graph.ends@[a as int]@;
    if ends(st, hs, ls, w) {
        let j = choose|j: int| 0 <= j < ls.len() && label_lang(st, hs, #[trigger] ls[j])(w);
        assert(label_lang(st, gs, ls[j])(w));
        assert(ends(st, gs, ls, w));
    } else {
        assert(leaves(x.aut, st, hs, es, w, c));
        let (j, i, m, d) = choose|j: int, i: int, m: Pkt, d: nat|
            0 <= j < es.len() && d < c && #[trigger] crosses(x.aut, st, hs, es[j], w, i, m, d);
        let f = front(w, i, m);
        let v = back(w, i, m);
        assert(is_word(n, f)) by {
            assert forall|z: int| 0 <= z < f.len() implies (#[trigger] f[z]).len() == n by {
                if z <= i {
                    assert(f[z] == w[z]);
                }
            }
        }
        assert(is_word(n, v)) by {
            assert forall|z: int| 0 <= z < v.len() implies (#[trigger] v[z]).len() == n by {
                if z > 0 {
                    assert(v[z] == w[i + z]);
                }
            }
        }
        assert(label_lang(st, gs, es[j].0)(f));
        let b = es0[j].1;
        assert(es[j] == (es0[j].0, x.graph.states@[b as int]));
        let u = if es[j].1.visible {
            v.skip(1)
        } else {
            v
        };
        assert(is_word(n, u)) by {
            assert forall|z: int| 0 <= z < u.len() implies (#[trigger] u[z]).len() == n by {
                if es[j].1.visible {
                    assert(u[z] == v[z + 1]);
                }
            }
        }
        lemma_more(x, st, hs, gs, b, u, d);
        let d2 = choose|d2: nat| #[trigger] x.aut.takes(st, gs, es[j].1.aexpr, u, d2);
        assert(enters(x.aut, st, gs, es[j].1, v, d2));
        assert(crosses(x.aut, st, gs, es[j], w, i, m, d2));
        assert(leaves(x.aut, st, gs, es, w, d2 + 1));
    }
}

/// A predicate on places: a state of the expression, a position of the trace and a
/// packet.
pub type Places = spec_fn(usize, int, Pkt) -> bool;

/// The position that a state calls for after position `j`.
pub open spec fn lands<C: ENFA>(x: &Instantiate<C>, b: usize, j: int) -> int {
    if x.graph.states@[b as int].visible {
        j + 1
    } else {
        j
    }
}

/// A place at which a run on the word can be.
pub open spec fn placed_at<C: ENFA>(
    x: &Instantiate<C>,
    st: SPPstore,
    t: Seq<Pkt>,
    a: usize,
    i: int,
    p: Pkt,
) -> bool {
    &&& a < x.graph.states@.len()
    &&& 0 <= i < t.len()
    &&& p.len() == st.n()
    &&& x.graph.states@[a as int].visible ==> p == t[i]
}

/// An accepting run goes from the place along edge `k`, whose label takes it up to
/// position `j` and packet `m`.
pub open spec fn goes<C: ENFA>(
    x: &Instantiate<C>,
    st: SPPstore,
    hs: Fill,
    t: Seq<Pkt>,
    out: Pkt,
    a: usize,
    i: int,
    p: Pkt,
    k: int,
    j: int,
    m: Pkt,
    c: nat,
) -> bool {
    &&& 0 <= k < x.graph.edges@[a as int]@.len()
    &&& i <= j
    &&& label_lang(st, hs, x.graph.edges@[a as int]@[k].0)(
        span_word(p, t.subrange(i + 1, j + 1), m),
    )
    &&& placed_at(
        x,
        st,
        t,
        x.graph.edges@[a as int]@[k].1,
        lands(x, x.graph.edges@[a as int]@[k].1, j),
        m,
    )
    &&& x.aut.takes(
        st,
        hs,
        x.graph.states@[x.graph.edges@[a as int]@[k].1 as int].aexpr,
        word_from(t, out, lands(x, x.graph.edges@[a as int]@[k].1, j), m),
        c,
    )
}

/// A run that is in the region at the place stays in it, or the goal holds.
pub open spec fn stays<C: ENFA>(
    x: &Instantiate<C>,
    st: SPPstore,
    hs: Fill,
    t: Seq<Pkt>,
    out: Pkt,
    ins: Places,
    goal: bool,
    a: usize,
    i: int,
    p: Pkt,
) -> bool {
    &&& forall|k: int, j: int, m: Pkt, c: nat| #[trigger]
        goes(x, st, hs, t, out, a, i, p, k, j, m, c) ==> goal || ins(
            x.graph.edges@[a as int]@[k].1,
            lands(x, x.graph.edges@[a as int]@[k].1, j),
            m,
        )
    &&& forall|k: int|
        0 <= k < x.graph.ends@[a as int]@.len() && label_lang(
            st,
            hs,
            #[trigger] x.graph.ends@[a as int]@[k],
        )(word_from(t, out, i, p)) ==> goal
}

/// A run from inside a region that it can leave only where the goal holds: it does
/// not end inside, so the goal holds.
pub proof fn lemma_escape<C: ENFA>(
    x: &Instantiate<C>,
    st: SPPstore,
    hs: Fill,
    t: Seq<Pkt>,
    out: Pkt,
    ins: Places,
    goal: bool,
    a: usize,
    i: int,
    p: Pkt,
    c: nat,
)
    requires
        st.wf(),
        x.valid(st),
        forall|j: int| 0 <= j < t.len() ==> (#[trigger] t[j]).len() == st.n(),
        out.len() == st.n(),
        forall|b: usize, j: int, m: Pkt| #[trigger]
            ins(b, j, m) && placed_at(x, st, t, b, j, m) ==> stays(
                x,
                st,
                hs,
                t,
                out,
                ins,
                goal,
                b,
                j,
                m,
            ),
        placed_at(x, st, t, a, i, p),
        ins(a, i, p),
        x.aut.takes(st, hs, x.graph.states@[a as int].aexpr, word_from(t, out, i, p), c),
    ensures
        goal,
    decreases c,
{
    let n = st.n();
    let w = word_from(t, out, i, p);
    lemma_word_from(n, t, out, i, p);
    assert(graph_row(x.aut, st, x.graph, a as int));
    let es0 = x.graph.edges@[a as int]@;
    let es = targets(x.graph.states@, es0);
    let ls = x.graph.ends@[a as int]@;
    assert(stays(x, st, hs, t, out, ins, goal, a, i, p));
    if ends(st, hs, ls, w) {
        let k = choose|k: int| 0 <= k < ls.len() && label_lang(st, hs, #[trigger] ls[k])(w);
        assert(label_lang(st, hs, x.graph.ends@[a as int]@[k])(w));
    } else {
        assert(leaves(x.aut, st, hs, es, w, c));
        let (k, y, m, d) = choose|k: int, y: int, m: Pkt, d: nat|
            0 <= k < es.len() && d < c && #[trigger] crosses(x.aut, st, hs, es[k], w, y, m, d);
        let j = i + y;
        let b = es0[k].1;
        assert(es[k] == (es0[k].0, x.graph.states@[b as int]));
        assert(front(w, y, m) =~= span_word(p, t.subrange(i + 1, j + 1), m));
        let v = back(w, y, m);
        assert(v =~= word_from(t, out, j, m));
        if es[k].1.visible {
            assert(v[1] == t[j + 1]);
            assert(v.skip(1) =~= word_from(t, out, j + 1, m));
        }
        assert(goes(x, st, hs, t, out, a, i, p, k, j, m, d));
        if !goal {
            lemma_escape(x, st, hs, t, out, ins, goal, b, lands(x, b, j), m, d);
        }
    }
}

// ---- leaving through holes ---------------------------------------------------------------------

/// The places that a run on the trace reaches.
pub open spec fn reached<C: ENFA>(x: &Instantiate<C>, st: SPPstore, t: Seq<Pkt>) -> Places {
    |a: usize, i: int, p: Pkt| follows(x, st, t, State::<Place<C>>::Outer(a), i, p)
}

/// All other places.
pub open spec fn outside(ins: Places) -> Places {
    |a: usize, i: int, p: Pkt| !ins(a, i, p)
}

/// From a place of `ins` the hole at edge `k` leads, over the packets up to position
/// `j`, to a place of `outs`.
pub open spec fn breach<C: ENFA>(
    x: &Instantiate<C>,
    st: SPPstore,
    hs: Fill,
    t: Seq<Pkt>,
    ins: Places,
    outs: Places,
    a: usize,
    k: int,
    i: int,
    j: int,
    p: Pkt,
    m: Pkt,
) -> bool {
    &&& a < x.graph.states@.len()
    &&& 0 <= k < x.graph.edges@[a as int]@.len()
    &&& x.graph.edges@[a as int]@[k].0 is Abstract
    &&& 0 <= i <= j
    &&& lands(x, x.graph.edges@[a as int]@[k].1, j) < t.len()
    &&& p.len() == st.n()
    &&& m.len() == st.n()
    &&& ins(a, i, p)
    &&& outs(
        x.graph.edges@[a as int]@[k].1,
        lands(x, x.graph.edges@[a as int]@[k].1, j),
        m,
    )
    &&& label_lang(st, hs, x.graph.edges@[a as int]@[k].0)(
        span_word(p, t.subrange(i + 1, j + 1), m),
    )
}

/// From a place of `ins` the hole at end `k` has the rest of the word.
pub open spec fn breach_end<C: ENFA>(
    x: &Instantiate<C>,
    st: SPPstore,
    hs: Fill,
    t: Seq<Pkt>,
    out: Pkt,
    ins: Places,
    a: usize,
    k: int,
    i: int,
    p: Pkt,
) -> bool {
    &&& a < x.graph.states@.len()
    &&& 0 <= k < x.graph.ends@[a as int]@.len()
    &&& x.graph.ends@[a as int]@[k] is Abstract
    &&& 0 <= i < t.len()
    &&& p.len() == st.n()
    &&& ins(a, i, p)
    &&& label_lang(st, hs, x.graph.ends@[a as int]@[k])(
        span_word(p, t.subrange(i + 1, t.len() as int), out),
    )
}

/// Some hole leads from a place of `ins` to one of `outs`, or has the rest of the word
/// from a place of `ins`.
pub open spec fn breaches<C: ENFA>(
    x: &Instantiate<C>,
    st: SPPstore,
    hs: Fill,
    t: Seq<Pkt>,
    out: Pkt,
    ins: Places,
    outs: Places,
) -> bool {
    ||| exists|a: usize, k: int, i: int, j: int, p: Pkt, m: Pkt| #[trigger]
        breach(x, st, hs, t, ins, outs, a, k, i, j, p, m)
    ||| exists|a: usize, k: int, i: int, p: Pkt| #[trigger]
        breach_end(x, st, hs, t, out, ins, a, k, i, p)
}

/// With some filling the rest of the word goes on from the place.
pub open spec fn plausible<C: ENFA>(
    x: &Instantiate<C>,
    st: SPPstore,
    t: Seq<Pkt>,
    out: Pkt,
    a: usize,
    i: int,
    p: Pkt,
) -> bool {
    exists|hs: Fill| #[trigger]
        x.aut.accepts(st, hs, x.graph.states@[a as int].aexpr, word_from(t, out, i, p))
}

/// What leaves through holes depends on their words and on the places alone.
pub proof fn lemma_breaches<C: ENFA>(
    x: &Instantiate<C>,
    st: SPPstore,
    o: SPPstore,
    hs: Fill,
    gs: Fill,
    t: Seq<Pkt>,
    out: Pkt,
    ins: Places,
    jns: Places,
    outs: Places,
)
    requires
        st.n() == o.n(),
        x.valid(o),
        forall|j: int| 0 <= j < t.len() ==> (#[trigger] t[j]).len() == o.n(),
        out.len() == o.n(),
        forall|h: Hole, w: Word| is_word(o.n(), w) ==> #[trigger] hs(h)(w) == gs(h)(w),
        forall|a: usize, i: int, p: Pkt|
            a < x.graph.states@.len() && 0 <= i < t.len() && p.len() == o.n() ==> #[trigger] ins(
                a,
                i,
                p,
            ) == jns(a, i, p),
    ensures
        breaches(x, st, hs, t, out, ins, outs) ==> breaches(x, o, gs, t, out, jns, outs),
{
    let n = o.n();
    if exists|a: usize, k: int, i: int, j: int, p: Pkt, m: Pkt| #[trigger]
        breach(x, st, hs, t, ins, outs, a, k, i, j, p, m) {
        let (a, k, i, j, p, m) = choose|a: usize, k: int, i: int, j: int, p: Pkt, m: Pkt| #[trigger]
            breach(x, st, hs, t, ins, outs, a, k, i, j, p, m);
        let w = span_word(p, t.subrange(i + 1, j + 1), m);
        assert forall|z: int| 0 <= z < w.len() implies (#[trigger] w[z]).len() == n by {
            if 0 < z < w.len() - 1 {
                assert(w[z] == t[i + z]);
            }
        }
        assert(is_word(n, w));
        assert(breach(x, o, gs, t, jns, outs, a, k, i, j, p, m));
    } else if breaches(x, st, hs, t, out, ins, outs) {
        let (a, k, i, p) = choose|a: usize, k: int, i: int, p: Pkt| #[trigger]
            breach_end(x, st, hs, t, out, ins, a, k, i, p);
        let w = span_word(p, t.subrange(i + 1, t.len() as int), out);
        assert forall|z: int| 0 <= z < w.len() implies (#[trigger] w[z]).len() == n by {
            if 0 < z < w.len() - 1 {
                assert(w[z] == t[i + z]);
            }
        }
        assert(is_word(n, w));
        assert(breach_end(x, o, gs, t, out, jns, a, k, i, p));
    }
}

/// What is reached does not change when the store grows.
pub proof fn lemma_reached_kept<C: ENFA>(
    x: &Instantiate<C>,
    st: SPPstore,
    o: SPPstore,
    t: Seq<Pkt>,
    a: usize,
    i: int,
    p: Pkt,
)
    requires
        o.wf(),
        st.wf(),
        st.extends(&o),
        x.valid(o),
    ensures
        reached(x, st, t)(a, i, p) == reached(x, o, t)(a, i, p),
{
    let q = State::<Place<C>>::Outer(a);
    x.lemma_states(o);
    if follows(x, st, t, q, i, p) {
        let path = choose|path: Seq<(Place<Instantiate<C>>, Pkt)>| #[trigger]
            is_path(x, st, path) && path[0].0 == x.init() && path.last() == (q, p) && trace_of(
                x,
                path,
            ) == t.take(i + 1);
        lemma_path_store(x, st, o, path);
        assert(is_path(x, o, path));
    }
    if follows(x, o, t, q, i, p) {
        let path = choose|path: Seq<(Place<Instantiate<C>>, Pkt)>| #[trigger]
            is_path(x, o, path) && path[0].0 == x.init() && path.last() == (q, p) && trace_of(
                x,
                path,
            ) == t.take(i + 1);
        lemma_path_store(x, st, o, path);
        assert(is_path(x, st, path));
    }
}

} // verus!
