//! Emptiness, and words of automata.
use vstd::prelude::*;
use vstd::slice::*;
use crate::holes::aut::{
    enfa_lang, is_path, lemma_path_states, listed, moves, run_on, seen, trace_of, Place, StateKey,
    ENFA,
};
use crate::lang::{is_word, packets, Word};
use crate::sp::{Pkt, SP};
use crate::spp::{SPPstore, SPP};
use crate::text::copy_bits;

verus! {

/// Packets at a state, and the packets at another that they come from by a
/// transition.
pub struct Step<S> {
    pub state: S,
    pub diff: SP,
    pub from: Option<(usize, SPP)>,
}

/// A run leads to state `q` with packet `p`.
pub open spec fn arrives<A: ENFA>(a: &A, st: SPPstore, q: Place<A>, p: Pkt) -> bool {
    exists|path: Seq<(Place<A>, Pkt)>| #[trigger]
        is_path(a, st, path) && path[0].0 == a.init() && path.last() == (q, p)
}

/// The automaton accepts some word.
pub open spec fn inhabited<A: ENFA>(a: &A, st: SPPstore) -> bool {
    exists|w: Word| is_word(st.n(), w) && #[trigger] enfa_lang(a, st)(w)
}

/// Packet `p` is listed at state `q`.
pub open spec fn at<S: StateKey>(st: SPPstore, es: Seq<Step<S>>, q: S::M, p: Pkt) -> bool {
    exists|i: int|
        0 <= i < es.len() && (#[trigger] es[i]).state.model() == q && st.sp.mem(es[i].diff, p)
}

/// The entry is of the start state, or its packets come by a transition from
/// those of one of the first `k` entries of `es`.
spec fn grounded<A: ENFA>(
    a: &A,
    o: SPPstore,
    st: SPPstore,
    es: Seq<Step<A::State>>,
    k: int,
    e: Step<A::State>,
) -> bool {
    &&& st.sp.has(e.diff)
    &&& a.is_state(e.state.model())
    &&& match e.from {
        None => e.state.model() == a.init(),
        Some((j, spp)) => {
            &&& j < k
            &&& st.has(spp)
            &&& forall|p: Pkt, x: Pkt|
                #![trigger st.rel(spp, p, x)]
                p.len() == o.n() && x.len() == o.n() && st.rel(spp, p, x) ==> a.step(
                    o,
                    es[j as int].state.model(),
                    p,
                    e.state.model(),
                    x,
                )
            &&& forall|x: Pkt| #[trigger]
                st.sp.mem(e.diff, x) && x.len() == o.n() ==> comes(
                    st,
                    es[j as int].diff,
                    spp,
                    x,
                )
        },
    }
}

/// Packet `x` comes by the relation from a packet of the set.
spec fn comes(st: SPPstore, d: SP, spp: SPP, x: Pkt) -> bool {
    exists|p: Pkt| p.len() == st.n() && #[trigger] st.sp.mem(d, p) && st.rel(spp, p, x)
}

/// Every entry is grounded in earlier ones.
spec fn rooted<A: ENFA>(a: &A, o: SPPstore, st: SPPstore, es: Seq<Step<A::State>>) -> bool {
    forall|i: int| 0 <= i < es.len() ==> grounded(a, o, st, es, i, #[trigger] es[i])
}

/// Every entry of `todo` is grounded in `es`.
spec fn pending<A: ENFA>(
    a: &A,
    o: SPPstore,
    st: SPPstore,
    es: Seq<Step<A::State>>,
    todo: Seq<Step<A::State>>,
) -> bool {
    forall|i: int|
        0 <= i < todo.len() ==> grounded(a, o, st, es, es.len() as int, #[trigger] todo[i])
}

proof fn lemma_grounded_ext<A: ENFA>(
    a: &A,
    o: SPPstore,
    st: SPPstore,
    s0: SPPstore,
    es: Seq<Step<A::State>>,
    fs: Seq<Step<A::State>>,
    k: int,
    l: int,
    e: Step<A::State>,
)
    requires
        s0.wf(),
        st.extends(&s0),
        s0.n() == o.n(),
        grounded(a, o, s0, es, k, e),
        k <= l,
        forall|i: int| 0 <= i < k ==> #[trigger] fs[i] == es[i],
        forall|i: int| 0 <= i < k ==> s0.sp.has((#[trigger] es[i]).diff),
    ensures
        grounded(a, o, st, fs, l, e),
{
    s0.lemma_wf();
    if let Some((j, spp)) = e.from {
        assert(fs[j as int] == es[j as int]);
        assert(s0.sp.has(es[j as int].diff));
        assert forall|x: Pkt| #[trigger] st.sp.mem(e.diff, x) && x.len() == o.n() implies comes(
            st,
            fs[j as int].diff,
            spp,
            x,
        ) by {
            assert(s0.sp.mem(e.diff, x));
            let p = choose|p: Pkt|
                p.len() == s0.n() && #[trigger] s0.sp.mem(es[j as int].diff, p) && s0.rel(
                    spp,
                    p,
                    x,
                );
            assert(st.sp.mem(fs[j as int].diff, p) && st.rel(spp, p, x));
        }
    }
}

/// The lists are kept when the store grows.
proof fn lemma_lists_ext<A: ENFA>(
    a: &A,
    o: SPPstore,
    st: SPPstore,
    s0: SPPstore,
    es: Seq<Step<A::State>>,
    todo: Seq<Step<A::State>>,
)
    requires
        s0.wf(),
        st.extends(&s0),
        s0.n() == o.n(),
        rooted(a, o, s0, es),
        pending(a, o, s0, es, todo),
    ensures
        rooted(a, o, st, es),
        pending(a, o, st, es, todo),
        forall|q: Place<A>, p: Pkt|
            #![trigger at(st, es, q, p)]
            #![trigger at(s0, es, q, p)]
            p.len() == o.n() ==> at(st, es, q, p) == at(s0, es, q, p),
        forall|q: Place<A>, p: Pkt|
            #![trigger at(st, todo, q, p)]
            #![trigger at(s0, todo, q, p)]
            p.len() == o.n() ==> at(st, todo, q, p) == at(s0, todo, q, p),
{
    assert forall|i: int| 0 <= i < es.len() implies s0.sp.has((#[trigger] es[i]).diff) by {
        assert(grounded(a, o, s0, es, i, es[i]));
    }
    assert forall|i: int| 0 <= i < es.len() implies grounded(
        a,
        o,
        st,
        es,
        i,
        #[trigger] es[i],
    ) by {
        lemma_grounded_ext(a, o, st, s0, es, es, i, i, es[i]);
    }
    assert forall|i: int| 0 <= i < todo.len() implies grounded(
        a,
        o,
        st,
        es,
        es.len() as int,
        #[trigger] todo[i],
    ) by {
        lemma_grounded_ext(
            a,
            o,
            st,
            s0,
            es,
            es,
            es.len() as int,
            es.len() as int,
            todo[i],
        );
    }
    assert forall|i: int| 0 <= i < todo.len() implies s0.sp.has((#[trigger] todo[i]).diff) by {
        assert(grounded(a, o, s0, es, es.len() as int, todo[i]));
    }
    lemma_at_ext(st, s0, es);
    lemma_at_ext(st, s0, todo);
}

proof fn lemma_at_ext<S: StateKey>(st: SPPstore, s0: SPPstore, es: Seq<Step<S>>)
    requires
        s0.wf(),
        st.extends(&s0),
        forall|i: int| 0 <= i < es.len() ==> s0.sp.has((#[trigger] es[i]).diff),
    ensures
        forall|q: S::M, p: Pkt|
            #![trigger at(st, es, q, p)]
            #![trigger at(s0, es, q, p)]
            p.len() == s0.n() ==> at(st, es, q, p) == at(s0, es, q, p),
{
    s0.lemma_wf();
    assert forall|q: S::M, p: Pkt|
        #![trigger at(st, es, q, p)]
        #![trigger at(s0, es, q, p)]
        p.len() == s0.n() implies at(st, es, q, p) == at(s0, es, q, p) by {
        assert forall|i: int| 0 <= i < es.len() implies st.sp.mem((#[trigger] es[i]).diff, p)
            == s0.sp.mem(es[i].diff, p) by {}
        if at(st, es, q, p) {
            let i = choose|i: int|
                0 <= i < es.len() && (#[trigger] es[i]).state.model() == q && st.sp.mem(
                    es[i].diff,
                    p,
                );
            assert(s0.sp.mem(es[i].diff, p));
        }
        if at(s0, es, q, p) {
            let i = choose|i: int|
                0 <= i < es.len() && (#[trigger] es[i]).state.model() == q && s0.sp.mem(
                    es[i].diff,
                    p,
                );
            assert(st.sp.mem(es[i].diff, p));
        }
    }
}

proof fn lemma_at_push<S: StateKey>(
    st: SPPstore,
    es: Seq<Step<S>>,
    e: Step<S>,
    q: S::M,
    p: Pkt,
)
    ensures
        at(st, es.push(e), q, p) <==> at(st, es, q, p) || (e.state.model() == q && st.sp.mem(
            e.diff,
            p,
        )),
{
    let fs = es.push(e);
    assert(fs[es.len() as int] == e);
    if at(st, es, q, p) {
        let i = choose|i: int|
            0 <= i < es.len() && (#[trigger] es[i]).state.model() == q && st.sp.mem(es[i].diff, p);
        assert(fs[i] == es[i]);
    }
    if at(st, fs, q, p) && !(e.state.model() == q && st.sp.mem(e.diff, p)) {
        let i = choose|i: int|
            0 <= i < fs.len() && (#[trigger] fs[i]).state.model() == q && st.sp.mem(fs[i].diff, p);
        assert(fs[i] == es[i]);
    }
}

/// What is listed is reached by a run.
proof fn lemma_rooted_arrives<A: ENFA>(
    a: &A,
    o: SPPstore,
    st: SPPstore,
    es: Seq<Step<A::State>>,
    i: int,
    p: Pkt,
)
    requires
        st.extends(&o),
        rooted(a, o, st, es),
        0 <= i < es.len(),
        p.len() == o.n(),
        st.sp.mem(es[i].diff, p),
    ensures
        arrives(a, o, es[i].state.model(), p),
    decreases i,
{
    assert(grounded(a, o, st, es, i, es[i]));
    let q = es[i].state.model();
    match es[i].from {
        None => {
            let path = seq![(q, p)];
            assert(is_path(a, o, path));
            assert(path.last() == (q, p));
        },
        Some((j, spp)) => {
            assert(comes(st, es[j as int].diff, spp, p));
            let y = choose|y: Pkt|
                y.len() == st.n() && #[trigger] st.sp.mem(es[j as int].diff, y) && st.rel(
                    spp,
                    y,
                    p,
                );
            lemma_rooted_arrives(a, o, st, es, j as int, y);
            let z = es[j as int].state.model();
            assert(a.step(o, z, y, q, p));
            lemma_arrives_step(a, o, z, y, q, p);
        },
    }
}

/// A run goes on by a transition.
pub proof fn lemma_arrives_step<A: ENFA>(
    a: &A,
    st: SPPstore,
    q: Place<A>,
    p: Pkt,
    r: Place<A>,
    x: Pkt,
)
    requires
        arrives(a, st, q, p),
        a.step(st, q, p, r, x),
        x.len() == st.n(),
    ensures
        arrives(a, st, r, x),
{
    let path = choose|path: Seq<(Place<A>, Pkt)>| #[trigger]
        is_path(a, st, path) && path[0].0 == a.init() && path.last() == (q, p);
    let more = path.push((r, x));
    assert forall|i: int| 0 <= i < more.len() - 1 implies #[trigger] moves(a, st, more, i) by {
        if i < path.len() - 1 {
            assert(moves(a, st, path, i));
        }
    }
    assert(is_path(a, st, more));
    assert(more.last() == (r, x));
}

/// The automaton accepts a word if some run has an output.
pub proof fn lemma_inhabited<A: ENFA>(a: &A, st: SPPstore)
    ensures
        inhabited(a, st) <==> exists|q: Place<A>, p: Pkt, x: Pkt|
            x.len() == st.n() && #[trigger] arrives(a, st, q, p) && #[trigger] a.out(st, q, p, x),
{
    if inhabited(a, st) {
        let w = choose|w: Word| is_word(st.n(), w) && #[trigger] enfa_lang(a, st)(w);
        let path = choose|path: Seq<(Place<A>, Pkt)>| #[trigger]
            run_on(a, st, a.init(), path, w);
        let (q, p) = path.last();
        assert(arrives(a, st, q, p));
        assert(w[w.len() - 1].len() == st.n());
        assert(a.out(st, q, p, w.last()));
    }
    if exists|q: Place<A>, p: Pkt, x: Pkt|
        x.len() == st.n() && #[trigger] arrives(a, st, q, p) && #[trigger] a.out(st, q, p, x) {
        let (q, p, x) = choose|q: Place<A>, p: Pkt, x: Pkt|
            x.len() == st.n() && #[trigger] arrives(a, st, q, p) && #[trigger] a.out(st, q, p, x);
        let path = choose|path: Seq<(Place<A>, Pkt)>| #[trigger]
            is_path(a, st, path) && path[0].0 == a.init() && path.last() == (q, p);
        lemma_word_of(a, st, path, x);
        assert(enfa_lang(a, st)(trace_of(a, path).push(x)));
    }
}

/// A run with an output has a word.
pub proof fn lemma_word_of<A: ENFA>(a: &A, st: SPPstore, path: Seq<(Place<A>, Pkt)>, x: Pkt)
    requires
        is_path(a, st, path),
        x.len() == st.n(),
        a.out(st, path.last().0, path.last().1, x),
    ensures
        is_word(st.n(), trace_of(a, path).push(x)),
        run_on(a, st, path[0].0, path, trace_of(a, path).push(x)),
{
    let t = trace_of(a, path);
    let w = t.push(x);
    assert forall|i: int| 0 <= i < path.skip(1).len() implies (#[trigger] path.skip(1)[i]).1.len()
        == st.n() by {
        assert(path.skip(1)[i] == path[i + 1]);
    }
    lemma_seen_len(a, st.n(), path.skip(1));
    assert(path[0].1.len() == st.n());
    assert forall|i: int| 0 <= i < w.len() implies (#[trigger] w[i]).len() == st.n() by {
        if 1 <= i < t.len() {
            assert(w[i] == seen(a, path.skip(1))[i - 1]);
        }
    }
    assert(w.drop_last() =~= t);
}

proof fn lemma_seen_len<A: ENFA>(a: &A, n: nat, path: Seq<(Place<A>, Pkt)>)
    requires
        forall|i: int| 0 <= i < path.len() ==> (#[trigger] path[i]).1.len() == n,
    ensures
        forall|i: int| 0 <= i < seen(a, path).len() ==> (#[trigger] seen(a, path)[i]).len() == n,
    decreases path.len(),
{
    if path.len() > 0 {
        let u = path.drop_last();
        assert forall|i: int| 0 <= i < u.len() implies (#[trigger] u[i]).1.len() == n by {
            assert(u[i] == path[i]);
        }
        lemma_seen_len(a, n, u);
        assert(path[path.len() - 1].1.len() == n);
        let (s, t) = (seen(a, path), seen(a, u));
        assert forall|i: int| 0 <= i < s.len() implies (#[trigger] s[i]).len() == n by {
            if i < t.len() {
                assert(s[i] == t[i]);
            }
        }
    }
}

// ---- the search --------------------------------------------------------------------------------

/// The packets listed at a state, or the empty set.
fn lookup<S: StateKey>(done: &Vec<(S, SP)>, q: &S, zero: SP) -> (r: (Option<usize>, SP))
    ensures
        match r.0 {
            Some(i) => i < done@.len() && done@[i as int].0.model() == q.model() && r.1
                == done@[i as int].1,
            None => r.1 == zero && forall|j: int|
                0 <= j < done@.len() ==> (#[trigger] done@[j]).0.model() != q.model(),
        },
{
    let mut i: usize = 0;
    while i < done.len()
        invariant
            i <= done@.len(),
            forall|j: int| 0 <= j < i ==> (#[trigger] done@[j]).0.model() != q.model(),
        decreases done.len() - i,
    {
        if done[i].0.same(q) {
            return (Some(i), done[i].1);
        }
        i = i + 1;
    }
    (None, zero)
}

/// The table has one entry for every state.
pub open spec fn keyed<S: StateKey>(done: Seq<(S, SP)>) -> bool {
    forall|i: int, j: int|
        #![trigger done[i], done[j]]
        0 <= i < j < done.len() ==> done[i].0.model() != done[j].0.model()
}

/// The entry of the table for state `q` has packet `p`.
pub open spec fn holds<S: StateKey>(st: SPPstore, done: Seq<(S, SP)>, q: S::M, p: Pkt) -> bool {
    exists|i: int|
        0 <= i < done.len() && (#[trigger] done[i]).0.model() == q && st.sp.mem(done[i].1, p)
}

/// No entry of the table is empty.
pub open spec fn sets_filled<S: StateKey>(st: SPPstore, done: Seq<(S, SP)>) -> bool {
    forall|i: int| 0 <= i < done.len() ==> (#[trigger] done[i]).1 != st.sp.zero
}

pub open spec fn sets_ok<S: StateKey>(st: SPPstore, done: Seq<(S, SP)>) -> bool {
    forall|i: int| 0 <= i < done.len() ==> st.sp.has((#[trigger] done[i]).1)
}

proof fn lemma_holds_ext<S: StateKey>(st: SPPstore, s0: SPPstore, done: Seq<(S, SP)>)
    requires
        s0.wf(),
        st.extends(&s0),
        sets_ok(s0, done),
    ensures
        sets_ok(st, done),
        forall|q: S::M, p: Pkt|
            #![trigger holds(st, done, q, p)]
            #![trigger holds(s0, done, q, p)]
            p.len() == s0.n() ==> holds(st, done, q, p) == holds(s0, done, q, p),
{
    s0.lemma_wf();
    assert forall|q: S::M, p: Pkt|
        #![trigger holds(st, done, q, p)]
        #![trigger holds(s0, done, q, p)]
        p.len() == s0.n() implies holds(st, done, q, p) == holds(s0, done, q, p) by {
        assert forall|i: int| 0 <= i < done.len() implies st.sp.mem((#[trigger] done[i]).1, p)
            == s0.sp.mem(done[i].1, p) by {}
        if holds(st, done, q, p) {
            let i = choose|i: int|
                0 <= i < done.len() && (#[trigger] done[i]).0.model() == q && st.sp.mem(
                    done[i].1,
                    p,
                );
            assert(s0.sp.mem(done[i].1, p));
        }
        if holds(s0, done, q, p) {
            let i = choose|i: int|
                0 <= i < done.len() && (#[trigger] done[i]).0.model() == q && s0.sp.mem(
                    done[i].1,
                    p,
                );
            assert(st.sp.mem(done[i].1, p));
        }
    }
}

fn sp_difference(store: &mut SPPstore, a: SP, b: SP) -> (r: SP)
    requires
        old(store).wf(),
        old(store).sp.has(a),
        old(store).sp.has(b),
    ensures
        final(store).wf(),
        final(store).extends(old(store)),
        final(store).sp.has(r),
        forall|p: Pkt|
            #![trigger final(store).sp.mem(r, p)]
            p.len() == old(store).n() ==> final(store).sp.mem(r, p) == (old(store).sp.mem(a, p)
                && !old(store).sp.mem(b, p)),
{
    proof {
        store.lemma_wf();
    }
    let r = store.sp.difference(a, b);
    proof {
        store.lemma_sets(old(store));
    }
    r
}

pub(crate) fn sp_union(store: &mut SPPstore, a: SP, b: SP) -> (r: SP)
    requires
        old(store).wf(),
        old(store).sp.has(a),
        old(store).sp.has(b),
    ensures
        final(store).wf(),
        final(store).extends(old(store)),
        final(store).sp.has(r),
        forall|p: Pkt|
            #![trigger final(store).sp.mem(r, p)]
            p.len() == old(store).n() ==> final(store).sp.mem(r, p) == (old(store).sp.mem(a, p)
                || old(store).sp.mem(b, p)),
{
    proof {
        store.lemma_wf();
    }
    let r = store.sp.union(a, b);
    proof {
        store.lemma_sets(old(store));
    }
    r
}

pub(crate) fn sp_intersect(store: &mut SPPstore, a: SP, b: SP) -> (r: SP)
    requires
        old(store).wf(),
        old(store).sp.has(a),
        old(store).sp.has(b),
    ensures
        final(store).wf(),
        final(store).extends(old(store)),
        final(store).sp.has(r),
        forall|p: Pkt|
            #![trigger final(store).sp.mem(r, p)]
            p.len() == old(store).n() ==> final(store).sp.mem(r, p) == (old(store).sp.mem(a, p)
                && old(store).sp.mem(b, p)),
{
    proof {
        store.lemma_wf();
    }
    let r = store.sp.intersect(a, b);
    proof {
        store.lemma_sets(old(store));
    }
    r
}

/// The set of one packet.
pub(crate) fn singleton_sp(store: &mut SPPstore, packet: &[bool]) -> (r: SP)
    requires
        old(store).wf(),
        packet@.len() == old(store).n(),
    ensures
        final(store).wf(),
        final(store).extends(old(store)),
        final(store).sp.has(r),
        forall|p: Pkt|
            #![trigger final(store).sp.mem(r, p)]
            p.len() == old(store).n() ==> (final(store).sp.mem(r, p) <==> p == packet@),
{
    proof {
        store.lemma_wf();
    }
    let r = store.sp.singleton(packet);
    proof {
        store.lemma_sets(old(store));
    }
    r
}

/// Every step from what `es` lists is listed by `es` or by `todo`.
spec fn explored<A: ENFA>(
    a: &A,
    o: SPPstore,
    st: SPPstore,
    es: Seq<Step<A::State>>,
    todo: Seq<Step<A::State>>,
) -> bool {
    forall|q: Place<A>, p: Pkt, r: Place<A>, x: Pkt|
        #![trigger at(st, es, q, p), a.step(o, q, p, r, x)]
        p.len() == o.n() && x.len() == o.n() && at(st, es, q, p) && a.step(o, q, p, r, x) ==> at(
            st,
            es,
            r,
            x,
        ) || at(st, todo, r, x)
}

/// No packet that `es` lists has an output.
spec fn silent<A: ENFA>(a: &A, o: SPPstore, st: SPPstore, es: Seq<Step<A::State>>) -> bool {
    forall|q: Place<A>, p: Pkt, x: Pkt|
        #![trigger at(st, es, q, p), a.out(o, q, p, x)]
        p.len() == o.n() && x.len() == o.n() && at(st, es, q, p) ==> !a.out(o, q, p, x)
}

/// Adds the packets that come from the last entry of `es` by its transitions.
fn spread<A: ENFA>(
    a: &A,
    store: &mut SPPstore,
    es: &Vec<Step<A::State>>,
    todo: &mut Vec<Step<A::State>>,
    Ghost(o): Ghost<SPPstore>,
)
    requires
        old(store).wf(),
        o.wf(),
        old(store).extends(&o),
        a.valid(o),
        es@.len() >= 1,
        rooted(a, o, *old(store), es@),
        pending(a, o, *old(store), es@, old(todo)@),
    ensures
        final(store).wf(),
        final(store).extends(old(store)),
        pending(a, o, *final(store), es@, final(todo)@),
        forall|q: Place<A>, p: Pkt|
            p.len() == o.n() && at(*old(store), old(todo)@, q, p) ==> #[trigger] at(
                *final(store),
                final(todo)@,
                q,
                p,
            ),
        forall|p: Pkt, r: Place<A>, x: Pkt|
            p.len() == o.n() && x.len() == o.n() && old(store).sp.mem(es@.last().diff, p)
                && #[trigger] a.step(o, es@.last().state.model(), p, r, x) ==> at(
                *final(store),
                final(todo)@,
                r,
                x,
            ),
{
    let ghost n = o.n();
    let ghost s0 = *store;
    let ghost t0 = todo@;
    let idx: usize = es.len() - 1;
    let ghost q = es@[idx as int].state.model();
    let ghost d = es@[idx as int].diff;
    proof {
        assert(grounded(a, o, s0, es@, idx as int, es@[idx as int]));
        a.lemma_valid(s0, o);
    }
    let ts = a.transitions(store, &es[idx].state);
    let ghost s1 = *store;
    proof {
        lemma_lists_ext(a, o, s1, s0, es@, t0);
        s0.lemma_wf();
        s1.lemma_wf();
    }
    let mut i: usize = 0;
    while i < ts.len()
        invariant
            store.wf(),
            s0.wf(),
            s1.wf(),
            o.wf(),
            store.extends(&s1),
            s1.extends(&s0),
            s0.extends(&o),
            n == o.n(),
            a.valid(o),
            idx == es@.len() - 1,
            es@.len() >= 1,
            q == es@[idx as int].state.model(),
            d == es@[idx as int].diff,
            s0.sp.has(d),
            forall|k: int|
                0 <= k < ts@.len() ==> s1.has((#[trigger] ts@[k]).0) && a.is_state(
                    ts@[k].1.model(),
                ),
            forall|p: Pkt, r: Place<A>, x: Pkt|
                p.len() == n && x.len() == n ==> #[trigger] a.step(o, q, p, r, x) == listed(
                    s1,
                    ts@,
                    p,
                    r,
                    x,
                ),
            i <= ts@.len(),
            rooted(a, o, *store, es@),
            pending(a, o, *store, es@, todo@),
            forall|r: Place<A>, p: Pkt|
                p.len() == n && at(s0, t0, r, p) ==> #[trigger] at(*store, todo@, r, p),
            forall|k: int, p: Pkt, x: Pkt|
                #![trigger s1.rel(ts@[k].0, p, x)]
                0 <= k < i && p.len() == n && x.len() == n && s0.sp.mem(d, p) && s1.rel(
                    ts@[k].0,
                    p,
                    x,
                ) ==> at(*store, todo@, ts@[k].1.model(), x),
        decreases ts.len() - i,
    {
        let ghost s2 = *store;
        let ghost t1 = todo@;
        let ghost spp = ts@[i as int].0;
        proof {
            assert(s1.has(ts@[i as int].0));
            s0.lemma_wf();
            s1.lemma_wf();
            s2.lemma_wf();
        }
        let reach = store.push(es[idx].diff, ts[i].0);
        let ghost s3 = *store;
        let e = Step { state: ts[i].1.dup(), diff: reach, from: Some((idx, ts[i].0)) };
        proof {
            s3.lemma_wf();
            s3.sp.lemma_nonzero(reach);
            lemma_lists_ext(a, o, s3, s2, es@, t1);
            assert(grounded(a, o, s3, es@, es@.len() as int, e)) by {
                assert forall|p: Pkt, x: Pkt|
                    #![trigger s3.rel(spp, p, x)]
                    p.len() == n && x.len() == n && s3.rel(spp, p, x) implies a.step(
                    o,
                    q,
                    p,
                    e.state.model(),
                    x,
                ) by {
                    assert(s1.rel(ts@[i as int].0, p, x));
                    assert(listed(s1, ts@, p, ts@[i as int].1.model(), x));
                }
                assert forall|x: Pkt| #[trigger]
                    s3.sp.mem(e.diff, x) && x.len() == n implies comes(s3, d, spp, x) by {
                    let p = choose|p: Pkt|
                        #![trigger s2.sp.mem(d, p)]
                        p.len() == n && s2.sp.mem(d, p) && s2.rel(spp, p, x);
                    assert(s3.sp.mem(d, p) && s3.rel(spp, p, x));
                }
            }
        }
        let ghost nonzero = reach != store.sp.zero;
        if reach != store.sp.zero {
            todo.push(e);
        }
        proof {
            if nonzero {
                assert(todo@ =~= t1.push(e));
            }
            assert forall|r: Place<A>, p: Pkt|
                p.len() == n && at(s3, t1, r, p) implies #[trigger] at(s3, todo@, r, p) by {
                lemma_at_push(s3, t1, e, r, p);
            }
            assert forall|r: Place<A>, p: Pkt|
                p.len() == n && at(s0, t0, r, p) implies #[trigger] at(s3, todo@, r, p) by {
                assert(at(s2, t1, r, p));
                assert(at(s3, t1, r, p));
            }
            assert forall|k: int, p: Pkt, x: Pkt|
                #![trigger s1.rel(ts@[k].0, p, x)]
                0 <= k < i + 1 && p.len() == n && x.len() == n && s0.sp.mem(d, p) && s1.rel(
                    ts@[k].0,
                    p,
                    x,
                ) implies at(s3, todo@, ts@[k].1.model(), x) by {
                if k < i {
                    assert(at(s2, t1, ts@[k].1.model(), x));
                    assert(at(s3, t1, ts@[k].1.model(), x));
                } else {
                    assert(s1.sp.mem(d, p));
                    assert(s2.sp.mem(d, p) && s2.rel(spp, p, x));
                    assert(s3.sp.mem(reach, x));
                    lemma_at_push(s3, t1, e, e.state.model(), x);
                }
            }
            assert forall|k: int| 0 <= k < todo@.len() implies grounded(
                a,
                o,
                s3,
                es@,
                es@.len() as int,
                #[trigger] todo@[k],
            ) by {
                if k < t1.len() {
                    assert(todo@[k] == t1[k]);
                }
            }
        }
        i = i + 1;
    }
    proof {
        assert forall|p: Pkt, r: Place<A>, x: Pkt|
            p.len() == n && x.len() == n && s0.sp.mem(es@.last().diff, p) && #[trigger] a.step(
                o,
                es@.last().state.model(),
                p,
                r,
                x,
            ) implies at(*store, todo@, r, x) by {
            assert(listed(s1, ts@, p, r, x));
            let k = choose|k: int|
                0 <= k < ts@.len() && s1.rel((#[trigger] ts@[k]).0, p, x) && ts@[k].1.model() == r;
            assert(s1.rel(ts@[k].0, p, x));
        }
    }
}

/// The result of a search: the packets that were found at each state, one by one
/// and all at once, and the output of the last entry if it has one.
pub struct Found<S> {
    pub steps: Vec<Step<S>>,
    pub done: Vec<(S, SP)>,
    pub output: Option<SPP>,
}

/// The last entry of the search has an output, by the relation `y`.
spec fn with_output<A: ENFA>(
    a: &A,
    o: SPPstore,
    st: SPPstore,
    es: Seq<Step<A::State>>,
    y: SPP,
) -> bool {
    &&& es.len() >= 1
    &&& st.has(y)
    &&& forall|p: Pkt, x: Pkt|
        #![trigger st.rel(y, p, x)]
        p.len() == o.n() && x.len() == o.n() ==> st.rel(y, p, x) == a.out(
            o,
            es.last().state.model(),
            p,
            x,
        )
    &&& exists|p: Pkt, x: Pkt|
        p.len() == o.n() && x.len() == o.n() && #[trigger] st.sp.mem(es.last().diff, p)
            && #[trigger] st.rel(y, p, x)
}

/// The search has found everything, and no output.
spec fn without_output<A: ENFA>(
    a: &A,
    o: SPPstore,
    st: SPPstore,
    es: Seq<Step<A::State>>,
) -> bool {
    &&& explored(a, o, st, es, Seq::empty())
    &&& silent(a, o, st, es)
    &&& forall|p: Pkt| p.len() == o.n() ==> #[trigger] at(st, es, a.init(), p)
}

/// What a search has found.
pub closed spec fn found_ok<A: ENFA>(a: &A, o: SPPstore, st: SPPstore, f: Found<A::State>) -> bool {
    &&& rooted(a, o, st, f.steps@)
    &&& keyed(f.done@)
    &&& sets_ok(st, f.done@)
    &&& sets_filled(st, f.done@)
    &&& forall|q: Place<A>, p: Pkt|
        p.len() == o.n() && #[trigger] holds(st, f.done@, q, p) ==> at(st, f.steps@, q, p)
    &&& f.output is Some ==> with_output(a, o, st, f.steps@, f.output.unwrap())
    &&& f.output is None ==> without_output(a, o, st, f.steps@) && forall|q: Place<A>, p: Pkt|
        p.len() == o.n() && #[trigger] at(st, f.steps@, q, p) ==> holds(st, f.done@, q, p)
}

/// A part of a grounded set of packets is grounded.
proof fn lemma_grounded_part<A: ENFA>(
    a: &A,
    o: SPPstore,
    st: SPPstore,
    es: Seq<Step<A::State>>,
    k: int,
    e: Step<A::State>,
    f: Step<A::State>,
)
    requires
        grounded(a, o, st, es, k, e),
        f.state.model() == e.state.model(),
        f.from == e.from,
        st.sp.has(f.diff),
        forall|p: Pkt|
            p.len() == o.n() && #[trigger] st.sp.mem(f.diff, p) ==> st.sp.mem(e.diff, p),
    ensures
        grounded(a, o, st, es, k, f),
{
    if let Some((j, spp)) = e.from {
        assert forall|x: Pkt| #[trigger] st.sp.mem(f.diff, x) && x.len() == o.n() implies comes(
            st,
            es[j as int].diff,
            spp,
            x,
        ) by {
            assert(st.sp.mem(e.diff, x));
        }
    }
}

/// One more entry keeps the others grounded.
proof fn lemma_rooted_push<A: ENFA>(
    a: &A,
    o: SPPstore,
    st: SPPstore,
    es: Seq<Step<A::State>>,
    todo: Seq<Step<A::State>>,
    f: Step<A::State>,
)
    requires
        st.wf(),
        st.n() == o.n(),
        rooted(a, o, st, es),
        pending(a, o, st, es, todo),
        grounded(a, o, st, es, es.len() as int, f),
    ensures
        rooted(a, o, st, es.push(f)),
        pending(a, o, st, es.push(f), todo),
{
    let fs = es.push(f);
    assert forall|i: int| 0 <= i < es.len() implies st.sp.has((#[trigger] es[i]).diff) by {
        assert(grounded(a, o, st, es, i, es[i]));
    }
    assert(st.extends(&st));
    assert forall|i: int| 0 <= i < fs.len() implies grounded(
        a,
        o,
        st,
        fs,
        i,
        #[trigger] fs[i],
    ) by {
        if i < es.len() {
            assert(fs[i] == es[i]);
            lemma_grounded_ext(a, o, st, st, es, fs, i, i, es[i]);
        } else {
            lemma_grounded_ext(a, o, st, st, es, fs, i, i, f);
        }
    }
    assert forall|i: int| 0 <= i < todo.len() implies grounded(
        a,
        o,
        st,
        fs,
        fs.len() as int,
        #[trigger] todo[i],
    ) by {
        lemma_grounded_ext(
            a,
            o,
            st,
            st,
            es,
            fs,
            es.len() as int,
            fs.len() as int,
            todo[i],
        );
    }
}

/// Sets the entry of a state.
fn put<S: StateKey>(done: &mut Vec<(S, SP)>, pos: Option<usize>, q: S, all: SP)
    requires
        keyed(old(done)@),
        match pos {
            Some(i) => i < old(done)@.len() && old(done)@[i as int].0.model() == q.model(),
            None => forall|j: int|
                0 <= j < old(done)@.len() ==> (#[trigger] old(done)@[j]).0.model() != q.model(),
        },
    ensures
        keyed(final(done)@),
        forall|st: SPPstore|
            sets_ok(st, old(done)@) && st.sp.has(all) ==> #[trigger] sets_ok(st, final(done)@),
        forall|st: SPPstore|
            sets_filled(st, old(done)@) && all != st.sp.zero ==> #[trigger] sets_filled(
                st,
                final(done)@,
            ),
        forall|st: SPPstore, r: S::M, p: Pkt| #[trigger]
            holds(st, final(done)@, r, p) <==> if r == q.model() {
                st.sp.mem(all, p)
            } else {
                holds(st, old(done)@, r, p)
            },
{
    let ghost d0 = done@;
    let at_: usize = match pos {
        Some(i) => {
            done.set(i, (q, all));
            i
        },
        None => {
            let i: usize = done.len();
            done.push((q, all));
            i
        },
    };
    proof {
        let d1 = done@;
        let k = at_ as int;
        assert(d1[k] == (q, all));
        assert forall|i: int| 0 <= i < d1.len() && i != k implies #[trigger] d1[i] == d0[i] by {}
        assert forall|i: int, j: int|
            #![trigger d1[i], d1[j]]
            0 <= i < j < d1.len() implies d1[i].0.model() != d1[j].0.model() by {
            if i != k && j != k {
                assert(d0[i].0.model() != d0[j].0.model());
            } else if i == k {
                if pos is Some {
                    assert(d0[i].0.model() != d0[j].0.model());
                }
            } else {
                assert(d1[i] == d0[i]);
                if pos is Some {
                    assert(d0[i].0.model() != d0[j].0.model());
                }
            }
        }
        assert forall|st: SPPstore| sets_ok(st, d0) && st.sp.has(all) implies #[trigger] sets_ok(
            st,
            d1,
        ) by {
            assert forall|i: int| 0 <= i < d1.len() implies st.sp.has((#[trigger] d1[i]).1) by {
                if i != k {
                    assert(d1[i] == d0[i]);
                    assert(st.sp.has(d0[i].1));
                }
            }
        }
        assert forall|st: SPPstore, r: S::M, p: Pkt| #[trigger] holds(st, d1, r, p) <==> if r
            == q.model() {
            st.sp.mem(all, p)
        } else {
            holds(st, d0, r, p)
        } by {
            if holds(st, d1, r, p) {
                let i = choose|i: int|
                    0 <= i < d1.len() && (#[trigger] d1[i]).0.model() == r && st.sp.mem(
                        d1[i].1,
                        p,
                    );
                if r == q.model() {
                    if i < k {
                        assert(d1[i].0.model() != d1[k].0.model());
                    } else if k < i {
                        assert(d1[k].0.model() != d1[i].0.model());
                    }
                } else {
                    assert(d1[i] == d0[i]);
                }
            }
            if r == q.model() && st.sp.mem(all, p) {
                assert(d1[k].0.model() == r && st.sp.mem(d1[k].1, p));
            }
            if r != q.model() && holds(st, d0, r, p) {
                let i = choose|i: int|
                    0 <= i < d0.len() && (#[trigger] d0[i]).0.model() == r && st.sp.mem(
                        d0[i].1,
                        p,
                    );
                assert(i != k);
                assert(d1[i] == d0[i]);
            }
        }
    }
}

/// Searches the packets that runs bring to the states, until one with an output
/// is found.
pub fn search<A: ENFA>(a: &A, store: &mut SPPstore) -> (r: Found<A::State>)
    requires
        old(store).wf(),
        a.valid(*old(store)),
    ensures
        final(store).wf(),
        final(store).extends(old(store)),
        found_ok(a, *old(store), *final(store), r),
{
    let ghost o = *store;
    let ghost n = o.n();
    proof {
        a.lemma_states(o);
    }
    let q0 = a.start(store);
    proof {
        store.lemma_wf();
        store.sp.lemma_consts();
    }
    let mut steps: Vec<Step<A::State>> = Vec::new();
    let mut done: Vec<(A::State, SP)> = Vec::new();
    let mut todo: Vec<Step<A::State>> = Vec::new();
    todo.push(Step { state: q0, diff: store.sp.one, from: None });
    proof {
        assert forall|p: Pkt| p.len() == n implies #[trigger] at(*store, todo@, a.init(), p) by {
            assert(todo@[0].state.model() == a.init() && store.sp.mem(todo@[0].diff, p));
        }
    }
    while todo.len() > 0
        invariant
            o == *old(store),
            store.wf(),
            o.wf(),
            store.extends(&o),
            a.valid(o),
            n == o.n(),
            rooted(a, o, *store, steps@),
            pending(a, o, *store, steps@, todo@),
            keyed(done@),
            sets_ok(*store, done@),
            sets_filled(*store, done@),
            forall|q: Place<A>, p: Pkt|
                #![trigger holds(*store, done@, q, p)]
                #![trigger at(*store, steps@, q, p)]
                p.len() == n ==> holds(*store, done@, q, p) == at(*store, steps@, q, p),
            explored(a, o, *store, steps@, todo@),
            silent(a, o, *store, steps@),
            forall|p: Pkt|
                p.len() == n ==> #[trigger] at(*store, todo@, a.init(), p) || at(
                    *store,
                    steps@,
                    a.init(),
                    p,
                ),
        decreases usize::MAX - steps.len(), todo.len(),
    {
        let ghost s0 = *store;
        let ghost t0 = todo@;
        let ghost e0 = steps@;
        let ghost d0 = done@;
        let e = todo.pop().unwrap();
        let ghost e1 = e;
        let ghost t1 = todo@;
        proof {
            s0.lemma_wf();
            s0.sp.lemma_consts();
            assert(t0 =~= t1.push(e));
            assert(t0[t0.len() - 1] == e);
            assert(grounded(a, o, s0, e0, e0.len() as int, e));
            assert forall|i: int| 0 <= i < t1.len() implies grounded(
                a,
                o,
                s0,
                e0,
                e0.len() as int,
                #[trigger] t1[i],
            ) by {
                assert(t1[i] == t0[i]);
            }
        }
        let (pos, seen_sp) = lookup(&done, &e.state, store.sp.zero);
        proof {
            assert(s0.sp.has(seen_sp)) by {
                if pos is Some {
                    assert(s0.sp.has(d0[pos.unwrap() as int].1));
                }
            }
            assert forall|p: Pkt| p.len() == n implies #[trigger] s0.sp.mem(seen_sp, p) == at(
                s0,
                e0,
                e1.state.model(),
                p,
            ) by {
                assert(holds(s0, d0, e1.state.model(), p) == at(s0, e0, e1.state.model(), p));
                if s0.sp.mem(seen_sp, p) {
                    let i = pos.unwrap() as int;
                    assert(d0[i].0.model() == e1.state.model() && s0.sp.mem(d0[i].1, p));
                }
                if holds(s0, d0, e1.state.model(), p) {
                    let i = choose|i: int|
                        0 <= i < d0.len() && (#[trigger] d0[i]).0.model() == e1.state.model()
                            && s0.sp.mem(d0[i].1, p);
                    let j = pos.unwrap() as int;
                    if i < j {
                        assert(d0[i].0.model() != d0[j].0.model());
                    } else if j < i {
                        assert(d0[j].0.model() != d0[i].0.model());
                    }
                }
            }
        }
        let diff = sp_difference(store, e.diff, seen_sp);
        let ghost s1 = *store;
        proof {
            s1.lemma_wf();
            s1.sp.lemma_nonzero(diff);
            lemma_lists_ext(a, o, s1, s0, e0, t0);
            lemma_lists_ext(a, o, s1, s0, e0, t1);
            lemma_holds_ext(s1, s0, d0);
            lemma_search_kept(a, o, s1, s0, e0, t0);
            assert forall|q: Place<A>, p: Pkt| #[trigger] at(s1, t0, q, p) <==> at(s1, t1, q, p)
                || (q == e1.state.model() && s1.sp.mem(e1.diff, p)) by {
                lemma_at_push(s1, t1, e1, q, p);
            }
        }
        if diff != store.sp.zero {
            let step = Step { state: e.state.dup(), diff, from: e.from };
            let ghost f = step;
            proof {
                lemma_diffs(a, o, s0, e0);
                lemma_grounded_ext(
                    a,
                    o,
                    s1,
                    s0,
                    e0,
                    e0,
                    e0.len() as int,
                    e0.len() as int,
                    e1,
                );
                assert forall|p: Pkt| p.len() == n && #[trigger] s1.sp.mem(diff, p) implies s1.sp.mem(
                    e1.diff,
                    p,
                ) by {
                    assert(s0.sp.mem(e1.diff, p));
                }
                lemma_grounded_part(a, o, s1, e0, e0.len() as int, e1, f);
                lemma_rooted_push(a, o, s1, e0, t1, f);
                a.lemma_valid(s1, o);
            }
            steps.push(step);
            let ghost f0 = steps@;
            proof {
                assert(f0 =~= e0.push(f));
            }
            let y = a.output(store, &e.state);
            let ghost s2 = *store;
            proof {
                lemma_lists_ext(a, o, s2, s1, f0, t1);
                s2.lemma_wf();
                assert forall|p: Pkt, x: Pkt|
                    #![trigger s2.rel(y, p, x)]
                    p.len() == n && x.len() == n implies s2.rel(y, p, x) == a.out(
                    o,
                    f.state.model(),
                    p,
                    x,
                ) by {
                    assert(a.out(s1, f.state.model(), p, x) == s2.rel(y, p, x));
                }
            }
            let reached = store.push(diff, y);
            let ghost s3 = *store;
            proof {
                s3.lemma_wf();
                s3.sp.lemma_nonzero(reached);
                lemma_lists_ext(a, o, s3, s2, f0, t1);
                lemma_holds_ext(s3, s1, d0);
                lemma_at_ext(s3, s1, e0);
                lemma_at_ext(s3, s1, t0);
                lemma_at_ext(s3, s1, t1);
                assert forall|q: Place<A>, p: Pkt| #[trigger] at(s3, f0, q, p) <==> at(
                    s3,
                    e0,
                    q,
                    p,
                ) || (q == f.state.model() && s3.sp.mem(diff, p)) by {
                    lemma_at_push(s3, e0, f, q, p);
                }
            }
            if reached != store.sp.zero {
                proof {
                    assert(f0.last() == f);
                    assert(exists|p: Pkt, x: Pkt|
                        p.len() == n && x.len() == n && #[trigger] s3.sp.mem(f0.last().diff, p)
                            && #[trigger] s3.rel(y, p, x)) by {
                        let x = choose|x: Pkt| x.len() == n && s3.sp.mem(reached, x);
                        let p = choose|p: Pkt|
                            #![trigger s2.sp.mem(diff, p)]
                            p.len() == n && s2.sp.mem(diff, p) && s2.rel(y, p, x);
                        assert(s3.sp.mem(f0.last().diff, p));
                        assert(s3.rel(y, p, x));
                    }
                    assert forall|p: Pkt, x: Pkt|
                        #![trigger s3.rel(y, p, x)]
                        p.len() == n && x.len() == n implies s3.rel(y, p, x) == a.out(
                        o,
                        f0.last().state.model(),
                        p,
                        x,
                    ) by {
                        assert(s3.rel(y, p, x) == s2.rel(y, p, x));
                    }
                    assert forall|q: Place<A>, p: Pkt|
                        p.len() == n && #[trigger] holds(s3, d0, q, p) implies at(s3, f0, q, p) by {
                        assert(holds(s1, d0, q, p));
                        assert(holds(s0, d0, q, p));
                        assert(at(s0, e0, q, p));
                        assert(at(s1, e0, q, p));
                        assert(at(s3, e0, q, p));
                    }
                }
                let found = Found { steps, done, output: Some(y) };
                proof {
                    assert(with_output(a, o, s3, f0, y));
                }
                return found;
            }
            spread(a, store, &steps, &mut todo, Ghost(o));
            let ghost s4 = *store;
            let ghost t2 = todo@;
            proof {
                s4.lemma_wf();
                lemma_lists_ext(a, o, s4, s3, f0, t1);
                lemma_holds_ext(s4, s3, d0);
                assert(s4.sp.has(seen_sp) && s4.sp.has(diff));
            }
            let all = sp_union(store, seen_sp, diff);
            let ghost s5 = *store;
            proof {
                lemma_lists_ext(a, o, s5, s4, f0, t2);
                lemma_holds_ext(s5, s4, d0);
            }
            put(&mut done, pos, e.state, all);
            proof {
                assert(all != s5.sp.zero) by {
                    s1.sp.lemma_nonzero(diff);
                    let p = choose|p: Pkt| p.len() == s1.sp.n() && s1.sp.mem(diff, p);
                    assert(s4.sp.mem(diff, p));
                    assert(s5.sp.mem(all, p));
                    s5.lemma_wf();
                    s5.sp.lemma_nonzero(all);
                }
                assert(s5.sp.zero == s0.sp.zero);
                assert(sets_filled(s5, d0));
                s5.lemma_wf();
                lemma_at_ext(s5, s3, f0) ;
                lemma_search_step(
                    a,
                    o,
                    s0,
                    s1,
                    s2,
                    s3,
                    s4,
                    s5,
                    e0,
                    f0,
                    t0,
                    t1,
                    t2,
                    e1,
                    f,
                    seen_sp,
                    y,
                    reached,
                );
                assert forall|q: Place<A>, p: Pkt|
                    #![trigger holds(s5, done@, q, p)]
                    #![trigger at(s5, f0, q, p)]
                    p.len() == n implies holds(s5, done@, q, p) == at(s5, f0, q, p) by {
                    assert(at(s5, f0, q, p) == at(s3, f0, q, p));
                    assert(at(s3, e0, q, p) == at(s1, e0, q, p));
                    assert(at(s1, e0, q, p) == at(s0, e0, q, p));
                    assert(holds(s5, d0, q, p) == holds(s4, d0, q, p));
                    assert(holds(s4, d0, q, p) == holds(s3, d0, q, p));
                    assert(holds(s3, d0, q, p) == holds(s1, d0, q, p));
                    assert(holds(s1, d0, q, p) == holds(s0, d0, q, p));
                    assert(holds(s0, d0, q, p) == at(s0, e0, q, p));
                    if q == f.state.model() {
                        assert(s5.sp.mem(all, p) == (s4.sp.mem(seen_sp, p) || s4.sp.mem(diff, p)));
                        assert(s4.sp.mem(seen_sp, p) == s0.sp.mem(seen_sp, p));
                        assert(s4.sp.mem(diff, p) == s3.sp.mem(diff, p));
                        assert(s0.sp.mem(seen_sp, p) == at(s0, e0, q, p));
                    }
                }
            }
        } else {
            proof {
                // every packet was found before
                assert forall|q: Place<A>, p: Pkt|
                    p.len() == n && #[trigger] at(s1, t0, q, p) implies at(s1, t1, q, p) || at(
                    s1,
                    e0,
                    q,
                    p,
                ) by {
                    if !at(s1, t1, q, p) {
                        assert(s1.sp.mem(e1.diff, p));
                        assert(!s1.sp.mem(diff, p));
                        assert(s0.sp.mem(e1.diff, p));
                        assert(s0.sp.mem(seen_sp, p));
                        assert(at(s0, e0, q, p));
                    }
                }
                assert forall|q: Place<A>, p: Pkt, r: Place<A>, x: Pkt|
                    #![trigger at(s1, e0, q, p), a.step(o, q, p, r, x)]
                    p.len() == n && x.len() == n && at(s1, e0, q, p) && a.step(
                        o,
                        q,
                        p,
                        r,
                        x,
                    ) implies at(s1, e0, r, x) || at(s1, t1, r, x) by {
                    assert(at(s1, t0, r, x) ==> at(s1, t1, r, x) || at(s1, e0, r, x));
                }
                assert forall|p: Pkt|
                    p.len() == n implies #[trigger] at(s1, t1, a.init(), p) || at(
                    s1,
                    e0,
                    a.init(),
                    p,
                ) by {
                    assert(at(s0, t0, a.init(), p) || at(s0, e0, a.init(), p));
                    assert(at(s1, t0, a.init(), p) == at(s0, t0, a.init(), p));
                    assert(at(s1, e0, a.init(), p) == at(s0, e0, a.init(), p));
                }
            }
        }
    }
    proof {
        assert(todo@ =~= Seq::<Step<A::State>>::empty());
        assert forall|p: Pkt| p.len() == n implies #[trigger] at(
            *store,
            steps@,
            a.init(),
            p,
        ) by {
            assert(at(*store, todo@, a.init(), p) || at(*store, steps@, a.init(), p));
        }
    }
    Found { steps, done, output: None }
}

proof fn lemma_diffs<A: ENFA>(a: &A, o: SPPstore, st: SPPstore, es: Seq<Step<A::State>>)
    requires
        rooted(a, o, st, es),
    ensures
        forall|i: int| 0 <= i < es.len() ==> st.sp.has((#[trigger] es[i]).diff),
{
    assert forall|i: int| 0 <= i < es.len() implies st.sp.has((#[trigger] es[i]).diff) by {
        assert(grounded(a, o, st, es, i, es[i]));
    }
}

/// What is explored, and silent, stays so when the store grows.
proof fn lemma_search_kept<A: ENFA>(
    a: &A,
    o: SPPstore,
    st: SPPstore,
    s0: SPPstore,
    es: Seq<Step<A::State>>,
    todo: Seq<Step<A::State>>,
)
    requires
        s0.wf(),
        st.extends(&s0),
        s0.n() == o.n(),
        rooted(a, o, s0, es),
        pending(a, o, s0, es, todo),
        explored(a, o, s0, es, todo),
        silent(a, o, s0, es),
    ensures
        explored(a, o, st, es, todo),
        silent(a, o, st, es),
{
    lemma_lists_ext(a, o, st, s0, es, todo);
    assert forall|q: Place<A>, p: Pkt, r: Place<A>, x: Pkt|
        #![trigger at(st, es, q, p), a.step(o, q, p, r, x)]
        p.len() == o.n() && x.len() == o.n() && at(st, es, q, p) && a.step(
            o,
            q,
            p,
            r,
            x,
        ) implies at(st, es, r, x) || at(st, todo, r, x) by {
        assert(at(s0, es, q, p));
        assert(at(s0, es, r, x) || at(s0, todo, r, x));
    }
    assert forall|q: Place<A>, p: Pkt, x: Pkt|
        #![trigger at(st, es, q, p), a.out(o, q, p, x)]
        p.len() == o.n() && x.len() == o.n() && at(st, es, q, p) implies !a.out(o, q, p, x) by {
        assert(at(s0, es, q, p));
    }
}

/// One round of the search: packets without an output are found, and followed.
proof fn lemma_search_step<A: ENFA>(
    a: &A,
    o: SPPstore,
    s0: SPPstore,
    s1: SPPstore,
    s2: SPPstore,
    s3: SPPstore,
    s4: SPPstore,
    s5: SPPstore,
    e0: Seq<Step<A::State>>,
    f0: Seq<Step<A::State>>,
    t0: Seq<Step<A::State>>,
    t1: Seq<Step<A::State>>,
    t2: Seq<Step<A::State>>,
    e: Step<A::State>,
    f: Step<A::State>,
    seen_sp: SP,
    y: SPP,
    reached: SP,
)
    requires
        o.wf(),
        s0.wf(),
        s1.wf(),
        s2.wf(),
        s3.wf(),
        s4.wf(),
        s0.n() == o.n(),
        s1.extends(&s0),
        s2.extends(&s1),
        s3.extends(&s2),
        s4.extends(&s3),
        s5.extends(&s4),
        f0 == e0.push(f),
        t0 == t1.push(e),
        f.state.model() == e.state.model(),
        s0.sp.has(e.diff),
        s0.sp.has(seen_sp),
        s1.sp.has(f.diff),
        s2.has(y),
        s3.sp.has(reached),
        reached == s3.sp.zero,
        rooted(a, o, s1, e0),
        pending(a, o, s1, e0, t0),
        rooted(a, o, s3, f0),
        pending(a, o, s3, f0, t1),
        rooted(a, o, s4, f0),
        pending(a, o, s4, f0, t2),
        explored(a, o, s1, e0, t0),
        silent(a, o, s1, e0),
        forall|p: Pkt|
            p.len() == o.n() ==> #[trigger] at(s0, t0, a.init(), p) || at(s0, e0, a.init(), p),
        rooted(a, o, s0, e0),
        pending(a, o, s0, e0, t0),
        forall|p: Pkt|
            p.len() == o.n() ==> #[trigger] s0.sp.mem(seen_sp, p) == at(
                s0,
                e0,
                e.state.model(),
                p,
            ),
        forall|p: Pkt|
            #![trigger s1.sp.mem(f.diff, p)]
            p.len() == o.n() ==> s1.sp.mem(f.diff, p) == (s0.sp.mem(e.diff, p) && !s0.sp.mem(
                seen_sp,
                p,
            )),
        forall|p: Pkt, x: Pkt|
            #![trigger s2.rel(y, p, x)]
            p.len() == o.n() && x.len() == o.n() ==> s2.rel(y, p, x) == a.out(
                o,
                f.state.model(),
                p,
                x,
            ),
        forall|x: Pkt|
            #![trigger s3.sp.mem(reached, x)]
            x.len() == o.n() ==> (s3.sp.mem(reached, x) <==> exists|p: Pkt|
                #![trigger s2.sp.mem(f.diff, p)]
                p.len() == o.n() && s2.sp.mem(f.diff, p) && s2.rel(y, p, x)),
        forall|q: Place<A>, p: Pkt|
            p.len() == o.n() && at(s3, t1, q, p) ==> #[trigger] at(s4, t2, q, p),
        forall|p: Pkt, r: Place<A>, x: Pkt|
            p.len() == o.n() && x.len() == o.n() && s3.sp.mem(f.diff, p) && #[trigger] a.step(
                o,
                f.state.model(),
                p,
                r,
                x,
            ) ==> at(s4, t2, r, x),
    ensures
        explored(a, o, s5, f0, t2),
        silent(a, o, s5, f0),
        forall|p: Pkt|
            p.len() == o.n() ==> #[trigger] at(s5, t2, a.init(), p) || at(s5, f0, a.init(), p),
{
    let n = o.n();
    s0.lemma_wf();
    s1.lemma_wf();
    s2.lemma_wf();
    s3.lemma_wf();
    s3.sp.lemma_consts();
    lemma_diffs(a, o, s1, e0);
    lemma_lists_ext(a, o, s1, s0, e0, t0);
    lemma_lists_ext(a, o, s5, s1, e0, t0);
    lemma_lists_ext(a, o, s4, s3, f0, t1);
    lemma_lists_ext(a, o, s5, s4, f0, t1);
    lemma_lists_ext(a, o, s5, s4, f0, t2);
    // what was to be found is found, or still to be found
    assert forall|q: Place<A>, p: Pkt|
        p.len() == n && #[trigger] at(s5, t0, q, p) implies at(s5, t2, q, p) || at(
        s5,
        f0,
        q,
        p,
    ) by {
        lemma_at_push(s5, t1, e, q, p);
        lemma_at_push(s5, e0, f, q, p);
        if at(s5, t1, q, p) {
            assert(at(s4, t1, q, p));
            assert(at(s3, t1, q, p));
            assert(at(s4, t2, q, p));
        } else {
            assert(s5.sp.mem(e.diff, p));
            assert(s0.sp.mem(e.diff, p));
            if s0.sp.mem(seen_sp, p) {
                assert(at(s0, e0, q, p));
                assert(at(s1, e0, q, p));
                assert(at(s5, e0, q, p));
            } else {
                assert(s1.sp.mem(f.diff, p));
                assert(s5.sp.mem(f.diff, p));
            }
        }
    }
    assert forall|q: Place<A>, p: Pkt|
        p.len() == n && #[trigger] at(s5, e0, q, p) implies at(s5, f0, q, p) by {
        lemma_at_push(s5, e0, f, q, p);
    }
    assert forall|q: Place<A>, p: Pkt, r: Place<A>, x: Pkt|
        #![trigger at(s5, f0, q, p), a.step(o, q, p, r, x)]
        p.len() == n && x.len() == n && at(s5, f0, q, p) && a.step(o, q, p, r, x) implies at(
        s5,
        f0,
        r,
        x,
    ) || at(s5, t2, r, x) by {
        lemma_at_push(s5, e0, f, q, p);
        if at(s5, e0, q, p) {
            assert(at(s1, e0, q, p));
            assert(at(s1, e0, r, x) || at(s1, t0, r, x));
            assert(at(s5, e0, r, x) || at(s5, t0, r, x));
        } else {
            assert(s5.sp.mem(f.diff, p));
            assert(s3.sp.mem(f.diff, p));
            assert(at(s4, t2, r, x));
            assert(at(s5, t2, r, x));
        }
    }
    assert forall|q: Place<A>, p: Pkt, x: Pkt|
        #![trigger at(s5, f0, q, p), a.out(o, q, p, x)]
        p.len() == n && x.len() == n && at(s5, f0, q, p) implies !a.out(o, q, p, x) by {
        lemma_at_push(s5, e0, f, q, p);
        if at(s5, e0, q, p) {
            assert(at(s1, e0, q, p));
        } else if a.out(o, q, p, x) {
            assert(s5.sp.mem(f.diff, p));
            assert(s2.sp.mem(f.diff, p));
            assert(s2.rel(y, p, x));
            assert(s3.sp.mem(reached, x));
        }
    }
    assert forall|p: Pkt| p.len() == n implies #[trigger] at(s5, t2, a.init(), p) || at(
        s5,
        f0,
        a.init(),
        p,
    ) by {
        assert(at(s0, t0, a.init(), p) || at(s0, e0, a.init(), p));
        assert(at(s1, t0, a.init(), p) || at(s1, e0, a.init(), p));
        assert(at(s5, t0, a.init(), p) || at(s5, e0, a.init(), p));
    }
}

/// A run with packets as vectors.
pub open spec fn path_of<S: StateKey>(path: Seq<(S, Vec<bool>)>) -> Seq<(S::M, Pkt)> {
    path.map_values(|e: (S, Vec<bool>)| (e.0.model(), e.1@))
}

/// Every closed search finds what runs bring.
proof fn lemma_explored_path<A: ENFA>(
    a: &A,
    o: SPPstore,
    st: SPPstore,
    es: Seq<Step<A::State>>,
    path: Seq<(Place<A>, Pkt)>,
    i: int,
)
    requires
        without_output(a, o, st, es),
        is_path(a, o, path),
        path[0].0 == a.init(),
        0 <= i < path.len(),
    ensures
        at(st, es, path[i].0, path[i].1),
    decreases i,
{
    assert(path[0].1.len() == o.n());
    if i > 0 {
        lemma_explored_path(a, o, st, es, path, i - 1);
        assert(moves(a, o, path, i - 1));
        assert(path[i - 1].1.len() == o.n() && path[i].1.len() == o.n());
        assert(at(st, es, path[i].0, path[i].1) || at(
            st,
            Seq::<Step<A::State>>::empty(),
            path[i].0,
            path[i].1,
        ));
    }
}

/// A search without an output shows that there is none.
proof fn lemma_search_empty<A: ENFA>(
    a: &A,
    o: SPPstore,
    st: SPPstore,
    es: Seq<Step<A::State>>,
)
    requires
        st.extends(&o),
        rooted(a, o, st, es),
        without_output(a, o, st, es),
    ensures
        !inhabited(a, o),
        forall|q: Place<A>, p: Pkt|
            p.len() == o.n() ==> (#[trigger] at(st, es, q, p) <==> arrives(a, o, q, p)),
{
    assert forall|q: Place<A>, p: Pkt| p.len() == o.n() implies (#[trigger] at(st, es, q, p)
        <==> arrives(a, o, q, p)) by {
        if at(st, es, q, p) {
            let i = choose|i: int|
                0 <= i < es.len() && (#[trigger] es[i]).state.model() == q && st.sp.mem(
                    es[i].diff,
                    p,
                );
            lemma_rooted_arrives(a, o, st, es, i, p);
        }
        if arrives(a, o, q, p) {
            let path = choose|path: Seq<(Place<A>, Pkt)>| #[trigger]
                is_path(a, o, path) && path[0].0 == a.init() && path.last() == (q, p);
            lemma_explored_path(a, o, st, es, path, path.len() - 1);
        }
    }
    lemma_inhabited(a, o);
    if inhabited(a, o) {
        let (q, p, x) = choose|q: Place<A>, p: Pkt, x: Pkt|
            x.len() == o.n() && #[trigger] arrives(a, o, q, p) && #[trigger] a.out(o, q, p, x);
        let path = choose|path: Seq<(Place<A>, Pkt)>| #[trigger]
            is_path(a, o, path) && path[0].0 == a.init() && path.last() == (q, p);
        assert(path[path.len() - 1].1.len() == o.n());
        assert(at(st, es, q, p));
    }
}

/// A search with an output shows a word.
proof fn lemma_search_output<A: ENFA>(
    a: &A,
    o: SPPstore,
    st: SPPstore,
    es: Seq<Step<A::State>>,
    y: SPP,
)
    requires
        st.extends(&o),
        rooted(a, o, st, es),
        with_output(a, o, st, es, y),
    ensures
        inhabited(a, o),
{
    let (p, x) = choose|p: Pkt, x: Pkt|
        p.len() == o.n() && x.len() == o.n() && #[trigger] st.sp.mem(es.last().diff, p)
            && #[trigger] st.rel(y, p, x);
    lemma_rooted_arrives(a, o, st, es, es.len() - 1, p);
    assert(a.out(o, es.last().state.model(), p, x));
    lemma_inhabited(a, o);
}

/// Whether the automaton accepts no word.
pub fn is_empty<A: ENFA>(a: &A, store: &mut SPPstore) -> (b: bool)
    requires
        old(store).wf(),
        a.valid(*old(store)),
    ensures
        final(store).wf(),
        final(store).extends(old(store)),
        b <==> !inhabited(a, *old(store)),
{
    let ghost o = *store;
    let found = search(a, store);
    let empty = found.output.is_none();
    proof {
        if empty {
            lemma_search_empty(a, o, *store, found.steps@);
        } else {
            lemma_search_output(a, o, *store, found.steps@, found.output.unwrap());
        }
    }
    empty
}

/// An automaton that does not go on from packets that are listed for its states.
pub struct Beyond<'a, A: ENFA> {
    pub inner: &'a A,
    pub known: &'a Vec<(A::State, SP)>,
}

impl<'a, A: ENFA> Beyond<'a, A> {
    /// The pairs of packets whose first is not listed for the state.
    fn guard(&self, store: &mut SPPstore, q: &A::State) -> (g: SPP)
        requires
            old(store).wf(),
            self.valid(*old(store)),
        ensures
            final(store).wf(),
            final(store).extends(old(store)),
            final(store).has(g),
            forall|p: Pkt, x: Pkt|
                #![trigger final(store).rel(g, p, x)]
                p.len() == old(store).n() && x.len() == old(store).n() ==> final(store).rel(g, p, x)
                    == !holds(*old(store), self.known@, q.model(), p),
    {
        let ghost o = *store;
        let ghost d = self.known@;
        proof {
            o.lemma_wf();
            o.sp.lemma_consts();
        }
        let (pos, seen_sp) = lookup(self.known, q, store.sp.zero);
        proof {
            if pos is Some {
                assert(o.sp.has(d[pos.unwrap() as int].1));
            }
            assert forall|p: Pkt| p.len() == o.n() implies #[trigger] o.sp.mem(seen_sp, p) == holds(
                o,
                d,
                q.model(),
                p,
            ) by {
                if o.sp.mem(seen_sp, p) {
                    let i = pos.unwrap() as int;
                    assert(d[i].0.model() == q.model() && o.sp.mem(d[i].1, p));
                }
                if holds(o, d, q.model(), p) {
                    let i = choose|i: int|
                        0 <= i < d.len() && (#[trigger] d[i]).0.model() == q.model() && o.sp.mem(
                            d[i].1,
                            p,
                        );
                    let j = pos.unwrap() as int;
                    if i < j {
                        assert(d[i].0.model() != d[j].0.model());
                    } else if j < i {
                        assert(d[j].0.model() != d[i].0.model());
                    }
                }
            }
        }
        let all = store.sp.one;
        let rest = sp_difference(store, all, seen_sp);
        let ghost s1 = *store;
        let g = store.ibwd(rest);
        proof {
            assert forall|p: Pkt, x: Pkt|
                #![trigger store.rel(g, p, x)]
                p.len() == o.n() && x.len() == o.n() implies store.rel(g, p, x) == !holds(
                o,
                d,
                q.model(),
                p,
            ) by {
                assert(s1.sp.mem(rest, p) == (o.sp.mem(all, p) && !o.sp.mem(seen_sp, p)));
            }
        }
        g
    }
}

impl<'a, A: ENFA> ENFA for Beyond<'a, A> {
    type State = A::State;

    open spec fn valid(&self, st: SPPstore) -> bool {
        self.inner.valid(st) && keyed(self.known@) && sets_ok(st, self.known@)
    }

    open spec fn is_state(&self, q: Place<Self>) -> bool {
        self.inner.is_state(q)
    }

    open spec fn init(&self) -> Place<Self> {
        self.inner.init()
    }

    open spec fn vis(&self, q: Place<Self>) -> bool {
        self.inner.vis(q)
    }

    open spec fn step(&self, st: SPPstore, q: Place<Self>, p: Pkt, r: Place<Self>, x: Pkt) -> bool {
        self.inner.step(st, q, p, r, x) && !holds(st, self.known@, q, p)
    }

    open spec fn out(&self, st: SPPstore, q: Place<Self>, p: Pkt, x: Pkt) -> bool {
        self.inner.out(st, q, p, x) && !holds(st, self.known@, q, p)
    }

    proof fn lemma_valid(&self, st: SPPstore, o: SPPstore) {
        self.inner.lemma_valid(st, o);
        lemma_holds_ext(st, o, self.known@);
    }

    proof fn lemma_states(&self, st: SPPstore) {
        self.inner.lemma_states(st);
    }

    fn start(&self, store: &mut SPPstore) -> (q: Self::State) {
        self.inner.start(store)
    }

    fn is_visible(&self, store: &mut SPPstore, q: &Self::State) -> (b: bool) {
        self.inner.is_visible(store, q)
    }

    fn transitions(&self, store: &mut SPPstore, q: &Self::State) -> (ts: Vec<(SPP, Self::State)>) {
        let ghost o = *store;
        let ghost n = o.n();
        let g = self.guard(store, q);
        let ghost s1 = *store;
        proof {
            self.inner.lemma_valid(s1, o);
        }
        let all = self.inner.transitions(store, q);
        let ghost s2 = *store;
        let mut ts: Vec<(SPP, A::State)> = Vec::new();
        let mut i: usize = 0;
        while i < all.len()
            invariant
                s2.wf(),
                store.wf(),
                store.extends(&s2),
                s2.n() == n,
                s2.has(g),
                i <= all@.len(),
                forall|j: int|
                    0 <= j < all@.len() ==> s2.has((#[trigger] all@[j]).0) && self.inner.is_state(
                        all@[j].1.model(),
                    ),
                ts@.len() == i,
                forall|j: int|
                    0 <= j < i ==> store.has((#[trigger] ts@[j]).0) && ts@[j].1.model()
                        == all@[j].1.model(),
                forall|j: int, p: Pkt, x: Pkt|
                    #![trigger store.rel(ts@[j].0, p, x)]
                    0 <= j < i && p.len() == n && x.len() == n ==> store.rel(ts@[j].0, p, x) == (
                    s2.rel(all@[j].0, p, x) && s2.rel(g, p, x)),
            decreases all.len() - i,
        {
            let ghost s3 = *store;
            let ghost t0 = ts@;
            assert(s2.has(all@[i as int].0));
            let both = store.intersect(all[i].0, g);
            ts.push((both, all[i].1.dup()));
            proof {
                let st = *store;
                assert forall|j: int| 0 <= j < i + 1 implies st.has((#[trigger] ts@[j]).0)
                    && ts@[j].1.model() == all@[j].1.model() by {
                    if j < i {
                        assert(ts@[j] == t0[j]);
                        assert(s3.has(t0[j].0));
                    }
                }
                assert forall|j: int, p: Pkt, x: Pkt|
                    #![trigger st.rel(ts@[j].0, p, x)]
                    0 <= j < i + 1 && p.len() == n && x.len() == n implies st.rel(ts@[j].0, p, x)
                    == (s2.rel(all@[j].0, p, x) && s2.rel(g, p, x)) by {
                    if j < i {
                        assert(ts@[j] == t0[j]);
                        assert(s3.has(t0[j].0));
                        assert(s3.rel(t0[j].0, p, x) == st.rel(t0[j].0, p, x));
                    } else {
                        assert(s3.rel(all@[j].0, p, x) == s2.rel(all@[j].0, p, x));
                        assert(s3.rel(g, p, x) == s2.rel(g, p, x));
                    }
                }
            }
            i = i + 1;
        }
        proof {
            let st = *store;
            let m0 = q.model();
            assert forall|j: int| 0 <= j < ts@.len() implies st.has((#[trigger] ts@[j]).0)
                && self.is_state(ts@[j].1.model()) by {
                assert(self.inner.is_state(all@[j].1.model()));
            }
            assert forall|p: Pkt, r: Place<Self>, x: Pkt|
                #![trigger self.step(o, m0, p, r, x)]
                #![trigger listed(st, ts@, p, r, x)]
                p.len() == n && x.len() == n implies self.step(o, m0, p, r, x) == listed(
                st,
                ts@,
                p,
                r,
                x,
            ) by {
                assert(self.inner.step(s1, m0, p, r, x) == listed(s2, all@, p, r, x));
                assert(self.inner.step(s1, m0, p, r, x) == self.inner.step(o, m0, p, r, x));
                assert(s2.rel(g, p, x) == s1.rel(g, p, x));
                if listed(s2, all@, p, r, x) && s2.rel(g, p, x) {
                    let j = choose|j: int|
                        0 <= j < all@.len() && s2.rel((#[trigger] all@[j]).0, p, x)
                            && all@[j].1.model() == r;
                    assert(st.rel(ts@[j].0, p, x) && ts@[j].1.model() == r);
                }
                if listed(st, ts@, p, r, x) {
                    let j = choose|j: int|
                        0 <= j < ts@.len() && st.rel((#[trigger] ts@[j]).0, p, x)
                            && ts@[j].1.model() == r;
                    assert(s2.rel(all@[j].0, p, x) && all@[j].1.model() == r);
                }
            }
        }
        ts
    }

    fn output(&self, store: &mut SPPstore, q: &Self::State) -> (y: SPP) {
        let ghost o = *store;
        let g = self.guard(store, q);
        let ghost s1 = *store;
        proof {
            self.inner.lemma_valid(s1, o);
        }
        let z = self.inner.output(store, q);
        let ghost s2 = *store;
        let y = store.intersect(z, g);
        proof {
            assert forall|p: Pkt, x: Pkt|
                #![trigger self.out(o, q.model(), p, x)]
                #![trigger store.rel(y, p, x)]
                p.len() == o.n() && x.len() == o.n() implies self.out(o, q.model(), p, x)
                == store.rel(y, p, x) by {
                assert(self.inner.out(s1, q.model(), p, x) == s2.rel(z, p, x));
                assert(self.inner.out(s1, q.model(), p, x) == self.inner.out(o, q.model(), p, x));
                assert(s2.rel(g, p, x) == s1.rel(g, p, x));
            }
        }
        y
    }
}

/// Where nothing is listed, the automaton goes on as it is.
pub proof fn law_beyond_none<'a, A: ENFA>(b: Beyond<'a, A>, st: SPPstore)
    requires
        b.known@.len() == 0,
    ensures
        inhabited(&b, st) == inhabited(b.inner, st),
        forall|q: Place<A>, p: Pkt| #[trigger]
            arrives(&b, st, q, p) == arrives(b.inner, st, q, p),
{
    let a = b.inner;
    assert forall|path: Seq<(Place<A>, Pkt)>| #[trigger]
        is_path(&b, st, path) == is_path(a, st, path) by {
        if is_path(&b, st, path) {
            assert forall|i: int| 0 <= i < path.len() - 1 implies #[trigger] moves(
                a,
                st,
                path,
                i,
            ) by {
                assert(moves(&b, st, path, i));
            }
        }
        if is_path(a, st, path) {
            assert forall|i: int| 0 <= i < path.len() - 1 implies #[trigger] moves(
                &b,
                st,
                path,
                i,
            ) by {
                assert(moves(a, st, path, i));
            }
        }
    }
    assert forall|q: Place<A>, p: Pkt| #[trigger] arrives(&b, st, q, p) == arrives(a, st, q, p) by {
        if arrives(&b, st, q, p) {
            let path = choose|path: Seq<(Place<A>, Pkt)>| #[trigger]
                is_path(&b, st, path) && path[0].0 == b.init() && path.last() == (q, p);
            assert(is_path(a, st, path));
        }
        if arrives(a, st, q, p) {
            let path = choose|path: Seq<(Place<A>, Pkt)>| #[trigger]
                is_path(a, st, path) && path[0].0 == a.init() && path.last() == (q, p);
            assert(is_path(&b, st, path));
        }
    }
    assert forall|w: Word| #[trigger] enfa_lang(&b, st)(w) == enfa_lang(a, st)(w) by {
        if enfa_lang(&b, st)(w) {
            let path = choose|path: Seq<(Place<A>, Pkt)>| #[trigger]
                run_on(&b, st, b.init(), path, w);
            lemma_beyond_seen(b, path.skip(1));
            assert(is_path(a, st, path));
            assert(run_on(a, st, a.init(), path, w));
        }
        if enfa_lang(a, st)(w) {
            let path = choose|path: Seq<(Place<A>, Pkt)>| #[trigger]
                run_on(a, st, a.init(), path, w);
            lemma_beyond_seen(b, path.skip(1));
            assert(is_path(&b, st, path));
            assert(run_on(&b, st, b.init(), path, w));
        }
    }
    if inhabited(&b, st) {
        let w = choose|w: Word| is_word(st.n(), w) && #[trigger] enfa_lang(&b, st)(w);
        assert(enfa_lang(a, st)(w));
    }
    if inhabited(a, st) {
        let w = choose|w: Word| is_word(st.n(), w) && #[trigger] enfa_lang(a, st)(w);
        assert(enfa_lang(&b, st)(w));
    }
}

proof fn lemma_beyond_seen<'a, A: ENFA>(b: Beyond<'a, A>, path: Seq<(Place<A>, Pkt)>)
    ensures
        seen(&b, path) == seen(b.inner, path),
    decreases path.len(),
{
    if path.len() > 0 {
        lemma_beyond_seen(b, path.drop_last());
    }
}

/// The entries of both tables.
fn absorb<S: StateKey>(store: &mut SPPstore, known: &mut Vec<(S, SP)>, more: &Vec<(S, SP)>)
    requires
        old(store).wf(),
        keyed(old(known)@),
        sets_ok(*old(store), old(known)@),
        sets_ok(*old(store), more@),
        sets_filled(*old(store), more@),
    ensures
        final(store).wf(),
        final(store).extends(old(store)),
        keyed(final(known)@),
        sets_ok(*final(store), final(known)@),
        sets_filled(*old(store), old(known)@) ==> sets_filled(*final(store), final(known)@),
        forall|q: S::M, p: Pkt|
            #![trigger holds(*final(store), final(known)@, q, p)]
            p.len() == old(store).n() ==> holds(*final(store), final(known)@, q, p) == (holds(
                *old(store),
                old(known)@,
                q,
                p,
            ) || holds(*old(store), more@, q, p)),
{
    let ghost o = *store;
    let ghost n = o.n();
    let ghost k0 = known@;
    let ghost f0 = sets_filled(o, k0);
    let mut i: usize = 0;
    proof {
        assert(more@.take(0) =~= Seq::<(S, SP)>::empty());
    }
    while i < more.len()
        invariant
            o.wf(),
            store.wf(),
            store.extends(&o),
            n == o.n(),
            sets_ok(o, more@),
            sets_filled(o, more@),
            i <= more@.len(),
            keyed(known@),
            sets_ok(*store, known@),
            f0 ==> sets_filled(*store, known@),
            forall|q: S::M, p: Pkt|
                #![trigger holds(*store, known@, q, p)]
                p.len() == n ==> holds(*store, known@, q, p) == (holds(o, k0, q, p) || holds(
                    o,
                    more@.take(i as int),
                    q,
                    p,
                )),
        decreases more.len() - i,
    {
        let ghost s0 = *store;
        let ghost k1 = known@;
        let ghost t = more@[i as int];
        proof {
            s0.lemma_wf();
            s0.sp.lemma_consts();
            assert(o.sp.has(t.1) && t.1 != o.sp.zero);
            assert(more@.take(i + 1) =~= more@.take(i as int).push(t));
        }
        let (pos, had) = lookup(known, &more[i].0, store.sp.zero);
        proof {
            if pos is Some {
                assert(s0.sp.has(k1[pos.unwrap() as int].1));
            }
        }
        let all = sp_union(store, had, more[i].1);
        let ghost s1 = *store;
        proof {
            lemma_holds_ext(s1, s0, k1);
            o.lemma_wf();
            o.sp.lemma_nonzero(t.1);
            let y = choose|y: Pkt| y.len() == o.sp.n() && o.sp.mem(t.1, y);
            assert(s0.sp.mem(t.1, y));
            assert(s1.sp.mem(all, y));
            s1.lemma_wf();
            s1.sp.lemma_nonzero(all);
        }
        put(known, pos, more[i].0.dup(), all);
        proof {
            if f0 {
                assert(sets_filled(s1, k1));
            }
            assert forall|q: S::M, p: Pkt|
                #![trigger holds(s1, known@, q, p)]
                p.len() == n implies holds(s1, known@, q, p) == (holds(o, k0, q, p) || holds(
                o,
                more@.take(i + 1),
                q,
                p,
            )) by {
                let u = more@.take(i as int);
                let u1 = more@.take(i + 1);
                assert(holds(s0, k1, q, p) == (holds(o, k0, q, p) || holds(o, u, q, p)));
                assert(holds(s1, k1, q, p) == holds(s0, k1, q, p));
                assert(holds(o, u1, q, p) == (holds(o, u, q, p) || (t.0.model() == q && o.sp.mem(
                    t.1,
                    p,
                )))) by {
                    assert(u1[i as int] == t);
                    if holds(o, u, q, p) {
                        let j = choose|j: int|
                            0 <= j < u.len() && (#[trigger] u[j]).0.model() == q && o.sp.mem(
                                u[j].1,
                                p,
                            );
                        assert(u1[j] == u[j]);
                    }
                    if holds(o, u1, q, p) {
                        let j = choose|j: int|
                            0 <= j < u1.len() && (#[trigger] u1[j]).0.model() == q && o.sp.mem(
                                u1[j].1,
                                p,
                            );
                        if j < i {
                            assert(u[j] == u1[j]);
                        }
                    }
                }
                if q == t.0.model() {
                    assert(s1.sp.mem(all, p) == (s0.sp.mem(had, p) || s0.sp.mem(t.1, p)));
                    assert(s0.sp.mem(t.1, p) == o.sp.mem(t.1, p));
                    assert(s0.sp.mem(had, p) == holds(s0, k1, q, p)) by {
                        if s0.sp.mem(had, p) {
                            let j = pos.unwrap() as int;
                            assert(k1[j].0.model() == q && s0.sp.mem(k1[j].1, p));
                        }
                        if holds(s0, k1, q, p) {
                            let j = choose|j: int|
                                0 <= j < k1.len() && (#[trigger] k1[j]).0.model() == q
                                    && s0.sp.mem(k1[j].1, p);
                            let h = pos.unwrap() as int;
                            if j < h {
                                assert(k1[j].0.model() != k1[h].0.model());
                            } else if h < j {
                                assert(k1[h].0.model() != k1[j].0.model());
                            }
                        }
                    }
                }
            }
        }
        i = i + 1;
    }
    proof {
        assert(more@.take(i as int) =~= more@);
    }
}

/// Whether the automaton accepts no word beyond the packets that are listed in
/// `reachable`: runs do not go on from these.  The packets that were found at each state
/// are added: all that such runs bring there if no word is accepted, and some of them
/// otherwise.  Where nothing was listed, these are all runs.
pub fn is_empty_with_reachable<A: ENFA>(
    a: &A,
    store: &mut SPPstore,
    reachable: &mut Vec<(A::State, SP)>,
) -> (b: bool)
    requires
        old(store).wf(),
        a.valid(*old(store)),
        keyed(old(reachable)@),
        sets_ok(*old(store), old(reachable)@),
    ensures
        final(store).wf(),
        final(store).extends(old(store)),
        b <==> !inhabited(&Beyond { inner: a, known: old(reachable) }, *old(store)),
        sets_ok(*final(store), final(reachable)@),
        keyed(final(reachable)@),
        sets_filled(*old(store), old(reachable)@) ==> sets_filled(
            *final(store),
            final(reachable)@,
        ),
        forall|q: Place<A>, p: Pkt|
            p.len() == old(store).n() && #[trigger] holds(
                *final(store),
                final(reachable)@,
                q,
                p,
            ) ==> holds(*old(store), old(reachable)@, q, p) || arrives(
                &Beyond { inner: a, known: old(reachable) },
                *old(store),
                q,
                p,
            ),
        forall|q: Place<A>, p: Pkt|
            p.len() == old(store).n() && #[trigger] holds(*old(store), old(reachable)@, q, p)
                ==> holds(*final(store), final(reachable)@, q, p),
        b ==> forall|q: Place<A>, p: Pkt|
            p.len() == old(store).n() && #[trigger] arrives(
                &Beyond { inner: a, known: old(reachable) },
                *old(store),
                q,
                p,
            ) ==> holds(*final(store), final(reachable)@, q, p),
        old(reachable)@.len() == 0 ==> {
            &&& b <==> !inhabited(a, *old(store))
            &&& sets_filled(*final(store), final(reachable)@)
            &&& forall|q: Place<A>, p: Pkt|
                p.len() == old(store).n() && #[trigger] holds(
                    *final(store),
                    final(reachable)@,
                    q,
                    p,
                ) ==> arrives(a, *old(store), q, p)
            &&& b ==> forall|q: Place<A>, p: Pkt|
                p.len() == old(store).n() && #[trigger] arrives(a, *old(store), q, p) ==> holds(
                    *final(store),
                    final(reachable)@,
                    q,
                    p,
                )
        },
{
    let ghost o = *store;
    let beyond = Beyond { inner: a, known: &*reachable };
    let ghost g = beyond;
    let found = search(&beyond, store);
    let ghost st = *store;
    let ghost es = found.steps@;
    let empty = found.output.is_none();
    proof {
        if empty {
            lemma_search_empty(&g, o, st, es);
        } else {
            lemma_search_output(&g, o, st, es, found.output.unwrap());
        }
        assert forall|q: Place<A>, p: Pkt|
            p.len() == o.n() && #[trigger] holds(st, found.done@, q, p) implies arrives(
            &g,
            o,
            q,
            p,
        ) by {
            assert(at(st, es, q, p));
            let i = choose|i: int|
                0 <= i < es.len() && (#[trigger] es[i]).state.model() == q && st.sp.mem(
                    es[i].diff,
                    p,
                );
            lemma_rooted_arrives(&g, o, st, es, i, p);
        }
        if empty {
            assert forall|q: Place<A>, p: Pkt|
                p.len() == o.n() && #[trigger] arrives(&g, o, q, p) implies holds(
                st,
                found.done@,
                q,
                p,
            ) by {
                assert(at(st, es, q, p));
            }
        }
        lemma_holds_ext(st, o, reachable@);
        if reachable@.len() == 0 {
            law_beyond_none(g, o);
        }
    }
    let ghost r0 = reachable@;
    absorb(store, reachable, &found.done);
    proof {
        if r0.len() == 0 {
            let s1 = *store;
            let r1 = reachable@;
            assert(sets_filled(st, r0));
            assert forall|q: Place<A>, p: Pkt|
                p.len() == o.n() && #[trigger] holds(s1, r1, q, p) implies arrives(a, o, q, p) by {
                assert(!holds(st, r0, q, p));
                assert(holds(st, found.done@, q, p));
                assert(arrives(&g, o, q, p));
            }
            if empty {
                assert forall|q: Place<A>, p: Pkt|
                    p.len() == o.n() && #[trigger] arrives(a, o, q, p) implies holds(
                    s1,
                    r1,
                    q,
                    p,
                ) by {
                    assert(arrives(&g, o, q, p));
                    assert(holds(st, found.done@, q, p));
                }
            }
        }
    }
    empty
}

/// A run to the last entry of the search that has the given output.
fn reconstruct_trace<A: ENFA>(
    a: &A,
    store: &mut SPPstore,
    steps: &Vec<Step<A::State>>,
    y: SPP,
    Ghost(o): Ghost<SPPstore>,
) -> (r: (Vec<(A::State, Vec<bool>)>, Vec<bool>))
    requires
        old(store).wf(),
        o.wf(),
        old(store).extends(&o),
        a.valid(o),
        rooted(a, o, *old(store), steps@),
        with_output(a, o, *old(store), steps@, y),
    ensures
        final(store).wf(),
        final(store).extends(old(store)),
        is_path(a, o, path_of(r.0@)),
        path_of(r.0@)[0].0 == a.init(),
        r.1@.len() == o.n(),
        a.out(o, path_of(r.0@).last().0, path_of(r.0@).last().1, r.1@),
{
    let ghost n = o.n();
    let ghost s0 = *store;
    let ghost es = steps@;
    let last: usize = steps.len() - 1;
    proof {
        s0.lemma_wf();
        assert(grounded(a, o, s0, es, last as int, es[last as int]));
    }
    let with = store.bwd(y);
    let ghost s1 = *store;
    proof {
        s1.lemma_wf();
    }
    let valid_inputs = sp_intersect(store, steps[last].diff, with);
    let ghost s2 = *store;
    proof {
        s2.lemma_wf();
        s2.sp.lemma_nonzero(valid_inputs);
        let (p, x) = choose|p: Pkt, x: Pkt|
            p.len() == n && x.len() == n && #[trigger] s0.sp.mem(es.last().diff, p)
                && #[trigger] s0.rel(y, p, x);
        assert(s1.sp.mem(with, p));
        assert(s1.sp.mem(es.last().diff, p));
        assert(s2.sp.mem(valid_inputs, p));
    }
    let acc_pkt = store.sp.any_packet(valid_inputs);
    proof {
        assert(s2.sp.mem(valid_inputs, acc_pkt@));
        assert(s1.sp.mem(with, acc_pkt@));
        let x = choose|x: Pkt| x.len() == n && #[trigger] s0.rel(y, acc_pkt@, x);
        assert(s2.rel(y, acc_pkt@, x));
    }
    let out_pkt = store.any_output_packet_from_input(y, acc_pkt.as_slice());
    let ghost s3 = *store;
    proof {
        assert(s2.rel(y, acc_pkt@, out_pkt@));
        assert(s0.rel(y, acc_pkt@, out_pkt@));
        lemma_lists_ext(a, o, s3, s0, es, Seq::empty());
        assert(s0.sp.mem(es[last as int].diff, acc_pkt@));
    }
    let mut back: Vec<(A::State, Vec<bool>)> = Vec::new();
    let mut current: usize = last;
    let mut packet = copy_bits(&acc_pkt);
    back.push((steps[last].state.dup(), acc_pkt));
    proof {
        assert(s3.sp.mem(es[last as int].diff, packet@));
    }
    while steps[current].from.is_some()
        invariant
            store.wf(),
            s3.wf(),
            o.wf(),
            store.extends(&s3),
            s3.extends(&o),
            a.valid(o),
            n == o.n(),
            es == steps@,
            rooted(a, o, s3, es),
            current < es.len(),
            packet@.len() == n,
            s3.sp.mem(es[current as int].diff, packet@),
            back@.len() >= 1,
            back@.last().0.model() == es[current as int].state.model(),
            back@.last().1@ == packet@,
            back@[0].0.model() == es.last().state.model(),
            back@[0].1@ == acc_pkt@,
            forall|i: int| 0 <= i < back@.len() ==> (#[trigger] back@[i]).1@.len() == n,
            forall|i: int|
                0 <= i < back@.len() - 1 ==> #[trigger] moved_back(a, o, back@, i),
        decreases current,
    {
        let ghost s4 = *store;
        let ghost b0 = back@;
        let ghost cur = es[current as int];
        proof {
            assert(grounded(a, o, s3, es, current as int, es[current as int]));
            s3.lemma_wf();
            s4.lemma_wf();
        }
        let (j, spp) = match steps[current].from {
            Some((j, spp)) => (j, spp),
            None => (current, y),
        };
        let ghost prev = es[j as int];
        proof {
            assert(cur.from == Some((j, spp)));
            assert(grounded(a, o, s3, es, j as int, es[j as int]));
            assert(comes(s3, prev.diff, spp, packet@));
        }
        let current_pkt_sp = singleton_sp(store, packet.as_slice());
        let ghost s5 = *store;
        let valid_inputs = store.pull(spp, current_pkt_sp);
        let ghost s6 = *store;
        proof {
            s5.lemma_wf();
            s6.lemma_wf();
        }
        let candidates = sp_intersect(store, steps[j].diff, valid_inputs);
        let ghost s7 = *store;
        proof {
            s7.lemma_wf();
            s7.sp.lemma_nonzero(candidates);
            let p = choose|p: Pkt|
                p.len() == s3.n() && #[trigger] s3.sp.mem(prev.diff, p) && s3.rel(
                    spp,
                    p,
                    packet@,
                );
            assert(s5.sp.mem(current_pkt_sp, packet@));
            assert(s5.rel(spp, p, packet@));
            assert(s6.sp.mem(valid_inputs, p));
            assert(s6.sp.mem(prev.diff, p));
            assert(s7.sp.mem(candidates, p));
        }
        let p_j = store.sp.any_packet(candidates);
        proof {
            assert(s7.sp.mem(candidates, p_j@));
            assert(s6.sp.mem(valid_inputs, p_j@));
            let x = choose|x: Pkt|
                #![trigger s5.sp.mem(current_pkt_sp, x)]
                x.len() == n && s5.sp.mem(current_pkt_sp, x) && s5.rel(spp, p_j@, x);
            assert(x == packet@);
            assert(s3.rel(spp, p_j@, packet@));
            assert(s6.sp.mem(prev.diff, p_j@));
            assert(s3.sp.mem(prev.diff, p_j@));
        }
        packet = copy_bits(&p_j);
        back.push((steps[j].state.dup(), p_j));
        current = j;
        proof {
            assert forall|i: int| 0 <= i < back@.len() - 1 implies #[trigger] moved_back(
                a,
                o,
                back@,
                i,
            ) by {
                if i < b0.len() - 1 {
                    assert(moved_back(a, o, b0, i));
                }
            }
            assert forall|i: int| 0 <= i < back@.len() implies (#[trigger] back@[i]).1@.len()
                == n by {
                if i < b0.len() {
                    assert(back@[i] == b0[i]);
                }
            }
        }
    }
    proof {
        assert(grounded(a, o, s3, es, current as int, es[current as int]));
    }
    let mut path: Vec<(A::State, Vec<bool>)> = Vec::new();
    let mut i: usize = back.len();
    while i > 0
        invariant
            i <= back@.len(),
            path@.len() == back@.len() - i,
            forall|k: int|
                0 <= k < path@.len() ==> (#[trigger] path@[k]).0.model() == back@[back@.len() - 1
                    - k].0.model() && path@[k].1@ == back@[back@.len() - 1 - k].1@,
        decreases i,
    {
        i = i - 1;
        path.push((back[i].0.dup(), copy_bits(&back[i].1)));
    }
    proof {
        let m = path_of(path@);
        let len = back@.len() as int;
        assert forall|k: int| 0 <= k < m.len() implies #[trigger] m[k] == (
            back@[len - 1 - k].0.model(),
            back@[len - 1 - k].1@,
        ) by {
            assert(path@[k].0.model() == back@[len - 1 - k].0.model());
        }
        assert forall|k: int| 0 <= k < m.len() - 1 implies #[trigger] moves(a, o, m, k) by {
            assert(moved_back(a, o, back@, len - 2 - k));
            assert(m[k] == (back@[len - 1 - k].0.model(), back@[len - 1 - k].1@));
            assert(m[k + 1] == (back@[len - 2 - k].0.model(), back@[len - 2 - k].1@));
        }
        assert forall|k: int| 0 <= k < m.len() implies (#[trigger] m[k]).1.len() == n by {
            assert(back@[len - 1 - k].1@.len() == n);
        }
        assert(m[0].0 == a.init());
        assert(m.last() == m[len - 1]);
    }
    (path, out_pkt)
}

/// The entry after `i` leads to entry `i`.
spec fn moved_back<A: ENFA>(
    a: &A,
    o: SPPstore,
    back: Seq<(A::State, Vec<bool>)>,
    i: int,
) -> bool {
    a.step(o, back[i + 1].0.model(), back[i + 1].1@, back[i].0.model(), back[i].1@)
}

/// Some run of the automaton, with an output; or `None` if no word is accepted.
pub fn get_any_trace_with_states<A: ENFA>(a: &A, store: &mut SPPstore) -> (r: Option<
    (Vec<(A::State, Vec<bool>)>, Vec<bool>),
>)
    requires
        old(store).wf(),
        a.valid(*old(store)),
    ensures
        final(store).wf(),
        final(store).extends(old(store)),
        r is None <==> !inhabited(a, *old(store)),
        r matches Some((path, output)) ==> is_path(a, *old(store), path_of(path@)) && path_of(
            path@,
        )[0].0 == a.init() && output@.len() == old(store).n() && a.out(
            *old(store),
            path_of(path@).last().0,
            path_of(path@).last().1,
            output@,
        ),
{
    let ghost o = *store;
    let found = search(a, store);
    let ghost st = *store;
    match found.output {
        None => {
            proof {
                lemma_search_empty(a, o, st, found.steps@);
            }
            None
        },
        Some(y) => {
            proof {
                lemma_search_output(a, o, st, found.steps@, y);
            }
            Some(reconstruct_trace(a, store, &found.steps, y, Ghost(o)))
        },
    }
}

/// The packets of a run that its automaton records.
fn recorded<A: ENFA>(
    a: &A,
    store: &mut SPPstore,
    path: &Vec<(A::State, Vec<bool>)>,
    Ghost(o): Ghost<SPPstore>,
) -> (r: Vec<Vec<bool>>)
    requires
        old(store).wf(),
        o.wf(),
        old(store).extends(&o),
        a.valid(o),
        is_path(a, o, path_of(path@)),
        path_of(path@)[0].0 == a.init(),
    ensures
        final(store).wf(),
        final(store).extends(old(store)),
        packets(r@) == trace_of(a, path_of(path@)),
{
    let ghost s0 = *store;
    let ghost m = path_of(path@);
    let ghost rest = m.skip(1);
    let mut r: Vec<Vec<bool>> = Vec::new();
    r.push(copy_bits(&path[0].1));
    proof {
        a.lemma_states(o);
        assert(rest.take(0) =~= Seq::<(Place<A>, Pkt)>::empty());
        assert(packets(r@) =~= seq![m[0].1] + seen(a, rest.take(0)));
    }
    let mut i: usize = 1;
    while i < path.len()
        invariant
            store.wf(),
            o.wf(),
            s0 == *old(store),
            s0.extends(&o),
            store.extends(&s0),
            a.valid(o),
            m == path_of(path@),
            rest == m.skip(1),
            is_path(a, o, m),
            m[0].0 == a.init(),
            a.is_state(a.init()),
            1 <= i <= path@.len(),
            packets(r@) == seq![m[0].1] + seen(a, rest.take(i - 1)),
        decreases path.len() - i,
    {
        let ghost r0 = r@;
        proof {
            lemma_path_states(a, o, m, i as int);
            a.lemma_valid(*store, o);
            assert(rest.take(i as int).drop_last() =~= rest.take(i - 1));
            assert(rest.take(i as int).last() == m[i as int]);
        }
        if a.is_visible(store, &path[i].0) {
            r.push(copy_bits(&path[i].1));
            proof {
                assert(packets(r@) =~= packets(r0).push(m[i as int].1));
            }
        }
        proof {
            assert(packets(r@) =~= seq![m[0].1] + seen(a, rest.take(i as int)));
        }
        i = i + 1;
    }
    proof {
        assert(rest.take(i - 1) =~= rest);
    }
    r
}

/// A word that the automaton accepts, as its packets but the last, and the last;
/// or `None` if no word is accepted.
pub fn get_any_trace<A: ENFA>(a: &A, store: &mut SPPstore) -> (r: Option<
    (Vec<Vec<bool>>, Vec<bool>),
>)
    requires
        old(store).wf(),
        a.valid(*old(store)),
    ensures
        final(store).wf(),
        final(store).extends(old(store)),
        r is None <==> !inhabited(a, *old(store)),
        r matches Some((trace, output)) ==> trace@.len() >= 1 && is_word(
            old(store).n(),
            packets(trace@).push(output@),
        ) && enfa_lang(a, *old(store))(packets(trace@).push(output@)),
{
    let ghost o = *store;
    match get_any_trace_with_states(a, store) {
        None => None,
        Some((path, output)) => {
            let trace = recorded(a, store, &path, Ghost(o));
            proof {
                lemma_word_of(a, o, path_of(path@), output@);
                assert(packets(trace@).len() == trace@.len());
            }
            Some((trace, output))
        },
    }
}

} // verus!
