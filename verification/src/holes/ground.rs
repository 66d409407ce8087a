//! The automata that candidates draw on.
//!
//! They are products of bounds, each with a sink in which a run that has left the bound
//! ends.  A state of the product is a vector: a state of each bound, or the sink.
use vstd::prelude::*;
use crate::holes::aut::{among, Place, ENFA};
use crate::holes::explicit::{numbers, ExplicitDFA};
use crate::holes::ops::{part_steps, sink_state, sink_step, stirs, NAryProduct, SinkOr, WithSinkState};
use crate::holes::problem::Constraint;
use crate::holes::table::{can_reach, hop, hop_at, hops};
use crate::sp::Pkt;
use crate::spp::SPPstore;

verus! {

/// A state of each of the automata, or the sink in its place.
pub type Vector = Seq<SinkOr<usize>>;

/// The start of each.
pub open spec fn vector_start(ds: Seq<ExplicitDFA>) -> Vector {
    Seq::new(ds.len(), |i: int| SinkOr::Inner(ds[i].start))
}

/// A step of automaton `i`.
pub open spec fn part_step(
    d: ExplicitDFA,
    st: SPPstore,
    q: Vector,
    p: Pkt,
    r: Vector,
    x: Pkt,
    i: int,
) -> bool {
    sink_step(&d, st, q[i], p, r[i], x)
}

/// A step of each.
pub open spec fn vector_step(
    ds: Seq<ExplicitDFA>,
    st: SPPstore,
    q: Vector,
    p: Pkt,
    r: Vector,
    x: Pkt,
) -> bool {
    r.len() == ds.len() && forall|i: int|
        0 <= i < ds.len() ==> #[trigger] part_step(ds[i], st, q, p, r, x, i)
}

/// An output of automaton `i`.
pub open spec fn part_out(d: ExplicitDFA, st: SPPstore, q: Vector, p: Pkt, x: Pkt, i: int) -> bool {
    match q[i] {
        SinkOr::Inner(s) => d.out(st, s, p, x),
        SinkOr::Sink => false,
    }
}

/// An output of all.
pub open spec fn vector_out(
    ds: Seq<ExplicitDFA>,
    st: SPPstore,
    q: Vector,
    p: Pkt,
    x: Pkt,
) -> bool {
    forall|i: int| 0 <= i < ds.len() ==> #[trigger] part_out(ds[i], st, q, p, x, i)
}

/// Some packets lead from the one vector to the other.
pub open spec fn vector_hop(ds: Seq<ExplicitDFA>, st: SPPstore, q: Vector, r: Vector) -> bool {
    exists|p: Pkt, x: Pkt|
        p.len() == st.n() && x.len() == st.n() && #[trigger] vector_step(ds, st, q, p, r, x)
}

/// The vector at `i` leads to the next.
pub open spec fn vector_hop_at(
    ds: Seq<ExplicitDFA>,
    st: SPPstore,
    path: Seq<Vector>,
    i: int,
) -> bool {
    vector_hop(ds, st, path[i], path[i + 1])
}

/// A walk from the start.
pub open spec fn vector_path(ds: Seq<ExplicitDFA>, st: SPPstore, path: Seq<Vector>) -> bool {
    &&& path.len() >= 1
    &&& path[0] == vector_start(ds)
    &&& forall|i: int| 0 <= i < path.len() - 1 ==> #[trigger] vector_hop_at(ds, st, path, i)
}

/// The vector can be reached.
pub open spec fn vector_reached(ds: Seq<ExplicitDFA>, st: SPPstore, q: Vector) -> bool {
    exists|path: Seq<Vector>| #[trigger] vector_path(ds, st, path) && path.last() == q
}

/// The automaton is the product of the others, with sinks: its states are the vectors of
/// the list, which are those that can be reached, each once, beginning with the start.
pub open spec fn grounds(
    dfa: ExplicitDFA,
    st: SPPstore,
    ds: Seq<ExplicitDFA>,
    o: SPPstore,
    f: Seq<Vector>,
) -> bool {
    &&& dfa.start == 0
    &&& f.len() == dfa.transitions@.len()
    &&& f.no_duplicates()
    &&& f.len() > 0
    &&& f[0] == vector_start(ds)
    &&& forall|q: Vector| #[trigger] f.contains(q) <==> vector_reached(ds, o, q)
    &&& forall|i: usize, p: Pkt, j: usize, x: Pkt|
        i < f.len() && j < f.len() && p.len() == o.n() && x.len() == o.n() ==> #[trigger] dfa.step(
            st,
            i,
            p,
            j,
            x,
        ) == vector_step(ds, o, f[i as int], p, f[j as int], x)
    &&& forall|i: usize, p: Pkt, x: Pkt|
        i < f.len() && p.len() == o.n() && x.len() == o.n() ==> #[trigger] dfa.out(st, i, p, x)
            == vector_out(ds, o, f[i as int], p, x)
}

/// The vectors that can be reached.
pub open spec fn vectors(ds: Seq<ExplicitDFA>, st: SPPstore) -> Set<Vector> {
    Set::new(|q: Vector| vector_reached(ds, st, q))
}

/// The upper bounds among the first `k` constraints.
pub open spec fn uppers(cs: Seq<Constraint>, k: int) -> Seq<ExplicitDFA>
    decreases k,
{
    if k <= 0 || k > cs.len() {
        Seq::empty()
    } else if cs[k - 1].is_upper() {
        uppers(cs, k - 1).push(cs[k - 1].the_dfa())
    } else {
        uppers(cs, k - 1)
    }
}

/// How many states the product of the upper bounds has.
pub open spec fn reference_states(cs: Seq<Constraint>, st: SPPstore) -> nat {
    vectors(uppers(cs, cs.len() as int), st).len()
}

/// The product has as many states as there are vectors.
pub proof fn lemma_grounds_size(
    dfa: ExplicitDFA,
    st: SPPstore,
    ds: Seq<ExplicitDFA>,
    o: SPPstore,
    f: Seq<Vector>,
)
    requires
        grounds(dfa, st, ds, o, f),
    ensures
        vectors(ds, o).finite(),
        vectors(ds, o).len() == dfa.transitions@.len(),
{
    f.unique_seq_to_set();
    assert(f.to_set() =~= vectors(ds, o)) by {
        assert forall|q: Vector| #[trigger] f.to_set().contains(q) == vectors(ds, o).contains(
            q,
        ) by {
            assert(f.contains(q) <==> vector_reached(ds, o, q));
        }
    }
}

/// The bounds with sinks are those of the list.
pub open spec fn with_sinks(inner: Seq<WithSinkState<&ExplicitDFA>>, ds: Seq<ExplicitDFA>) -> bool {
    &&& inner.len() == ds.len()
    &&& forall|i: int| 0 <= i < ds.len() ==> *(#[trigger] inner[i]).0 == ds[i]
}

proof fn lemma_stirs_ref<T: ENFA>(a: &T, st: SPPstore, s: Place<T>, p: Pkt, x: Pkt)
    ensures
        stirs(&a, st, s, p, x) == stirs(a, st, s, p, x),
{
    if stirs(a, st, s, p, x) {
        let t = choose|t: Place<T>| #[trigger] a.step(st, s, p, t, x);
        assert((&a).step(st, s, p, t, x));
    }
    if stirs(&a, st, s, p, x) {
        let t = choose|t: Place<T>| #[trigger] (&a).step(st, s, p, t, x);
        assert(a.step(st, s, p, t, x));
    }
}

proof fn lemma_sink_part(
    a: WithSinkState<&ExplicitDFA>,
    d: ExplicitDFA,
    st: SPPstore,
    q: SinkOr<usize>,
    p: Pkt,
    r: SinkOr<usize>,
    x: Pkt,
)
    requires
        *a.0 == d,
    ensures
        a.step(st, q, p, r, x) == sink_step(&d, st, q, p, r, x),
{
    if let SinkOr::Inner(s) = q {
        lemma_stirs_ref(a.0, st, s, p, x);
    }
}

/// A table of the product, over its vectors.
pub proof fn lemma_grounds<'a, 'b>(
    dfa: ExplicitDFA,
    st: SPPstore,
    all: &NAryProduct<'b, WithSinkState<&'a ExplicitDFA>>,
    ds: Seq<ExplicitDFA>,
    o: SPPstore,
    f: Seq<Vector>,
)
    requires
        numbers(dfa, st, all, o, f),
        dfa.start == 0,
        with_sinks(all.inner@, ds),
    ensures
        grounds(dfa, st, ds, o, f),
{
    let start = vector_start(ds);
    assert(all.init() =~= start) by {
        assert forall|i: int| 0 <= i < ds.len() implies all.init()[i] == start[i] by {
            assert(*all.inner@[i].0 == ds[i]);
        }
    }
    assert forall|q: Vector, p: Pkt, r: Vector, x: Pkt| #[trigger]
        all.step(o, q, p, r, x) == vector_step(ds, o, q, p, r, x) by {
        assert forall|i: int| 0 <= i < ds.len() implies part_steps(
            all.inner@[i],
            o,
            q,
            p,
            r,
            x,
            i,
        ) == #[trigger] part_step(ds[i], o, q, p, r, x, i) by {
            assert(*all.inner@[i].0 == ds[i]);
            lemma_sink_part(all.inner@[i], ds[i], o, q[i], p, r[i], x);
        }
        if all.step(o, q, p, r, x) {
            assert forall|i: int| 0 <= i < ds.len() implies #[trigger] part_step(
                ds[i],
                o,
                q,
                p,
                r,
                x,
                i,
            ) by {
                assert(part_steps(all.inner@[i], o, q, p, r, x, i));
            }
        }
        if vector_step(ds, o, q, p, r, x) {
            assert forall|i: int| 0 <= i < all.inner@.len() implies #[trigger] part_steps(
                all.inner@[i],
                o,
                q,
                p,
                r,
                x,
                i,
            ) by {
                assert(part_step(ds[i], o, q, p, r, x, i));
            }
        }
    }
    assert forall|q: Vector, p: Pkt, x: Pkt| #[trigger] all.out(o, q, p, x) == vector_out(
        ds,
        o,
        q,
        p,
        x,
    ) by {
        assert forall|i: int| 0 <= i < ds.len() implies all.inner@[i].out(o, q[i], p, x)
            == #[trigger] part_out(ds[i], o, q, p, x, i) by {
            assert(*all.inner@[i].0 == ds[i]);
        }
        if all.out(o, q, p, x) {
            assert forall|i: int| 0 <= i < ds.len() implies #[trigger] part_out(
                ds[i],
                o,
                q,
                p,
                x,
                i,
            ) by {
                assert(all.inner@[i].out(o, q[i], p, x));
            }
        }
        if vector_out(ds, o, q, p, x) {
            assert forall|i: int| 0 <= i < all.inner@.len() implies #[trigger] all.inner@[i].out(
                o,
                q[i],
                p,
                x,
            ) by {
                assert(part_out(ds[i], o, q, p, x, i));
            }
        }
    }
    assert forall|q: Vector, r: Vector| #[trigger] hop(all, o, q, r) == vector_hop(ds, o, q, r) by {
        if hop(all, o, q, r) {
            let (p, x) = choose|p: Pkt, x: Pkt|
                p.len() == o.n() && x.len() == o.n() && #[trigger] all.step(o, q, p, r, x);
            assert(vector_step(ds, o, q, p, r, x));
        }
        if vector_hop(ds, o, q, r) {
            let (p, x) = choose|p: Pkt, x: Pkt|
                p.len() == o.n() && x.len() == o.n() && #[trigger] vector_step(ds, o, q, p, r, x);
            assert(all.step(o, q, p, r, x));
        }
    }
    let none = Seq::<<NAryProduct<'b, WithSinkState<&'a ExplicitDFA>> as ENFA>::State>::empty();
    assert forall|q: Vector| #[trigger] f.contains(q) <==> vector_reached(ds, o, q) by {
        if f.contains(q) {
            let path = choose|path: Seq<Vector>| #[trigger]
                hops(all, o, path) && (path[0] == all.init() || among(none, path[0]))
                    && path.last() == q;
            assert forall|i: int| 0 <= i < path.len() - 1 implies #[trigger] vector_hop_at(
                ds,
                o,
                path,
                i,
            ) by {
                assert(hop_at(all, o, path, i));
                assert(hop(all, o, path[i], path[i + 1]));
            }
            assert(vector_path(ds, o, path));
        }
        if vector_reached(ds, o, q) {
            let path = choose|path: Seq<Vector>| #[trigger]
                vector_path(ds, o, path) && path.last() == q;
            assert forall|i: int| 0 <= i < path.len() - 1 implies #[trigger] hop_at(
                all,
                o,
                path,
                i,
            ) by {
                assert(vector_hop_at(ds, o, path, i));
                assert(hop(all, o, path[i], path[i + 1]));
            }
            assert(hops(all, o, path));
            assert(can_reach(all, o, none, q));
        }
    }
    assert forall|i: usize, p: Pkt, j: usize, x: Pkt|
        i < f.len() && j < f.len() && p.len() == o.n() && x.len() == o.n()
        implies #[trigger] dfa.step(st, i, p, j, x) == vector_step(
        ds,
        o,
        f[i as int],
        p,
        f[j as int],
        x,
    ) by {
        assert(dfa.step(st, i, p, j, x) == all.step(o, f[i as int], p, f[j as int], x));
    }
    assert forall|i: usize, p: Pkt, x: Pkt|
        i < f.len() && p.len() == o.n() && x.len() == o.n() implies #[trigger] dfa.out(st, i, p, x)
        == vector_out(ds, o, f[i as int], p, x) by {
        assert(dfa.out(st, i, p, x) == all.out(o, f[i as int], p, x));
    }
}

/// The tables hold the same.
pub open spec fn same_table(a: ExplicitDFA, b: ExplicitDFA) -> bool {
    &&& a.start == b.start
    &&& a.outputs@ == b.outputs@
    &&& a.transitions@.len() == b.transitions@.len()
    &&& forall|i: int|
        0 <= i < a.transitions@.len() ==> (#[trigger] a.transitions@[i])@ == b.transitions@[i]@
}

/// A state of each.
spec fn in_states(ds: Seq<ExplicitDFA>, q: Vector) -> bool {
    q.len() == ds.len() && forall|i: int| 0 <= i < ds.len() ==> sink_state(&ds[i], #[trigger] q[i])
}

proof fn lemma_part_same(
    a: ExplicitDFA,
    s1: SPPstore,
    b: ExplicitDFA,
    o: SPPstore,
    q: SinkOr<usize>,
    p: Pkt,
    r: SinkOr<usize>,
    x: Pkt,
)
    requires
        o.wf(),
        s1.extends(&o),
        a.valid(o),
        b.valid(o),
        same_table(a, b),
        sink_state(&b, q),
        p.len() == o.n(),
        x.len() == o.n(),
    ensures
        sink_step(&a, s1, q, p, r, x) == sink_step(&b, o, q, p, r, x),
        q matches SinkOr::Inner(s) ==> a.out(s1, s, p, x) == b.out(o, s, p, x),
        sink_step(&b, o, q, p, r, x) ==> sink_state(&b, r),
{
    a.lemma_valid(s1, o);
    b.lemma_states(o);
    if let SinkOr::Inner(s) = q {
        assert(a.transitions@[s as int]@ == b.transitions@[s as int]@);
        assert forall|t: usize| a.step(s1, s, p, t, x) == #[trigger] b.step(o, s, p, t, x) by {
            assert(a.step(s1, s, p, t, x) == a.step(o, s, p, t, x));
        }
        assert(stirs(&a, s1, s, p, x) == stirs(&b, o, s, p, x)) by {
            if stirs(&a, s1, s, p, x) {
                let t = choose|t: usize| #[trigger] a.step(s1, s, p, t, x);
                assert(b.step(o, s, p, t, x));
            }
            if stirs(&b, o, s, p, x) {
                let t = choose|t: usize| #[trigger] b.step(o, s, p, t, x);
                assert(a.step(s1, s, p, t, x));
            }
        }
    }
}

/// The product of copies, over a store that has grown.
pub proof fn lemma_grounds_same(
    dfa: ExplicitDFA,
    st: SPPstore,
    ds: Seq<ExplicitDFA>,
    s1: SPPstore,
    es: Seq<ExplicitDFA>,
    o: SPPstore,
    f: Seq<Vector>,
)
    requires
        grounds(dfa, st, ds, s1, f),
        o.wf(),
        s1.extends(&o),
        ds.len() == es.len(),
        forall|i: int|
            0 <= i < es.len() ==> #[trigger] same_table(ds[i], es[i]) && ds[i].valid(o)
                && es[i].valid(o),
    ensures
        grounds(dfa, st, es, o, f),
{
    assert(vector_start(ds) =~= vector_start(es)) by {
        assert forall|i: int| 0 <= i < ds.len() implies vector_start(ds)[i] == vector_start(
            es,
        )[i] by {
            assert(same_table(ds[i], es[i]));
        }
    }
    assert(in_states(es, vector_start(es))) by {
        assert forall|i: int| 0 <= i < es.len() implies sink_state(
            &es[i],
            #[trigger] vector_start(es)[i],
        ) by {
            assert(same_table(ds[i], es[i]));
        }
    }
    assert forall|q: Vector, p: Pkt, r: Vector, x: Pkt|
        in_states(es, q) && p.len() == o.n() && x.len() == o.n() implies #[trigger] vector_step(
        ds,
        s1,
        q,
        p,
        r,
        x,
    ) == vector_step(es, o, q, p, r, x) && (vector_step(es, o, q, p, r, x) ==> in_states(
        es,
        r,
    )) by {
        assert forall|i: int| 0 <= i < es.len() implies part_step(ds[i], s1, q, p, r, x, i)
            == #[trigger] part_step(es[i], o, q, p, r, x, i) && (part_step(
            es[i],
            o,
            q,
            p,
            r,
            x,
            i,
        ) ==> sink_state(&es[i], r[i])) by {
            assert(same_table(ds[i], es[i]));
            assert(sink_state(&es[i], q[i]));
            lemma_part_same(ds[i], s1, es[i], o, q[i], p, r[i], x);
        }
        if vector_step(ds, s1, q, p, r, x) {
            assert forall|i: int| 0 <= i < es.len() implies #[trigger] part_step(
                es[i],
                o,
                q,
                p,
                r,
                x,
                i,
            ) by {
                assert(part_step(ds[i], s1, q, p, r, x, i));
            }
        }
        if vector_step(es, o, q, p, r, x) {
            assert forall|i: int| 0 <= i < ds.len() implies #[trigger] part_step(
                ds[i],
                s1,
                q,
                p,
                r,
                x,
                i,
            ) by {
                assert(part_step(es[i], o, q, p, r, x, i));
            }
            assert forall|i: int| 0 <= i < es.len() implies sink_state(&es[i], #[trigger] r[i]) by {
                assert(part_step(es[i], o, q, p, r, x, i));
            }
        }
    }
    assert forall|q: Vector| #[trigger] vector_reached(ds, s1, q) == vector_reached(es, o, q) && (
    vector_reached(es, o, q) ==> in_states(es, q)) by {
        if vector_reached(ds, s1, q) {
            let path = choose|path: Seq<Vector>| #[trigger]
                vector_path(ds, s1, path) && path.last() == q;
            lemma_path_same(ds, s1, es, o, path, path.len() - 1, true);
            assert(vector_path(es, o, path));
        }
        if vector_reached(es, o, q) {
            let path = choose|path: Seq<Vector>| #[trigger]
                vector_path(es, o, path) && path.last() == q;
            lemma_path_same(ds, s1, es, o, path, path.len() - 1, false);
            assert(vector_path(ds, s1, path));
        }
    }
    assert forall|q: Vector| #[trigger] f.contains(q) <==> vector_reached(es, o, q) by {
        assert(f.contains(q) <==> vector_reached(ds, s1, q));
    }
    assert forall|i: usize, p: Pkt, j: usize, x: Pkt|
        i < f.len() && j < f.len() && p.len() == o.n() && x.len() == o.n()
        implies #[trigger] dfa.step(st, i, p, j, x) == vector_step(
        es,
        o,
        f[i as int],
        p,
        f[j as int],
        x,
    ) by {
        assert(f.contains(f[i as int]));
        assert(vector_reached(ds, s1, f[i as int]));
        assert(vector_step(ds, s1, f[i as int], p, f[j as int], x) == vector_step(
            es,
            o,
            f[i as int],
            p,
            f[j as int],
            x,
        ));
    }
    assert forall|i: usize, p: Pkt, x: Pkt|
        i < f.len() && p.len() == o.n() && x.len() == o.n() implies #[trigger] dfa.out(st, i, p, x)
        == vector_out(es, o, f[i as int], p, x) by {
        let q = f[i as int];
        assert(f.contains(q));
        assert(vector_reached(ds, s1, q));
        assert forall|k: int| 0 <= k < es.len() implies part_out(ds[k], s1, q, p, x, k)
            == #[trigger] part_out(es[k], o, q, p, x, k) by {
            assert(same_table(ds[k], es[k]));
            assert(sink_state(&es[k], q[k]));
            lemma_part_same(ds[k], s1, es[k], o, q[k], p, q[k], x);
        }
        assert(vector_out(ds, s1, q, p, x) == vector_out(es, o, q, p, x)) by {
            if vector_out(ds, s1, q, p, x) {
                assert forall|k: int| 0 <= k < es.len() implies #[trigger] part_out(
                    es[k],
                    o,
                    q,
                    p,
                    x,
                    k,
                ) by {
                    assert(part_out(ds[k], s1, q, p, x, k));
                }
            }
            if vector_out(es, o, q, p, x) {
                assert forall|k: int| 0 <= k < ds.len() implies #[trigger] part_out(
                    ds[k],
                    s1,
                    q,
                    p,
                    x,
                    k,
                ) by {
                    assert(part_out(es[k], o, q, p, x, k));
                }
            }
        }
    }
}

/// A walk is one of both, and stays among the states.
proof fn lemma_path_same(
    ds: Seq<ExplicitDFA>,
    s1: SPPstore,
    es: Seq<ExplicitDFA>,
    o: SPPstore,
    path: Seq<Vector>,
    k: int,
    first: bool,
)
    requires
        s1.n() == o.n(),
        vector_start(ds) == vector_start(es),
        in_states(es, vector_start(es)),
        forall|q: Vector, p: Pkt, r: Vector, x: Pkt|
            in_states(es, q) && p.len() == o.n() && x.len() == o.n() ==> #[trigger] vector_step(
                ds,
                s1,
                q,
                p,
                r,
                x,
            ) == vector_step(es, o, q, p, r, x) && (vector_step(es, o, q, p, r, x) ==> in_states(
                es,
                r,
            )),
        if first {
            vector_path(ds, s1, path)
        } else {
            vector_path(es, o, path)
        },
        0 <= k < path.len(),
    ensures
        in_states(es, path[k]),
        forall|i: int| 0 <= i < k ==> #[trigger] vector_hop_at(es, o, path, i),
        forall|i: int| 0 <= i < k ==> #[trigger] vector_hop_at(ds, s1, path, i),
    decreases k,
{
    if k > 0 {
        lemma_path_same(ds, s1, es, o, path, k - 1, first);
        let q = path[k - 1];
        let r = path[k];
        if first {
            assert(vector_hop_at(ds, s1, path, k - 1));
            let (p, x) = choose|p: Pkt, x: Pkt|
                p.len() == s1.n() && x.len() == s1.n() && #[trigger] vector_step(
                    ds,
                    s1,
                    q,
                    p,
                    r,
                    x,
                );
            assert(vector_step(es, o, q, p, r, x));
        } else {
            assert(vector_hop_at(es, o, path, k - 1));
            let (p, x) = choose|p: Pkt, x: Pkt|
                p.len() == o.n() && x.len() == o.n() && #[trigger] vector_step(es, o, q, p, r, x);
            assert(vector_step(ds, s1, q, p, r, x));
        }
        assert(vector_hop(es, o, q, r));
        assert(vector_hop(ds, s1, q, r));
    }
}

} // verus!
