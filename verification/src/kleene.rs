//! Linear systems of relations.
//!
//! A system of `n` rows has an edge for every pair of rows and, for every row,
//! a list of exits.  [`solve`] computes what every row relates by walking along
//! edges and then leaving through an exit, by Gaussian elimination with Arden's
//! rule.
use vstd::prelude::*;
use crate::sp::Pkt;
use crate::spp::{lemma_star_closed, lemma_star_least, lemma_star_same, star_of, SPPstore, SPP};

verus! {

/// The steps from row to row.
pub type Edges = spec_fn(int, int, Pkt, Pkt) -> bool;

/// What is related on leaving a row.
pub type Exits = spec_fn(int, Pkt, Pkt) -> bool;

/// Step `t` of a walk is along an edge.
pub open spec fn hop(e: Edges, ns: Seq<int>, ps: Seq<Pkt>, t: int) -> bool {
    e(ns[t], ns[t + 1], ps[t], ps[t + 1])
}

/// A walk along edges through `n` rows, with a packet of `k` fields at each.
pub open spec fn walk(e: Edges, k: nat, n: nat, ns: Seq<int>, ps: Seq<Pkt>) -> bool {
    &&& ns.len() == ps.len()
    &&& ns.len() >= 1
    &&& forall|t: int| 0 <= t < ns.len() ==> 0 <= #[trigger] ns[t] < n
    &&& forall|t: int| 0 <= t < ps.len() ==> (#[trigger] ps[t]).len() == k
    &&& forall|t: int| 0 <= t < ns.len() - 1 ==> #[trigger] hop(e, ns, ps, t)
}

/// Some walk from row `i` with packet `p` leaves with packet `q`.
pub open spec fn flows(e: Edges, x: Exits, k: nat, n: nat, i: int, p: Pkt, q: Pkt) -> bool {
    exists|ns: Seq<int>, ps: Seq<Pkt>| #[trigger]
        walk(e, k, n, ns, ps) && ns[0] == i && ps[0] == p && x(ns.last(), ps.last(), q)
}

/// `z` holds the exits and is closed under the edges.
pub open spec fn closed(e: Edges, x: Exits, k: nat, n: nat, z: Exits) -> bool {
    &&& forall|i: int, p: Pkt, q: Pkt|
        #![trigger x(i, p, q)]
        #![trigger z(i, p, q)]
        0 <= i < n && p.len() == k && q.len() == k && x(i, p, q) ==> z(i, p, q)
    &&& forall|i: int, j: int, p: Pkt, m: Pkt, q: Pkt|
        #![trigger e(i, j, p, m), z(j, m, q)]
        0 <= i < n && 0 <= j < n && p.len() == k && m.len() == k && q.len() == k && e(i, j, p, m)
            && z(j, m, q) ==> z(i, p, q)
}

/// Every closed `z` relates `p` to `q` at row `i`.
pub open spec fn least(e: Edges, x: Exits, k: nat, n: nat, i: int, p: Pkt, q: Pkt) -> bool {
    forall|z: Exits| #[trigger] closed(e, x, k, n, z) ==> z(i, p, q)
}

/// A walk stays within what is closed.
proof fn lemma_walk_in(
    e: Edges,
    x: Exits,
    k: nat,
    n: nat,
    z: Exits,
    ns: Seq<int>,
    ps: Seq<Pkt>,
    q: Pkt,
)
    requires
        closed(e, x, k, n, z),
        walk(e, k, n, ns, ps),
        x(ns.last(), ps.last(), q),
        q.len() == k,
    ensures
        z(ns[0], ps[0], q),
    decreases ns.len(),
{
    if ns.len() == 1 {
        assert(ns[0] == ns.last() && ps[0] == ps.last());
        assert(0 <= ns[0] < n && ps[0].len() == k);
    } else {
        let (ms, rs) = (ns.skip(1), ps.skip(1));
        assert forall|t: int| 0 <= t < ms.len() - 1 implies #[trigger] hop(e, ms, rs, t) by {
            assert(hop(e, ns, ps, t + 1));
        }
        assert forall|t: int| 0 <= t < ms.len() implies 0 <= #[trigger] ms[t] < n by {
            assert(ms[t] == ns[t + 1]);
        }
        assert forall|t: int| 0 <= t < rs.len() implies (#[trigger] rs[t]).len() == k by {
            assert(rs[t] == ps[t + 1]);
        }
        lemma_walk_in(e, x, k, n, z, ms, rs, q);
        assert(hop(e, ns, ps, 0));
        assert(ms[0] == ns[1] && rs[0] == ps[1]);
        assert(0 <= ns[0] < n && ps[0].len() == k);
        assert(0 <= ns[1] < n && ps[1].len() == k);
    }
}

/// A step before a walk.
pub proof fn lemma_flows_step(
    e: Edges,
    x: Exits,
    k: nat,
    n: nat,
    i: int,
    j: int,
    p: Pkt,
    m: Pkt,
    q: Pkt,
)
    requires
        0 <= i < n,
        p.len() == k,
        e(i, j, p, m),
        flows(e, x, k, n, j, m, q),
    ensures
        flows(e, x, k, n, i, p, q),
{
    let (ns, ps) = choose|ns: Seq<int>, ps: Seq<Pkt>| #[trigger]
        walk(e, k, n, ns, ps) && ns[0] == j && ps[0] == m && x(ns.last(), ps.last(), q);
    let ms = seq![i] + ns;
    let rs = seq![p] + ps;
    assert forall|t: int| 0 <= t < ms.len() - 1 implies #[trigger] hop(e, ms, rs, t) by {
        if t > 0 {
            assert(hop(e, ns, ps, t - 1));
        }
    }
    assert(walk(e, k, n, ms, rs));
    assert(ms.last() == ns.last() && rs.last() == ps.last());
}

/// Leaving at once.
pub proof fn lemma_flows_exit(e: Edges, x: Exits, k: nat, n: nat, i: int, p: Pkt, q: Pkt)
    requires
        0 <= i < n,
        p.len() == k,
        x(i, p, q),
    ensures
        flows(e, x, k, n, i, p, q),
{
    let (ns, ps) = (seq![i], seq![p]);
    assert(walk(e, k, n, ns, ps));
    assert(ns.last() == i && ps.last() == p);
}

/// Walks depend on the edges between the rows, and packets of `k` fields, only.
pub proof fn lemma_flows_same(
    e: Edges,
    x: Exits,
    f: Edges,
    y: Exits,
    k: nat,
    n: nat,
    i: int,
    p: Pkt,
    q: Pkt,
)
    requires
        q.len() == k,
        forall|a: int, b: int, c: Pkt, d: Pkt|
            #![trigger e(a, b, c, d)]
            #![trigger f(a, b, c, d)]
            0 <= a < n && 0 <= b < n && c.len() == k && d.len() == k ==> e(a, b, c, d) == f(
                a,
                b,
                c,
                d,
            ),
        forall|a: int, c: Pkt, d: Pkt|
            #![trigger x(a, c, d)]
            #![trigger y(a, c, d)]
            0 <= a < n && c.len() == k && d.len() == k ==> x(a, c, d) == y(a, c, d),
    ensures
        flows(e, x, k, n, i, p, q) == flows(f, y, k, n, i, p, q),
{
    if flows(e, x, k, n, i, p, q) {
        let (ns, ps) = choose|ns: Seq<int>, ps: Seq<Pkt>| #[trigger]
            walk(e, k, n, ns, ps) && ns[0] == i && ps[0] == p && x(ns.last(), ps.last(), q);
        lemma_walk_same(e, f, k, n, ns, ps);
        assert(y(ns.last(), ps.last(), q));
    }
    if flows(f, y, k, n, i, p, q) {
        let (ns, ps) = choose|ns: Seq<int>, ps: Seq<Pkt>| #[trigger]
            walk(f, k, n, ns, ps) && ns[0] == i && ps[0] == p && y(ns.last(), ps.last(), q);
        lemma_walk_same(f, e, k, n, ns, ps);
        assert(x(ns.last(), ps.last(), q));
    }
}

proof fn lemma_walk_same(e: Edges, f: Edges, k: nat, n: nat, ns: Seq<int>, ps: Seq<Pkt>)
    requires
        walk(e, k, n, ns, ps),
        forall|a: int, b: int, c: Pkt, d: Pkt|
            #![trigger e(a, b, c, d)]
            #![trigger f(a, b, c, d)]
            0 <= a < n && 0 <= b < n && c.len() == k && d.len() == k ==> e(a, b, c, d) == f(
                a,
                b,
                c,
                d,
            ),
    ensures
        walk(f, k, n, ns, ps),
{
    assert forall|t: int| 0 <= t < ns.len() - 1 implies #[trigger] hop(f, ns, ps, t) by {
        assert(hop(e, ns, ps, t));
        assert(0 <= ns[t] < n && 0 <= ns[t + 1] < n && ps[t].len() == k && ps[t + 1].len() == k);
        assert(e(ns[t], ns[t + 1], ps[t], ps[t + 1]));
    }
}

/// What is related by walks is the least of what is closed.
proof fn lemma_least(e: Edges, x: Exits, k: nat, n: nat, i: int, p: Pkt, q: Pkt)
    requires
        0 <= i < n,
        p.len() == k,
        q.len() == k,
    ensures
        least(e, x, k, n, i, p, q) <==> flows(e, x, k, n, i, p, q),
{
    if flows(e, x, k, n, i, p, q) {
        let (ns, ps) = choose|ns: Seq<int>, ps: Seq<Pkt>| #[trigger]
            walk(e, k, n, ns, ps) && ns[0] == i && ps[0] == p && x(ns.last(), ps.last(), q);
        assert forall|z: Exits| #[trigger] closed(e, x, k, n, z) implies z(i, p, q) by {
            lemma_walk_in(e, x, k, n, z, ns, ps, q);
        }
    }
    if least(e, x, k, n, i, p, q) {
        let z: Exits = |a: int, b: Pkt, c: Pkt| flows(e, x, k, n, a, b, c);
        assert forall|a: int, b: Pkt, c: Pkt|
            #![trigger x(a, b, c)]
            0 <= a < n && b.len() == k && c.len() == k && x(a, b, c) implies z(a, b, c) by {
            lemma_flows_exit(e, x, k, n, a, b, c);
        }
        assert forall|a: int, j: int, b: Pkt, m: Pkt, c: Pkt|
            #![trigger e(a, j, b, m), z(j, m, c)]
            0 <= a < n && 0 <= j < n && b.len() == k && m.len() == k && c.len() == k && e(
                a,
                j,
                b,
                m,
            ) && z(j, m, c) implies z(a, b, c) by {
            lemma_flows_step(e, x, k, n, a, j, b, m, c);
        }
        assert(closed(e, x, k, n, z));
    }
}

/// The loop at row `r`.
pub open spec fn own(e: Edges, r: int) -> spec_fn(Pkt, Pkt) -> bool {
    |p: Pkt, q: Pkt| e(r, r, p, q)
}

/// An edge out of row `r` after any number of loops.
pub open spec fn looped(e: Edges, k: nat, r: int, j: int, p: Pkt, q: Pkt) -> bool {
    exists|m: Pkt| m.len() == k && #[trigger] star_of(own(e, r), k, p, m) && e(r, j, m, q)
}

/// An exit of row `r` after any number of loops.
pub open spec fn looped_exit(e: Edges, x: Exits, k: nat, r: int, p: Pkt, q: Pkt) -> bool {
    exists|m: Pkt| m.len() == k && #[trigger] star_of(own(e, r), k, p, m) && x(r, m, q)
}

/// `f` is `e` with the loop of row `r` removed.
pub open spec fn unlooped_edges(e: Edges, k: nat, n: nat, r: int, f: Edges) -> bool {
    &&& forall|i: int, j: int, p: Pkt, q: Pkt|
        #![trigger e(i, j, p, q)]
        #![trigger f(i, j, p, q)]
        0 <= i < n && 0 <= j < n && i != r && p.len() == k && q.len() == k ==> f(i, j, p, q) == e(
            i,
            j,
            p,
            q,
        )
    &&& forall|j: int, p: Pkt, q: Pkt|
        #![trigger f(r, j, p, q)]
        0 <= j < n && p.len() == k && q.len() == k ==> (f(r, j, p, q) <==> j != r && looped(
            e,
            k,
            r,
            j,
            p,
            q,
        ))
}

/// `y` is `x` with any number of loops before the exits of row `r`.
pub open spec fn unlooped_exits(e: Edges, x: Exits, k: nat, n: nat, r: int, y: Exits) -> bool {
    &&& forall|i: int, p: Pkt, q: Pkt|
        #![trigger x(i, p, q)]
        #![trigger y(i, p, q)]
        0 <= i < n && i != r && p.len() == k && q.len() == k ==> y(i, p, q) == x(i, p, q)
    &&& forall|p: Pkt, q: Pkt|
        #![trigger y(r, p, q)]
        p.len() == k && q.len() == k ==> (y(r, p, q) <==> looped_exit(e, x, k, r, p, q))
}

/// Row `r` of `e` and `x` with its loop removed.
pub open spec fn unlooped(e: Edges, x: Exits, k: nat, n: nat, r: int, f: Edges, y: Exits) -> bool {
    unlooped_edges(e, k, n, r, f) && unlooped_exits(e, x, k, n, r, y)
}

/// What is closed is closed under any number of loops.
proof fn lemma_closed_loops(
    e: Edges,
    x: Exits,
    k: nat,
    n: nat,
    r: int,
    z: Exits,
    p: Pkt,
    m: Pkt,
    q: Pkt,
)
    requires
        closed(e, x, k, n, z),
        0 <= r < n,
        p.len() == k,
        m.len() == k,
        q.len() == k,
        star_of(own(e, r), k, p, m),
        z(r, m, q),
    ensures
        z(r, p, q),
{
    let t = |a: Pkt, b: Pkt|
        forall|c: Pkt| #![trigger z(r, b, c)] c.len() == k && z(r, b, c) ==> z(r, a, c);
    let l = own(e, r);
    assert forall|a: Pkt, b: Pkt, c: Pkt|
        #![trigger t(a, b), l(b, c)]
        a.len() == k && b.len() == k && c.len() == k && t(a, b) && l(b, c) implies t(a, c) by {
        assert forall|d: Pkt| #![trigger z(r, c, d)] d.len() == k && z(r, c, d) implies z(
            r,
            a,
            d,
        ) by {
            assert(e(r, r, b, c));
            assert(z(r, b, d));
        }
    }
    lemma_star_least(l, t, k, p, m);
}

/// Arden's rule: removing the loop of a row changes nothing.
proof fn lemma_arden(
    e: Edges,
    x: Exits,
    k: nat,
    n: nat,
    r: int,
    f: Edges,
    y: Exits,
    i: int,
    p: Pkt,
    q: Pkt,
)
    requires
        0 <= r < n,
        0 <= i < n,
        p.len() == k,
        q.len() == k,
        unlooped(e, x, k, n, r, f, y),
    ensures
        least(f, y, k, n, i, p, q) == least(e, x, k, n, i, p, q),
{
    if least(f, y, k, n, i, p, q) {
        assert forall|z: Exits| #[trigger] closed(e, x, k, n, z) implies z(i, p, q) by {
            assert forall|a: int, b: Pkt, c: Pkt|
                #![trigger y(a, b, c)]
                0 <= a < n && b.len() == k && c.len() == k && y(a, b, c) implies z(a, b, c) by {
                if a == r {
                    let m = choose|m: Pkt|
                        m.len() == k && #[trigger] star_of(own(e, r), k, b, m) && x(r, m, c);
                    assert(z(r, m, c));
                    lemma_closed_loops(e, x, k, n, r, z, b, m, c);
                }
            }
            assert forall|a: int, j: int, b: Pkt, m: Pkt, c: Pkt|
                #![trigger f(a, j, b, m), z(j, m, c)]
                0 <= a < n && 0 <= j < n && b.len() == k && m.len() == k && c.len() == k && f(
                    a,
                    j,
                    b,
                    m,
                ) && z(j, m, c) implies z(a, b, c) by {
                if a == r {
                    let d = choose|d: Pkt|
                        d.len() == k && #[trigger] star_of(own(e, r), k, b, d) && e(r, j, d, m);
                    assert(z(r, d, c));
                    lemma_closed_loops(e, x, k, n, r, z, b, d, c);
                } else {
                    assert(e(a, j, b, m));
                }
            }
            assert(closed(f, y, k, n, z));
        }
    }
    if least(e, x, k, n, i, p, q) {
        assert forall|z: Exits| #[trigger] closed(f, y, k, n, z) implies z(i, p, q) by {
            // what row `r` gives by its new edges and exits alone
            let w: Exits = |a: int, b: Pkt, c: Pkt|
                if a == r {
                    y(r, b, c) || exists|j: int, m: Pkt|
                        0 <= j < n && m.len() == k && #[trigger] f(r, j, b, m) && z(j, m, c)
                } else {
                    z(a, b, c)
                };
            assert forall|b: Pkt, c: Pkt|
                b.len() == k && c.len() == k && #[trigger] w(r, b, c) implies z(r, b, c) by {
                if !y(r, b, c) {
                    let (j, m) = choose|j: int, m: Pkt|
                        0 <= j < n && m.len() == k && #[trigger] f(r, j, b, m) && z(j, m, c);
                    assert(z(r, b, c));
                }
            }
            assert forall|a: int, b: Pkt, c: Pkt|
                #![trigger x(a, b, c)]
                0 <= a < n && b.len() == k && c.len() == k && x(a, b, c) implies w(a, b, c) by {
                if a == r {
                    lemma_star_closed(own(e, r), k, b, b, b);
                    assert(looped_exit(e, x, k, r, b, c));
                    assert(y(r, b, c));
                } else {
                    assert(y(a, b, c));
                }
            }
            assert forall|a: int, j: int, b: Pkt, m: Pkt, c: Pkt|
                #![trigger e(a, j, b, m), w(j, m, c)]
                0 <= a < n && 0 <= j < n && b.len() == k && m.len() == k && c.len() == k && e(
                    a,
                    j,
                    b,
                    m,
                ) && w(j, m, c) implies w(a, b, c) by {
                if a != r {
                    assert(f(a, j, b, m));
                    assert(z(j, m, c));
                    assert(z(a, b, c));
                } else if j != r {
                    lemma_star_closed(own(e, r), k, b, b, b);
                    assert(looped(e, k, r, j, b, m));
                    assert(f(r, j, b, m));
                } else {
                    let l = own(e, r);
                    assert(l(b, m));
                    if y(r, m, c) {
                        let d = choose|d: Pkt|
                            d.len() == k && #[trigger] star_of(l, k, m, d) && x(r, d, c);
                        lemma_star_closed(l, k, b, b, m);
                        lemma_star_closed(l, k, b, m, d);
                        assert(looped_exit(e, x, k, r, b, c));
                        assert(y(r, b, c));
                    } else {
                        let (h, d) = choose|h: int, d: Pkt|
                            0 <= h < n && d.len() == k && #[trigger] f(r, h, m, d) && z(h, d, c);
                        let g = choose|g: Pkt|
                            g.len() == k && #[trigger] star_of(l, k, m, g) && e(r, h, g, d);
                        lemma_star_closed(l, k, b, b, m);
                        lemma_star_closed(l, k, b, m, g);
                        assert(looped(e, k, r, h, b, d));
                        assert(f(r, h, b, d));
                    }
                }
            }
            assert(closed(e, x, k, n, w));
            assert(w(i, p, q));
        }
    }
}

/// An edge to row `r`, and then one out of it.
pub open spec fn through(e: Edges, k: nat, i: int, r: int, j: int, p: Pkt, q: Pkt) -> bool {
    exists|m: Pkt| m.len() == k && #[trigger] e(i, r, p, m) && e(r, j, m, q)
}

/// An edge to row `r`, and then an exit of it.
pub open spec fn through_exit(e: Edges, x: Exits, k: nat, i: int, r: int, p: Pkt, q: Pkt) -> bool {
    exists|m: Pkt| m.len() == k && #[trigger] e(i, r, p, m) && x(r, m, q)
}

/// `f` is `e` with row `r` put in the place of the edge to it from row `s`.
pub open spec fn replaced_edges(e: Edges, k: nat, n: nat, s: int, r: int, f: Edges) -> bool {
    &&& forall|i: int, j: int, p: Pkt, q: Pkt|
        #![trigger e(i, j, p, q)]
        #![trigger f(i, j, p, q)]
        0 <= i < n && 0 <= j < n && i != s && p.len() == k && q.len() == k ==> f(i, j, p, q) == e(
            i,
            j,
            p,
            q,
        )
    &&& forall|j: int, p: Pkt, q: Pkt|
        #![trigger f(s, j, p, q)]
        0 <= j < n && p.len() == k && q.len() == k ==> (f(s, j, p, q) <==> j != r && (e(s, j, p, q)
            || through(e, k, s, r, j, p, q)))
}

/// `y` is `x` with the exits of row `r` added to those of row `s`.
pub open spec fn replaced_exits(
    e: Edges,
    x: Exits,
    k: nat,
    n: nat,
    s: int,
    r: int,
    y: Exits,
) -> bool {
    &&& forall|i: int, p: Pkt, q: Pkt|
        #![trigger x(i, p, q)]
        #![trigger y(i, p, q)]
        0 <= i < n && i != s && p.len() == k && q.len() == k ==> y(i, p, q) == x(i, p, q)
    &&& forall|p: Pkt, q: Pkt|
        #![trigger y(s, p, q)]
        p.len() == k && q.len() == k ==> (y(s, p, q) <==> x(s, p, q) || through_exit(
            e,
            x,
            k,
            s,
            r,
            p,
            q,
        ))
}

/// Row `s` of `e` and `x` with row `r` put in the place of the edge to it.
pub open spec fn replaced(
    e: Edges,
    x: Exits,
    k: nat,
    n: nat,
    s: int,
    r: int,
    f: Edges,
    y: Exits,
) -> bool {
    replaced_edges(e, k, n, s, r, f) && replaced_exits(e, x, k, n, s, r, y)
}

/// Putting a row without a loop in the place of an edge to it changes nothing.
proof fn lemma_replace(
    e: Edges,
    x: Exits,
    k: nat,
    n: nat,
    s: int,
    r: int,
    f: Edges,
    y: Exits,
    i: int,
    p: Pkt,
    q: Pkt,
)
    requires
        0 <= r < n,
        0 <= s < n,
        r != s,
        0 <= i < n,
        p.len() == k,
        q.len() == k,
        forall|a: Pkt, b: Pkt| a.len() == k && b.len() == k ==> !(#[trigger] e(r, r, a, b)),
        replaced(e, x, k, n, s, r, f, y),
    ensures
        least(f, y, k, n, i, p, q) == least(e, x, k, n, i, p, q),
{
    if least(f, y, k, n, i, p, q) {
        assert forall|z: Exits| #[trigger] closed(e, x, k, n, z) implies z(i, p, q) by {
            assert forall|a: int, b: Pkt, c: Pkt|
                #![trigger y(a, b, c)]
                0 <= a < n && b.len() == k && c.len() == k && y(a, b, c) implies z(a, b, c) by {
                if a == s && !x(s, b, c) {
                    let m = choose|m: Pkt| m.len() == k && #[trigger] e(s, r, b, m) && x(r, m, c);
                    assert(z(r, m, c));
                }
            }
            assert forall|a: int, j: int, b: Pkt, m: Pkt, c: Pkt|
                #![trigger f(a, j, b, m), z(j, m, c)]
                0 <= a < n && 0 <= j < n && b.len() == k && m.len() == k && c.len() == k && f(
                    a,
                    j,
                    b,
                    m,
                ) && z(j, m, c) implies z(a, b, c) by {
                if a == s && !e(s, j, b, m) {
                    let d = choose|d: Pkt|
                        d.len() == k && #[trigger] e(s, r, b, d) && e(r, j, d, m);
                    assert(z(r, d, c));
                    assert(z(s, b, c));
                } else {
                    assert(e(a, j, b, m));
                }
            }
            assert(closed(f, y, k, n, z));
        }
    }
    if least(e, x, k, n, i, p, q) {
        assert forall|z: Exits| #[trigger] closed(f, y, k, n, z) implies z(i, p, q) by {
            // what row `r` gives by its edges and exits alone
            let w: Exits = |a: int, b: Pkt, c: Pkt|
                if a == r {
                    x(r, b, c) || exists|j: int, m: Pkt|
                        0 <= j < n && m.len() == k && #[trigger] e(r, j, b, m) && z(j, m, c)
                } else {
                    z(a, b, c)
                };
            assert forall|b: Pkt, c: Pkt|
                b.len() == k && c.len() == k && #[trigger] w(r, b, c) implies z(r, b, c) by {
                if x(r, b, c) {
                    assert(y(r, b, c));
                } else {
                    let (j, m) = choose|j: int, m: Pkt|
                        0 <= j < n && m.len() == k && #[trigger] e(r, j, b, m) && z(j, m, c);
                    assert(f(r, j, b, m));
                    assert(z(r, b, c));
                }
            }
            assert forall|a: int, b: Pkt, c: Pkt|
                #![trigger x(a, b, c)]
                0 <= a < n && b.len() == k && c.len() == k && x(a, b, c) implies w(a, b, c) by {
                assert(y(a, b, c));
            }
            assert forall|a: int, j: int, b: Pkt, m: Pkt, c: Pkt|
                #![trigger e(a, j, b, m), w(j, m, c)]
                0 <= a < n && 0 <= j < n && b.len() == k && m.len() == k && c.len() == k && e(
                    a,
                    j,
                    b,
                    m,
                ) && w(j, m, c) implies w(a, b, c) by {
                if a == r {
                    assert(j != r);
                } else if a == s && j == r {
                    if x(r, m, c) {
                        assert(through_exit(e, x, k, s, r, b, c));
                        assert(y(s, b, c));
                    } else {
                        let (h, d) = choose|h: int, d: Pkt|
                            0 <= h < n && d.len() == k && #[trigger] e(r, h, m, d) && z(h, d, c);
                        assert(h != r);
                        assert(through(e, k, s, r, h, b, d));
                        assert(f(s, h, b, d));
                        assert(z(s, b, c));
                    }
                } else {
                    assert(f(a, j, b, m));
                    assert(z(j, m, c));
                    assert(z(a, b, c));
                }
            }
            assert(closed(e, x, k, n, w));
            assert(w(i, p, q));
        }
    }
}

// ---- elimination -------------------------------------------------------------------

/// The edges of a table of relations.
pub open spec fn edges_of(st: SPPstore, rows: Seq<Vec<SPP>>) -> Edges {
    |i: int, j: int, p: Pkt, q: Pkt| st.rel(rows[i]@[j], p, q)
}

/// The exits in column `c` of a table of relations.
pub open spec fn exits_of(st: SPPstore, rows: Seq<Vec<SPP>>, c: int) -> Exits {
    |i: int, p: Pkt, q: Pkt| st.rel(rows[i]@[c], p, q)
}

/// A row of relations.
pub open spec fn row_ok(st: SPPstore, row: Seq<SPP>, m: nat) -> bool {
    row.len() == m && forall|j: int| 0 <= j < m ==> st.has(#[trigger] row[j])
}

/// A table of relations with `n` rows of `m` columns.
pub open spec fn rows_ok(st: SPPstore, rows: Seq<Vec<SPP>>, n: nat, m: nat) -> bool {
    rows.len() == n && forall|i: int| 0 <= i < n ==> row_ok(st, (#[trigger] rows[i])@, m)
}

/// A step of `a`, and then one of `b`.
pub open spec fn joined(st: SPPstore, a: SPP, b: SPP, p: Pkt, q: Pkt) -> bool {
    exists|m: Pkt| m.len() == st.n() && #[trigger] st.rel(a, p, m) && st.rel(b, m, q)
}

proof fn lemma_joined_ext(st: SPPstore, o: SPPstore, a: SPP, b: SPP, p: Pkt, q: Pkt)
    requires
        st.extends(&o),
        o.has(a),
        o.has(b),
        p.len() == o.n(),
        q.len() == o.n(),
    ensures
        joined(st, a, b, p, q) == joined(o, a, b, p, q),
{
    if joined(st, a, b, p, q) {
        let m = choose|m: Pkt| m.len() == st.n() && #[trigger] st.rel(a, p, m) && st.rel(b, m, q);
        assert(o.rel(a, p, m) && o.rel(b, m, q));
    }
    if joined(o, a, b, p, q) {
        let m = choose|m: Pkt| m.len() == o.n() && #[trigger] o.rel(a, p, m) && o.rel(b, m, q);
        assert(st.rel(a, p, m) && st.rel(b, m, q));
    }
}

/// The row plus `s` followed by each relation of `add`.
fn plus_scaled(store: &mut SPPstore, row: &Vec<SPP>, s: SPP, add: &Vec<SPP>) -> (r: Vec<SPP>)
    requires
        old(store).wf(),
        row_ok(*old(store), row@, row@.len()),
        row_ok(*old(store), add@, row@.len()),
        old(store).has(s),
    ensures
        final(store).wf(),
        final(store).extends(old(store)),
        final(store).sp == old(store).sp,
        row_ok(*final(store), r@, row@.len()),
        forall|j: int, p: Pkt, q: Pkt|
            #![trigger final(store).rel(r@[j], p, q)]
            0 <= j < row@.len() && p.len() == old(store).n() && q.len() == old(store).n() ==> (final(
                store).rel(r@[j], p, q) <==> old(store).rel(row@[j], p, q) || joined(
                *old(store),
                s,
                add@[j],
                p,
                q,
            )),
{
    let ghost o = *store;
    let mut r: Vec<SPP> = Vec::new();
    let mut i: usize = 0;
    while i < row.len()
        invariant
            store.wf(),
            store.extends(&o),
            store.sp == o.sp,
            row_ok(o, row@, row@.len()),
            row_ok(o, add@, row@.len()),
            o.has(s),
            i <= row@.len(),
            row_ok(*store, r@, i as nat),
            forall|j: int, p: Pkt, q: Pkt|
                #![trigger store.rel(r@[j], p, q)]
                0 <= j < i && p.len() == o.n() && q.len() == o.n() ==> (store.rel(r@[j], p, q)
                    <==> o.rel(row@[j], p, q) || joined(o, s, add@[j], p, q)),
        decreases row.len() - i,
    {
        let ghost s0 = *store;
        let ghost r0 = r@;
        let step = store.sequence(s, add[i]);
        let ghost s1 = *store;
        let x = store.union(row[i], step);
        r.push(x);
        proof {
            assert forall|j: int, p: Pkt, q: Pkt|
                #![trigger store.rel(r@[j], p, q)]
                0 <= j < i + 1 && p.len() == o.n() && q.len() == o.n() implies (store.rel(
                r@[j],
                p,
                q,
            ) <==> o.rel(row@[j], p, q) || joined(o, s, add@[j], p, q)) by {
                if j < i {
                    assert(r@[j] == r0[j]);
                    assert(s0.rel(r0[j], p, q) == store.rel(r0[j], p, q));
                } else {
                    assert(s1.rel(row@[j], p, q) == o.rel(row@[j], p, q));
                    lemma_joined_ext(s0, o, s, add@[j], p, q);
                    assert(s1.rel(step, p, q) == joined(s0, s, add@[j], p, q));
                }
            }
            assert forall|j: int| 0 <= j < r@.len() implies store.has(#[trigger] r@[j]) by {
                if j < i {
                    assert(r@[j] == r0[j]);
                    assert(s0.has(r0[j]));
                }
            }
        }
        i = i + 1;
    }
    r
}

/// `s` followed by each relation of the row.
fn scaled(store: &mut SPPstore, s: SPP, row: &Vec<SPP>) -> (r: Vec<SPP>)
    requires
        old(store).wf(),
        row_ok(*old(store), row@, row@.len()),
        old(store).has(s),
    ensures
        final(store).wf(),
        final(store).extends(old(store)),
        final(store).sp == old(store).sp,
        row_ok(*final(store), r@, row@.len()),
        forall|j: int, p: Pkt, q: Pkt|
            #![trigger final(store).rel(r@[j], p, q)]
            0 <= j < row@.len() && p.len() == old(store).n() && q.len() == old(store).n() ==> (final(
                store).rel(r@[j], p, q) <==> joined(*old(store), s, row@[j], p, q)),
{
    let ghost o = *store;
    proof {
        o.lemma_wf();
    }
    let empty = row_of(store.zero, row.len());
    plus_scaled(store, &empty, s, row)
}

/// A row that holds `x` throughout.
pub(crate) fn row_of(x: SPP, m: usize) -> (r: Vec<SPP>)
    ensures
        r@.len() == m,
        forall|j: int| 0 <= j < m ==> #[trigger] r@[j] == x,
{
    let mut r: Vec<SPP> = Vec::new();
    let mut i: usize = 0;
    while i < m
        invariant
            i <= m,
            r@.len() == i,
            forall|j: int| 0 <= j < i ==> #[trigger] r@[j] == x,
        decreases m - i,
    {
        r.push(x);
        i = i + 1;
    }
    r
}

fn copy_row(row: &Vec<SPP>) -> (r: Vec<SPP>)
    ensures
        r@ == row@,
{
    let mut r: Vec<SPP> = Vec::new();
    let mut i: usize = 0;
    while i < row.len()
        invariant
            i <= row@.len(),
            r@ == row@.take(i as int),
        decreases row.len() - i,
    {
        r.push(row[i]);
        i = i + 1;
    }
    assert(row@.take(i as int) =~= row@);
    r
}

/// Removes the loop of row `r`.
fn unloop(store: &mut SPPstore, edges: &mut Vec<Vec<SPP>>, exits: &mut Vec<Vec<SPP>>, r: usize, width: usize)
    requires
        old(store).wf(),
        rows_ok(*old(store), old(edges)@, old(edges)@.len(), old(edges)@.len()),
        rows_ok(*old(store), old(exits)@, old(edges)@.len(), width as nat),
        r < old(edges)@.len(),
    ensures
        final(store).wf(),
        final(store).extends(old(store)),
        final(store).sp == old(store).sp,
        rows_ok(*final(store), final(edges)@, old(edges)@.len(), old(edges)@.len()),
        rows_ok(*final(store), final(exits)@, old(edges)@.len(), width as nat),
        unlooped_edges(
            edges_of(*old(store), old(edges)@),
            old(store).n(),
            old(edges)@.len(),
            r as int,
            edges_of(*final(store), final(edges)@),
        ),
        forall|c: int|
            #![trigger exits_of(*final(store), final(exits)@, c)]
            0 <= c < width ==> unlooped_exits(
                edges_of(*old(store), old(edges)@),
                exits_of(*old(store), old(exits)@, c),
                old(store).n(),
                old(edges)@.len(),
                r as int,
                exits_of(*final(store), final(exits)@, c),
            ),
{
    let ghost o = *store;
    let ghost k = store.n();
    let ghost n = edges@.len();
    let ghost (es, xs) = (edges@, exits@);
    proof {
        o.lemma_wf();
        assert(row_ok(o, es[r as int]@, n));
        assert(row_ok(o, xs[r as int]@, width as nat));
    }
    let own_loop = edges[r][r];
    let l_star = store.star(own_loop);
    let ghost s1 = *store;
    let mut row = copy_row(&edges[r]);
    row.set(r, store.zero);
    let new_row = scaled(store, l_star, &row);
    let ghost s2 = *store;
    let new_exits = scaled(store, l_star, &exits[r]);
    let ghost s3 = *store;
    edges.set(r, new_row);
    exits.set(r, new_exits);
    proof {
        let e = edges_of(o, es);
        let f = edges_of(s3, edges@);
        let l = own(e, r as int);
        assert forall|i: int| 0 <= i < n implies row_ok(s3, (#[trigger] edges@[i])@, n) by {
            if i != r {
                assert(edges@[i] == es[i]);
                assert(row_ok(o, es[i]@, n));
            } else {
                assert(row_ok(s2, new_row@, n));
            }
        }
        assert forall|i: int| 0 <= i < n implies row_ok(
            s3,
            (#[trigger] exits@[i])@,
            width as nat,
        ) by {
            if i != r {
                assert(exits@[i] == xs[i]);
                assert(row_ok(o, xs[i]@, width as nat));
            }
        }
        assert forall|p: Pkt, q: Pkt|
            p.len() == k && q.len() == k implies #[trigger] s1.rel(l_star, p, q) == star_of(
            l,
            k,
            p,
            q,
        ) by {
            lemma_star_same(o.fun(own_loop), l, k, p, q);
        }
        assert forall|i: int, j: int, p: Pkt, q: Pkt|
            #![trigger e(i, j, p, q)]
            #![trigger f(i, j, p, q)]
            0 <= i < n && 0 <= j < n && i != r && p.len() == k && q.len() == k implies f(
            i,
            j,
            p,
            q,
        ) == e(i, j, p, q) by {
            assert(edges@[i] == es[i]);
            assert(row_ok(o, es[i]@, n));
            assert(o.has(es[i]@[j]));
        }
        assert forall|j: int, p: Pkt, q: Pkt|
            #![trigger f(r as int, j, p, q)]
            0 <= j < n && p.len() == k && q.len() == k implies (f(r as int, j, p, q) <==> j != r
            && looped(e, k, r as int, j, p, q)) by {
            assert(s3.rel(new_row@[j], p, q) == s2.rel(new_row@[j], p, q));
            assert(s2.rel(new_row@[j], p, q) == joined(s1, l_star, row@[j], p, q));
            if joined(s1, l_star, row@[j], p, q) {
                let m = choose|m: Pkt|
                    m.len() == k && #[trigger] s1.rel(l_star, p, m) && s1.rel(row@[j], m, q);
                assert(o.rel(row@[j], m, q));
                assert(star_of(l, k, p, m));
            }
            if j != r && looped(e, k, r as int, j, p, q) {
                let m = choose|m: Pkt|
                    m.len() == k && #[trigger] star_of(l, k, p, m) && e(r as int, j, m, q);
                assert(o.rel(row@[j], m, q));
                assert(s1.rel(l_star, p, m) && s1.rel(row@[j], m, q));
            }
        }
        assert forall|c: int| #![trigger exits_of(s3, exits@, c)]
            0 <= c < width implies unlooped_exits(
            e,
            exits_of(o, xs, c),
            k,
            n,
            r as int,
            exits_of(s3, exits@, c),
        ) by {
            let x = exits_of(o, xs, c);
            let y = exits_of(s3, exits@, c);
            assert forall|i: int, p: Pkt, q: Pkt|
                #![trigger x(i, p, q)]
                #![trigger y(i, p, q)]
                0 <= i < n && i != r && p.len() == k && q.len() == k implies y(i, p, q) == x(
                i,
                p,
                q,
            ) by {
                assert(exits@[i] == xs[i]);
                assert(row_ok(o, xs[i]@, width as nat));
                assert(o.has(xs[i]@[c]));
            }
            assert forall|p: Pkt, q: Pkt|
                #![trigger y(r as int, p, q)]
                p.len() == k && q.len() == k implies (y(r as int, p, q) <==> looped_exit(
                e,
                x,
                k,
                r as int,
                p,
                q,
            )) by {
                let b = xs[r as int]@[c];
                assert(o.has(b));
                assert(s3.rel(new_exits@[c], p, q) == joined(s2, l_star, b, p, q));
                lemma_joined_ext(s2, s1, l_star, b, p, q);
                if joined(s1, l_star, b, p, q) {
                    let m = choose|m: Pkt|
                        m.len() == k && #[trigger] s1.rel(l_star, p, m) && s1.rel(b, m, q);
                    assert(o.rel(b, m, q));
                    assert(star_of(l, k, p, m));
                }
                if looped_exit(e, x, k, r as int, p, q) {
                    let m = choose|m: Pkt|
                        m.len() == k && #[trigger] star_of(l, k, p, m) && x(r as int, m, q);
                    assert(o.rel(b, m, q));
                    assert(s1.rel(l_star, p, m) && s1.rel(b, m, q));
                }
            }
        }
    }
}

/// Puts row `r` in the place of the edge to it from row `s`.
fn replace(
    store: &mut SPPstore,
    edges: &mut Vec<Vec<SPP>>,
    exits: &mut Vec<Vec<SPP>>,
    s: usize,
    r: usize,
    width: usize,
)
    requires
        old(store).wf(),
        rows_ok(*old(store), old(edges)@, old(edges)@.len(), old(edges)@.len()),
        rows_ok(*old(store), old(exits)@, old(edges)@.len(), width as nat),
        r < old(edges)@.len(),
        s < old(edges)@.len(),
        r != s,
    ensures
        final(store).wf(),
        final(store).extends(old(store)),
        final(store).sp == old(store).sp,
        rows_ok(*final(store), final(edges)@, old(edges)@.len(), old(edges)@.len()),
        rows_ok(*final(store), final(exits)@, old(edges)@.len(), width as nat),
        replaced_edges(
            edges_of(*old(store), old(edges)@),
            old(store).n(),
            old(edges)@.len(),
            s as int,
            r as int,
            edges_of(*final(store), final(edges)@),
        ),
        forall|c: int|
            #![trigger exits_of(*final(store), final(exits)@, c)]
            0 <= c < width ==> replaced_exits(
                edges_of(*old(store), old(edges)@),
                exits_of(*old(store), old(exits)@, c),
                old(store).n(),
                old(edges)@.len(),
                s as int,
                r as int,
                exits_of(*final(store), final(exits)@, c),
            ),
{
    let ghost o = *store;
    let ghost k = store.n();
    let ghost n = edges@.len();
    let ghost (es, xs) = (edges@, exits@);
    proof {
        o.lemma_wf();
        assert(row_ok(o, es[r as int]@, n));
        assert(row_ok(o, xs[r as int]@, width as nat));
        assert(row_ok(o, es[s as int]@, n));
        assert(row_ok(o, xs[s as int]@, width as nat));
    }
    let step = edges[s][r];
    let mut row = copy_row(&edges[s]);
    row.set(r, store.zero);
    let mut add = copy_row(&edges[r]);
    add.set(r, store.zero);
    let new_row = plus_scaled(store, &row, step, &add);
    let ghost s2 = *store;
    let new_exits = plus_scaled(store, &exits[s], step, &exits[r]);
    let ghost s3 = *store;
    edges.set(s, new_row);
    exits.set(s, new_exits);
    proof {
        let e = edges_of(o, es);
        let f = edges_of(s3, edges@);
        assert forall|i: int| 0 <= i < n implies row_ok(s3, (#[trigger] edges@[i])@, n) by {
            if i != s {
                assert(edges@[i] == es[i]);
                assert(row_ok(o, es[i]@, n));
            } else {
                assert(row_ok(s2, new_row@, n));
            }
        }
        assert forall|i: int| 0 <= i < n implies row_ok(
            s3,
            (#[trigger] exits@[i])@,
            width as nat,
        ) by {
            if i != s {
                assert(exits@[i] == xs[i]);
                assert(row_ok(o, xs[i]@, width as nat));
            }
        }
        assert forall|i: int, j: int, p: Pkt, q: Pkt|
            #![trigger e(i, j, p, q)]
            #![trigger f(i, j, p, q)]
            0 <= i < n && 0 <= j < n && i != s && p.len() == k && q.len() == k implies f(
            i,
            j,
            p,
            q,
        ) == e(i, j, p, q) by {
            assert(edges@[i] == es[i]);
            assert(row_ok(o, es[i]@, n));
            assert(o.has(es[i]@[j]));
        }
        assert forall|j: int, p: Pkt, q: Pkt|
            #![trigger f(s as int, j, p, q)]
            0 <= j < n && p.len() == k && q.len() == k implies (f(s as int, j, p, q) <==> j != r
            && (e(s as int, j, p, q) || through(e, k, s as int, r as int, j, p, q))) by {
            assert(s3.rel(new_row@[j], p, q) == s2.rel(new_row@[j], p, q));
            assert(s2.rel(new_row@[j], p, q) <==> o.rel(row@[j], p, q) || joined(
                o,
                step,
                add@[j],
                p,
                q,
            ));
            if joined(o, step, add@[j], p, q) {
                let m = choose|m: Pkt|
                    m.len() == k && #[trigger] o.rel(step, p, m) && o.rel(add@[j], m, q);
                assert(j != r);
                assert(e(s as int, r as int, p, m) && e(r as int, j, m, q));
            }
            if j != r && through(e, k, s as int, r as int, j, p, q) {
                let m = choose|m: Pkt|
                    m.len() == k && #[trigger] e(s as int, r as int, p, m) && e(r as int, j, m, q);
                assert(o.rel(step, p, m) && o.rel(add@[j], m, q));
            }
        }
        assert forall|c: int| #![trigger exits_of(s3, exits@, c)]
            0 <= c < width implies replaced_exits(
            e,
            exits_of(o, xs, c),
            k,
            n,
            s as int,
            r as int,
            exits_of(s3, exits@, c),
        ) by {
            let x = exits_of(o, xs, c);
            let y = exits_of(s3, exits@, c);
            assert forall|i: int, p: Pkt, q: Pkt|
                #![trigger x(i, p, q)]
                #![trigger y(i, p, q)]
                0 <= i < n && i != s && p.len() == k && q.len() == k implies y(i, p, q) == x(
                i,
                p,
                q,
            ) by {
                assert(exits@[i] == xs[i]);
                assert(row_ok(o, xs[i]@, width as nat));
                assert(o.has(xs[i]@[c]));
            }
            assert forall|p: Pkt, q: Pkt|
                #![trigger y(s as int, p, q)]
                p.len() == k && q.len() == k implies (y(s as int, p, q) <==> x(s as int, p, q)
                || through_exit(e, x, k, s as int, r as int, p, q)) by {
                let b = xs[r as int]@[c];
                let a = xs[s as int]@[c];
                assert(o.has(b));
                assert(o.has(a));
                assert(s3.rel(new_exits@[c], p, q) <==> s2.rel(a, p, q) || joined(
                    s2,
                    step,
                    b,
                    p,
                    q,
                ));
                assert(s2.rel(a, p, q) == o.rel(a, p, q));
                lemma_joined_ext(s2, o, step, b, p, q);
                if joined(o, step, b, p, q) {
                    let m = choose|m: Pkt|
                        m.len() == k && #[trigger] o.rel(step, p, m) && o.rel(b, m, q);
                    assert(e(s as int, r as int, p, m) && x(r as int, m, q));
                }
                if through_exit(e, x, k, s as int, r as int, p, q) {
                    let m = choose|m: Pkt|
                        m.len() == k && #[trigger] e(s as int, r as int, p, m) && x(
                            r as int,
                            m,
                            q,
                        );
                    assert(o.rel(step, p, m) && o.rel(b, m, q));
                }
            }
        }
    }
}

/// No edge from row `i` to row `j`.
pub open spec fn apart(e: Edges, k: nat, i: int, j: int) -> bool {
    forall|p: Pkt, q: Pkt| p.len() == k && q.len() == k ==> !(#[trigger] e(i, j, p, q))
}

/// Both systems relate the same by walks.
spec fn agree(e: Edges, x: Exits, f: Edges, y: Exits, k: nat, n: nat) -> bool {
    forall|i: int, p: Pkt, q: Pkt| #![trigger least(e, x, k, n, i, p, q)]
        #![trigger least(f, y, k, n, i, p, q)]
        0 <= i < n && p.len() == k && q.len() == k ==> least(e, x, k, n, i, p, q) == least(
            f,
            y,
            k,
            n,
            i,
            p,
            q,
        )
}

/// After removing a loop, the row has no loop, and no edge that it had not.
proof fn lemma_unlooped(e: Edges, k: nat, n: nat, r: int, f: Edges)
    requires
        0 <= r < n,
        unlooped_edges(e, k, n, r, f),
    ensures
        apart(f, k, r, r),
        forall|i: int, j: int|
            #![trigger apart(f, k, i, j)]
            0 <= i < n && 0 <= j < n && apart(e, k, i, j) ==> apart(f, k, i, j),
{
    assert forall|i: int, j: int|
        #![trigger apart(f, k, i, j)]
        0 <= i < n && 0 <= j < n && apart(e, k, i, j) implies apart(f, k, i, j) by {
        assert forall|p: Pkt, q: Pkt| p.len() == k && q.len() == k implies !(#[trigger] f(
            i,
            j,
            p,
            q,
        )) by {
            if i == r {
                if looped(e, k, r, j, p, q) {
                    let m = choose|m: Pkt|
                        m.len() == k && #[trigger] star_of(own(e, r), k, p, m) && e(r, j, m, q);
                    assert(false);
                }
            } else {
                assert(!e(i, j, p, q));
            }
        }
    }
}

/// After row `r` was put in the place of the edge from `s`, the edge is gone,
/// and there is no edge that neither row had.
proof fn lemma_replaced(e: Edges, k: nat, n: nat, s: int, r: int, f: Edges)
    requires
        0 <= r < n,
        0 <= s < n,
        r != s,
        replaced_edges(e, k, n, s, r, f),
    ensures
        apart(f, k, s, r),
        forall|i: int, j: int|
            #![trigger apart(f, k, i, j)]
            0 <= i < n && 0 <= j < n && apart(e, k, i, j) && (i == s ==> apart(e, k, r, j))
                ==> apart(f, k, i, j),
{
    assert forall|i: int, j: int|
        #![trigger apart(f, k, i, j)]
        0 <= i < n && 0 <= j < n && apart(e, k, i, j) && (i == s ==> apart(
            e,
            k,
            r,
            j,
        )) implies apart(f, k, i, j) by {
        assert forall|p: Pkt, q: Pkt| p.len() == k && q.len() == k implies !(#[trigger] f(
            i,
            j,
            p,
            q,
        )) by {
            assert(!e(i, j, p, q));
            if i == s && through(e, k, s, r, j, p, q) {
                let m = choose|m: Pkt| m.len() == k && #[trigger] e(s, r, p, m) && e(r, j, m, q);
                assert(false);
            }
        }
    }
}

/// A system without edges relates what its exits relate.
proof fn lemma_no_edges(e: Edges, x: Exits, k: nat, n: nat, i: int, p: Pkt, q: Pkt)
    requires
        forall|a: int, b: int| 0 <= a < n && 0 <= b < n ==> #[trigger] apart(e, k, a, b),
        0 <= i < n,
        p.len() == k,
        q.len() == k,
    ensures
        least(e, x, k, n, i, p, q) == x(i, p, q),
{
    assert forall|a: int, j: int, b: Pkt, m: Pkt, c: Pkt|
        #![trigger e(a, j, b, m), x(j, m, c)]
        0 <= a < n && 0 <= j < n && b.len() == k && m.len() == k && c.len() == k && e(a, j, b, m)
            && x(j, m, c) implies x(a, b, c) by {
        assert(apart(e, k, a, j));
    }
    assert(closed(e, x, k, n, x));
}

/// The table's system agrees with the given one, in every column.
spec fn still(
    st: SPPstore,
    edges: Seq<Vec<SPP>>,
    exits: Seq<Vec<SPP>>,
    o: SPPstore,
    es: Seq<Vec<SPP>>,
    xs: Seq<Vec<SPP>>,
    k: nat,
    n: nat,
    width: nat,
) -> bool {
    forall|c: int| #![trigger exits_of(st, exits, c)]
        0 <= c < width ==> agree(
            edges_of(o, es),
            exits_of(o, xs, c),
            edges_of(st, edges),
            exits_of(st, exits, c),
            k,
            n,
        )
}

/// Solves the system: the relation in row `i` and column `c` of the result is
/// that of the walks from row `i` that leave through an exit in column `c`.
pub fn solve(
    store: &mut SPPstore,
    edges: Vec<Vec<SPP>>,
    exits: Vec<Vec<SPP>>,
    width: usize,
) -> (r: Vec<Vec<SPP>>)
    requires
        old(store).wf(),
        rows_ok(*old(store), edges@, edges@.len(), edges@.len()),
        rows_ok(*old(store), exits@, edges@.len(), width as nat),
    ensures
        final(store).wf(),
        final(store).extends(old(store)),
        final(store).sp == old(store).sp,
        rows_ok(*final(store), r@, edges@.len(), width as nat),
        forall|i: int, c: int, p: Pkt, q: Pkt|
            #![trigger final(store).rel(r@[i]@[c], p, q)]
            0 <= i < edges@.len() && 0 <= c < width && p.len() == old(store).n() && q.len() == old(
                store).n() ==> (final(store).rel(r@[i]@[c], p, q) <==> flows(
                edges_of(*old(store), edges@),
                exits_of(*old(store), exits@, c),
                old(store).n(),
                edges@.len(),
                i,
                p,
                q,
            )),
{
    let ghost o = *store;
    let ghost k = store.n();
    let ghost n = edges@.len();
    let ghost (es, xs) = (edges@, exits@);
    let mut edges = edges;
    let mut exits = exits;
    let len: usize = edges.len();
    // edges to smaller rows, and loops, are removed
    let mut row: usize = 0;
    while row < len
        invariant
            store.wf(),
            store.extends(&o),
            store.sp == o.sp,
            k == o.n(),
            n == len,
            row <= len,
            rows_ok(*store, edges@, n, n),
            rows_ok(*store, exits@, n, width as nat),
            still(*store, edges@, exits@, o, es, xs, k, n, width as nat),
            forall|i: int, j: int| #![trigger apart(edges_of(*store, edges@), k, i, j)]
                0 <= j < row && j <= i < n ==> apart(edges_of(*store, edges@), k, i, j),
        decreases len - row,
    {
        let ghost (s0, e0, x0) = (*store, edges@, exits@);
        unloop(store, &mut edges, &mut exits, row, width);
        proof {
            lemma_unloop_still(s0, e0, x0, *store, edges@, exits@, o, es, xs, k, n, width as nat, row as int);
            let e = edges_of(s0, e0);
            let f = edges_of(*store, edges@);
            lemma_unlooped(e, k, n, row as int, f);
            assert forall|i: int, j: int|
                #![trigger apart(f, k, i, j)]
                0 <= j < row && j <= i < n implies apart(f, k, i, j) by {
                assert(apart(e, k, i, j));
            }
        }
        let mut s: usize = row + 1;
        while s < len
            invariant
                store.wf(),
                store.extends(&o),
                store.sp == o.sp,
                k == o.n(),
                n == len,
                row < len,
                row < s <= len,
                rows_ok(*store, edges@, n, n),
                rows_ok(*store, exits@, n, width as nat),
                still(*store, edges@, exits@, o, es, xs, k, n, width as nat),
                forall|i: int, j: int| #![trigger apart(edges_of(*store, edges@), k, i, j)]
                    0 <= j < row && j <= i < n ==> apart(edges_of(*store, edges@), k, i, j),
                forall|i: int| #![trigger apart(edges_of(*store, edges@), k, i, row as int)]
                    row <= i < s ==> apart(edges_of(*store, edges@), k, i, row as int),
            decreases len - s,
        {
            let ghost (s1, e1, x1) = (*store, edges@, exits@);
            proof {
                assert(apart(edges_of(s1, e1), k, row as int, row as int));
            }
            replace(store, &mut edges, &mut exits, s, row, width);
            proof {
                lemma_replace_still(s1, e1, x1, *store, edges@, exits@, o, es, xs, k, n, width as nat, s as int, row as int);
                lemma_replaced(edges_of(s1, e1), k, n, s as int, row as int, edges_of(*store, edges@));
                let e = edges_of(s1, e1);
                let f = edges_of(*store, edges@);
                assert forall|i: int, j: int| #![trigger apart(f, k, i, j)]
                    0 <= j < row && j <= i < n implies apart(f, k, i, j) by {
                    assert(apart(e, k, i, j));
                    assert(apart(e, k, row as int, j));
                }
                assert forall|i: int| #![trigger apart(f, k, i, row as int)]
                    row <= i < s + 1 implies apart(f, k, i, row as int) by {
                    if i < s {
                        assert(apart(e, k, i, row as int));
                    }
                }
            }
            s = s + 1;
        }
        row = row + 1;
    }
    // edges to larger rows are removed, from the last row on
    let mut row: usize = len;
    while row > 0
        invariant
            store.wf(),
            store.extends(&o),
            store.sp == o.sp,
            k == o.n(),
            n == len,
            row <= len,
            rows_ok(*store, edges@, n, n),
            rows_ok(*store, exits@, n, width as nat),
            still(*store, edges@, exits@, o, es, xs, k, n, width as nat),
            forall|i: int, j: int| #![trigger apart(edges_of(*store, edges@), k, i, j)]
                0 <= i < n && 0 <= j < n && (j <= i || j >= row) ==> apart(
                    edges_of(*store, edges@),
                    k,
                    i,
                    j,
                ),
        decreases row,
    {
        let r: usize = row - 1;
        let mut s: usize = 0;
        while s < r
            invariant
                store.wf(),
                store.extends(&o),
                store.sp == o.sp,
                k == o.n(),
                n == len,
                r < len,
                s <= r,
                rows_ok(*store, edges@, n, n),
                rows_ok(*store, exits@, n, width as nat),
                still(*store, edges@, exits@, o, es, xs, k, n, width as nat),
                forall|i: int, j: int| #![trigger apart(edges_of(*store, edges@), k, i, j)]
                    0 <= i < n && 0 <= j < n && (j <= i || j > r || (j == r && i < s)) ==> apart(
                        edges_of(*store, edges@),
                        k,
                        i,
                        j,
                    ),
            decreases r - s,
        {
            let ghost (s1, e1, x1) = (*store, edges@, exits@);
            proof {
                assert(apart(edges_of(s1, e1), k, r as int, r as int));
            }
            replace(store, &mut edges, &mut exits, s, r, width);
            proof {
                lemma_replace_still(s1, e1, x1, *store, edges@, exits@, o, es, xs, k, n, width as nat, s as int, r as int);
                lemma_replaced(edges_of(s1, e1), k, n, s as int, r as int, edges_of(*store, edges@));
                let e = edges_of(s1, e1);
                let f = edges_of(*store, edges@);
                assert forall|i: int, j: int| #![trigger apart(f, k, i, j)]
                    0 <= i < n && 0 <= j < n && (j <= i || j > r || (j == r && i < s + 1))
                        implies apart(f, k, i, j) by {
                    if !(i == s && j == r) {
                        assert(apart(e, k, i, j));
                        assert(apart(e, k, r as int, j));
                    }
                }
            }
            s = s + 1;
        }
        row = r;
    }
    proof {
        let e = edges_of(*store, edges@);
        assert forall|i: int, c: int, p: Pkt, q: Pkt|
            #![trigger store.rel(exits@[i]@[c], p, q)]
            0 <= i < n && 0 <= c < width && p.len() == k && q.len() == k implies (store.rel(
            exits@[i]@[c],
            p,
            q,
        ) <==> flows(edges_of(o, es), exits_of(o, xs, c), k, n, i, p, q)) by {
            let x = exits_of(*store, exits@, c);
            lemma_no_edges(e, x, k, n, i, p, q);
            lemma_least(edges_of(o, es), exits_of(o, xs, c), k, n, i, p, q);
            assert(least(edges_of(o, es), exits_of(o, xs, c), k, n, i, p, q) == least(
                e,
                x,
                k,
                n,
                i,
                p,
                q,
            ));
        }
    }
    exits
}

proof fn lemma_unloop_still(
    s0: SPPstore,
    e0: Seq<Vec<SPP>>,
    x0: Seq<Vec<SPP>>,
    s1: SPPstore,
    e1: Seq<Vec<SPP>>,
    x1: Seq<Vec<SPP>>,
    o: SPPstore,
    es: Seq<Vec<SPP>>,
    xs: Seq<Vec<SPP>>,
    k: nat,
    n: nat,
    width: nat,
    r: int,
)
    requires
        0 <= r < n,
        still(s0, e0, x0, o, es, xs, k, n, width),
        unlooped_edges(edges_of(s0, e0), k, n, r, edges_of(s1, e1)),
        forall|c: int|
            #![trigger exits_of(s1, x1, c)]
            0 <= c < width ==> unlooped_exits(
                edges_of(s0, e0),
                exits_of(s0, x0, c),
                k,
                n,
                r,
                exits_of(s1, x1, c),
            ),
    ensures
        still(s1, e1, x1, o, es, xs, k, n, width),
{
    let (e, f) = (edges_of(s0, e0), edges_of(s1, e1));
    assert forall|c: int| #![trigger exits_of(s1, x1, c)] 0 <= c < width implies agree(
        edges_of(o, es),
        exits_of(o, xs, c),
        f,
        exits_of(s1, x1, c),
        k,
        n,
    ) by {
        let (x, y) = (exits_of(s0, x0, c), exits_of(s1, x1, c));
        let (a, b) = (edges_of(o, es), exits_of(o, xs, c));
        assert(agree(a, b, e, x, k, n));
        assert forall|i: int, p: Pkt, q: Pkt|
            #![trigger least(a, b, k, n, i, p, q)]
            #![trigger least(f, y, k, n, i, p, q)]
            0 <= i < n && p.len() == k && q.len() == k implies least(a, b, k, n, i, p, q) == least(
            f,
            y,
            k,
            n,
            i,
            p,
            q,
        ) by {
            lemma_arden(e, x, k, n, r, f, y, i, p, q);
            assert(least(e, x, k, n, i, p, q) == least(a, b, k, n, i, p, q));
        }
    }
}

proof fn lemma_replace_still(
    s0: SPPstore,
    e0: Seq<Vec<SPP>>,
    x0: Seq<Vec<SPP>>,
    s1: SPPstore,
    e1: Seq<Vec<SPP>>,
    x1: Seq<Vec<SPP>>,
    o: SPPstore,
    es: Seq<Vec<SPP>>,
    xs: Seq<Vec<SPP>>,
    k: nat,
    n: nat,
    width: nat,
    s: int,
    r: int,
)
    requires
        0 <= r < n,
        0 <= s < n,
        r != s,
        apart(edges_of(s0, e0), k, r, r),
        still(s0, e0, x0, o, es, xs, k, n, width),
        replaced_edges(edges_of(s0, e0), k, n, s, r, edges_of(s1, e1)),
        forall|c: int|
            #![trigger exits_of(s1, x1, c)]
            0 <= c < width ==> replaced_exits(
                edges_of(s0, e0),
                exits_of(s0, x0, c),
                k,
                n,
                s,
                r,
                exits_of(s1, x1, c),
            ),
    ensures
        still(s1, e1, x1, o, es, xs, k, n, width),
{
    let (e, f) = (edges_of(s0, e0), edges_of(s1, e1));
    assert forall|c: int| #![trigger exits_of(s1, x1, c)] 0 <= c < width implies agree(
        edges_of(o, es),
        exits_of(o, xs, c),
        f,
        exits_of(s1, x1, c),
        k,
        n,
    ) by {
        let (x, y) = (exits_of(s0, x0, c), exits_of(s1, x1, c));
        let (a, b) = (edges_of(o, es), exits_of(o, xs, c));
        assert(agree(a, b, e, x, k, n));
        assert forall|i: int, p: Pkt, q: Pkt|
            #![trigger least(a, b, k, n, i, p, q)]
            #![trigger least(f, y, k, n, i, p, q)]
            0 <= i < n && p.len() == k && q.len() == k implies least(a, b, k, n, i, p, q) == least(
            f,
            y,
            k,
            n,
            i,
            p,
            q,
        ) by {
            lemma_replace(e, x, k, n, s, r, f, y, i, p, q);
            assert(least(e, x, k, n, i, p, q) == least(a, b, k, n, i, p, q));
        }
    }
}

} // verus!
