//! Symbolic packet programs: relations between packets.
//!
//! A program over `n` fields relates an input packet to an output packet.  It
//! is kept as a diagram with two levels per field, the input bit first, so
//! equal relations have equal indices.
use std::collections::HashMap;
use vstd::prelude::*;
use crate::bdd::{
    depth, ext, is_node, key_of, lemma_canonical, lemma_children, lemma_ext_depth, lemma_ext_sem,
    lemma_pair_key, lemma_sem_cons, nodes_wf, pair_key, sem, Bdd, Nodes, Op,
};
use crate::sp::{follow, Pkt, SPstore, SP};

verus! {

/// The number of fields of a packet.
pub type Var = u32;

/// A relation between packets, as an index into an [`SPPstore`].
#[derive(Clone, Copy, Debug, PartialEq, Eq, PartialOrd, Ord, Hash, Structural)]
pub struct SPP(pub usize);

impl SPP {
    /// The relation with index `i`; `0` and `1` are the leaves.
    pub fn new(i: usize) -> (spp: SPP)
        ensures
            spp == SPP(i),
    {
        SPP(i)
    }
}

/// The four quarters of a relation, by the next bit of the input packet and
/// the next bit of the output packet.
#[derive(Clone, Copy, Debug, PartialEq, Eq, Structural)]
pub struct SPPnode {
    pub x00: SPP,
    pub x01: SPP,
    pub x10: SPP,
    pub x11: SPP,
}

/// Which pairs of an input bit and an output bit a field may have.
#[derive(Clone, Copy, Debug, PartialEq, Eq, Structural)]
pub struct Cell {
    pub x00: bool,
    pub x01: bool,
    pub x10: bool,
    pub x11: bool,
}

impl Cell {
    pub open spec fn allows(self, x: bool, y: bool) -> bool {
        if x {
            if y {
                self.x11
            } else {
                self.x10
            }
        } else {
            if y {
                self.x01
            } else {
                self.x00
            }
        }
    }
}

/// The quarter of `i` for input bit `x` and output bit `y`.
pub open spec fn quad(ns: Nodes, i: usize, x: bool, y: bool) -> usize {
    let row = if x {
        ns[i as int].1
    } else {
        ns[i as int].0
    };
    if y {
        ns[row as int].1
    } else {
        ns[row as int].0
    }
}

/// Whether relation `i` relates `p` to `q`.
pub open spec fn relates(ns: Nodes, i: usize, p: Pkt, q: Pkt) -> bool
    decreases p.len(),
{
    if p.len() == 0 {
        i == 1
    } else {
        relates(ns, quad(ns, i, p[0], q[0]), p.drop_first(), q.drop_first())
    }
}

/// `i` is a relation of table `ns` over `k` fields.
pub open spec fn is_rel(ns: Nodes, i: usize, k: nat) -> bool {
    is_node(ns, i, 2 * k)
}

/// The bits of two packets in turn.
pub open spec fn braid(p: Pkt, q: Pkt) -> Seq<bool>
    decreases p.len(),
{
    if p.len() == 0 {
        Seq::empty()
    } else {
        seq![p[0], q[0]] + braid(p.drop_first(), q.drop_first())
    }
}

proof fn lemma_quad(ns: Nodes, i: usize, k: nat)
    requires
        nodes_wf(ns),
        is_rel(ns, i, k),
    ensures
        k == 0 <==> i < 2,
        k > 0 ==> {
            &&& i >= 2
            &&& is_node(ns, ns[i as int].0, (2 * k - 1) as nat)
            &&& is_node(ns, ns[i as int].1, (2 * k - 1) as nat)
            &&& forall|x: bool, y: bool| is_rel(ns, #[trigger] quad(ns, i, x, y), (k - 1) as nat)
        },
{
    lemma_children(ns, i);
    if k > 0 {
        lemma_children(ns, ns[i as int].0);
        lemma_children(ns, ns[i as int].1);
    }
}

proof fn lemma_ext_quad(a: Nodes, b: Nodes, i: usize, k: nat)
    requires
        nodes_wf(a),
        ext(a, b),
        is_rel(a, i, k),
        k > 0,
    ensures
        forall|x: bool, y: bool| #[trigger] quad(a, i, x, y) == quad(b, i, x, y),
{
    lemma_quad(a, i, k);
    assert(a[i as int] == b[i as int]);
    assert(a[a[i as int].0 as int] == b[a[i as int].0 as int]);
    assert(a[a[i as int].1 as int] == b[a[i as int].1 as int]);
}

proof fn lemma_ext_rel(a: Nodes, b: Nodes, i: usize, p: Pkt, q: Pkt)
    requires
        nodes_wf(a),
        ext(a, b),
        is_rel(a, i, p.len()),
        p.len() == q.len(),
    ensures
        is_rel(b, i, p.len()),
        relates(a, i, p, q) == relates(b, i, p, q),
    decreases p.len(),
{
    lemma_ext_depth(a, b, i);
    if p.len() > 0 {
        lemma_quad(a, i, p.len());
        lemma_ext_quad(a, b, i, p.len());
        lemma_ext_rel(a, b, quad(a, i, p[0], q[0]), p.drop_first(), q.drop_first());
    }
}

proof fn lemma_braid(ns: Nodes, i: usize, p: Pkt, q: Pkt)
    requires
        p.len() == q.len(),
    ensures
        braid(p, q).len() == 2 * p.len(),
        relates(ns, i, p, q) == sem(ns, i, braid(p, q)),
    decreases p.len(),
{
    if p.len() > 0 {
        let p1 = p.drop_first();
        let q1 = q.drop_first();
        lemma_braid(ns, quad(ns, i, p[0], q[0]), p1, q1);
        let b = braid(p, q);
        assert(b =~= seq![p[0]] + (seq![q[0]] + braid(p1, q1)));
        lemma_sem_cons(ns, i, p[0], seq![q[0]] + braid(p1, q1));
        let row = if p[0] {
            ns[i as int].1
        } else {
            ns[i as int].0
        };
        lemma_sem_cons(ns, row, q[0], braid(p1, q1));
    }
}

/// The bits at the even positions.
pub open spec fn evens(b: Seq<bool>) -> Seq<bool> {
    Seq::new((b.len() / 2) as nat, |i: int| b[2 * i])
}

/// The bits at the odd positions.
pub open spec fn odds(b: Seq<bool>) -> Seq<bool> {
    Seq::new((b.len() / 2) as nat, |i: int| b[2 * i + 1])
}

proof fn lemma_unbraid(b: Seq<bool>)
    requires
        b.len() % 2 == 0,
    ensures
        braid(evens(b), odds(b)) == b,
    decreases b.len(),
{
    if b.len() > 0 {
        let t = b.subrange(2, b.len() as int);
        lemma_unbraid(t);
        assert(evens(b).drop_first() =~= evens(t));
        assert(odds(b).drop_first() =~= odds(t));
        assert(b =~= seq![b[0], b[1]] + t);
        assert(evens(b)[0] == b[0]);
        assert(odds(b)[0] == b[1]);
    } else {
        assert(b =~= Seq::<bool>::empty());
    }
}

/// Relations over `k` fields that relate the same packets are one.
proof fn lemma_rel_canonical(ns: Nodes, i: usize, j: usize, k: nat)
    requires
        nodes_wf(ns),
        is_rel(ns, i, k),
        is_rel(ns, j, k),
        forall|p: Pkt, q: Pkt|
            p.len() == k && q.len() == k ==> relates(ns, i, p, q) == relates(ns, j, p, q),
    ensures
        i == j,
{
    assert forall|b: Seq<bool>| b.len() == 2 * k implies sem(ns, i, b) == sem(ns, j, b) by {
        lemma_unbraid(b);
        lemma_braid(ns, i, evens(b), odds(b));
        lemma_braid(ns, j, evens(b), odds(b));
    }
    lemma_canonical(ns, i, j, 2 * k);
}

/// The relation with the given quarters.
fn mk4(bdd: &mut Bdd, x00: usize, x01: usize, x10: usize, x11: usize) -> (r: usize)
    requires
        old(bdd).wf(),
        x00 < old(bdd)@.len(),
        x01 < old(bdd)@.len(),
        x10 < old(bdd)@.len(),
        x11 < old(bdd)@.len(),
        depth(old(bdd)@, x01) == depth(old(bdd)@, x00),
        depth(old(bdd)@, x10) == depth(old(bdd)@, x00),
        depth(old(bdd)@, x11) == depth(old(bdd)@, x00),
    ensures
        final(bdd).wf(),
        ext(old(bdd)@, final(bdd)@),
        is_node(final(bdd)@, r, depth(old(bdd)@, x00) + 2),
        quad(final(bdd)@, r, false, false) == x00,
        quad(final(bdd)@, r, false, true) == x01,
        quad(final(bdd)@, r, true, false) == x10,
        quad(final(bdd)@, r, true, true) == x11,
{
    let ghost ns = bdd@;
    let lo = bdd.mk(x00, x01);
    let ghost ns1 = bdd@;
    proof {
        lemma_ext_depth(ns, ns1, x10);
        lemma_ext_depth(ns, ns1, x11);
        lemma_ext_depth(ns, ns1, x00);
    }
    let hi = bdd.mk(x10, x11);
    let ghost ns2 = bdd@;
    proof {
        lemma_ext_depth(ns1, ns2, lo);
    }
    let r = bdd.mk(lo, hi);
    proof {
        assert(ns1[lo as int] == bdd@[lo as int]);
        assert(ns2[hi as int] == bdd@[hi as int]);
    }
    r
}

/// The four quarters of `i`.
fn quarters(bdd: &Bdd, i: usize, Ghost(k): Ghost<nat>) -> (r: (usize, usize, usize, usize))
    requires
        bdd.wf(),
        is_rel(bdd@, i, k),
        k > 0,
    ensures
        r.0 == quad(bdd@, i, false, false),
        r.1 == quad(bdd@, i, false, true),
        r.2 == quad(bdd@, i, true, false),
        r.3 == quad(bdd@, i, true, true),
        is_rel(bdd@, r.0, (k - 1) as nat),
        is_rel(bdd@, r.1, (k - 1) as nat),
        is_rel(bdd@, r.2, (k - 1) as nat),
        is_rel(bdd@, r.3, (k - 1) as nat),
{
    proof {
        bdd.lemma_wf();
        lemma_quad(bdd@, i, k);
    }
    let (lo, hi) = bdd.get(i);
    let (x00, x01) = bdd.get(lo);
    let (x10, x11) = bdd.get(hi);
    (x00, x01, x10, x11)
}

// ---- composition -------------------------------------------------------------

/// Some packet leads from `p` to `q` by `s` and then `t`.
pub open spec fn linked(ns: Nodes, s: usize, t: usize, p: Pkt, q: Pkt) -> bool {
    exists|m: Pkt|
        #![trigger relates(ns, s, p, m)]
        m.len() == p.len() && relates(ns, s, p, m) && relates(ns, t, m, q)
}

/// `r` is the composition of `s` and `t`.
pub open spec fn composes(ns: Nodes, k: nat, s: usize, t: usize, r: usize) -> bool {
    &&& is_rel(ns, s, k)
    &&& is_rel(ns, t, k)
    &&& is_rel(ns, r, k)
    &&& forall|p: Pkt, q: Pkt|
        #![trigger relates(ns, r, p, q)]
        p.len() == k && q.len() == k ==> (relates(ns, r, p, q) <==> linked(ns, s, t, p, q))
}

/// `r` is the union of two compositions.
pub open spec fn composes2(
    ns: Nodes,
    k: nat,
    s0: usize,
    t0: usize,
    s1: usize,
    t1: usize,
    r: usize,
) -> bool {
    &&& is_rel(ns, s0, k)
    &&& is_rel(ns, t0, k)
    &&& is_rel(ns, s1, k)
    &&& is_rel(ns, t1, k)
    &&& is_rel(ns, r, k)
    &&& forall|p: Pkt, q: Pkt|
        #![trigger relates(ns, r, p, q)]
        p.len() == k && q.len() == k ==> (relates(ns, r, p, q) <==> linked(ns, s0, t0, p, q) || linked(
            ns,
            s1,
            t1,
            p,
            q,
        ))
}

proof fn lemma_ext_linked(a: Nodes, b: Nodes, s: usize, t: usize, p: Pkt, q: Pkt)
    requires
        nodes_wf(a),
        ext(a, b),
        is_rel(a, s, p.len()),
        is_rel(a, t, p.len()),
        p.len() == q.len(),
    ensures
        linked(a, s, t, p, q) == linked(b, s, t, p, q),
{
    if linked(a, s, t, p, q) {
        let m = choose|m: Pkt|
            #![trigger relates(a, s, p, m)]
            m.len() == p.len() && relates(a, s, p, m) && relates(a, t, m, q);
        lemma_ext_rel(a, b, s, p, m);
        lemma_ext_rel(a, b, t, m, q);
    }
    if linked(b, s, t, p, q) {
        let m = choose|m: Pkt|
            #![trigger relates(b, s, p, m)]
            m.len() == p.len() && relates(b, s, p, m) && relates(b, t, m, q);
        lemma_ext_rel(a, b, s, p, m);
        lemma_ext_rel(a, b, t, m, q);
        assert(relates(a, s, p, m));
    }
}

proof fn lemma_ext_composes(a: Nodes, b: Nodes, k: nat, s: usize, t: usize, r: usize)
    requires
        nodes_wf(a),
        ext(a, b),
        composes(a, k, s, t, r),
    ensures
        composes(b, k, s, t, r),
{
    lemma_ext_depth(a, b, s);
    lemma_ext_depth(a, b, t);
    lemma_ext_depth(a, b, r);
    assert forall|p: Pkt, q: Pkt|
        #![trigger relates(b, r, p, q)]
        p.len() == k && q.len() == k implies (relates(b, r, p, q) <==> linked(b, s, t, p, q)) by {
        lemma_ext_rel(a, b, r, p, q);
        lemma_ext_linked(a, b, s, t, p, q);
    }
}

proof fn lemma_ext_composes2(
    a: Nodes,
    b: Nodes,
    k: nat,
    s0: usize,
    t0: usize,
    s1: usize,
    t1: usize,
    r: usize,
)
    requires
        nodes_wf(a),
        ext(a, b),
        composes2(a, k, s0, t0, s1, t1, r),
    ensures
        composes2(b, k, s0, t0, s1, t1, r),
{
    lemma_ext_depth(a, b, s0);
    lemma_ext_depth(a, b, t0);
    lemma_ext_depth(a, b, s1);
    lemma_ext_depth(a, b, t1);
    lemma_ext_depth(a, b, r);
    assert forall|p: Pkt, q: Pkt|
        #![trigger relates(b, r, p, q)]
        p.len() == k && q.len() == k implies (relates(b, r, p, q) <==> linked(b, s0, t0, p, q) || linked(
        b,
        s1,
        t1,
        p,
        q,
    )) by {
        lemma_ext_rel(a, b, r, p, q);
        lemma_ext_linked(a, b, s0, t0, p, q);
        lemma_ext_linked(a, b, s1, t1, p, q);
    }
}

/// Composition splits on the first bit of the packet in the middle.
proof fn lemma_linked_split(ns: Nodes, s: usize, t: usize, p: Pkt, q: Pkt)
    requires
        p.len() == q.len(),
        p.len() > 0,
    ensures
        linked(ns, s, t, p, q) <==> linked(
            ns,
            quad(ns, s, p[0], false),
            quad(ns, t, false, q[0]),
            p.drop_first(),
            q.drop_first(),
        ) || linked(
            ns,
            quad(ns, s, p[0], true),
            quad(ns, t, true, q[0]),
            p.drop_first(),
            q.drop_first(),
        ),
{
    let p1 = p.drop_first();
    let q1 = q.drop_first();
    if linked(ns, s, t, p, q) {
        let m = choose|m: Pkt|
            #![trigger relates(ns, s, p, m)]
            m.len() == p.len() && relates(ns, s, p, m) && relates(ns, t, m, q);
        let m1 = m.drop_first();
        assert(relates(ns, quad(ns, s, p[0], m[0]), p1, m1));
        assert(relates(ns, quad(ns, t, m[0], q[0]), m1, q1));
    }
    if linked(ns, quad(ns, s, p[0], false), quad(ns, t, false, q[0]), p1, q1) {
        lemma_linked_join(ns, s, t, p, q, false);
    }
    if linked(ns, quad(ns, s, p[0], true), quad(ns, t, true, q[0]), p1, q1) {
        lemma_linked_join(ns, s, t, p, q, true);
    }
}

proof fn lemma_linked_join(ns: Nodes, s: usize, t: usize, p: Pkt, q: Pkt, y: bool)
    requires
        p.len() == q.len(),
        p.len() > 0,
        linked(
            ns,
            quad(ns, s, p[0], y),
            quad(ns, t, y, q[0]),
            p.drop_first(),
            q.drop_first(),
        ),
    ensures
        linked(ns, s, t, p, q),
{
    let p1 = p.drop_first();
    let q1 = q.drop_first();
    let m1 = choose|m: Pkt|
        #![trigger relates(ns, quad(ns, s, p[0], y), p1, m)]
        m.len() == p1.len() && relates(ns, quad(ns, s, p[0], y), p1, m) && relates(
            ns,
            quad(ns, t, y, q[0]),
            m,
            q1,
        );
    let m = seq![y] + m1;
    assert(m.drop_first() =~= m1);
    assert(relates(ns, s, p, m));
    assert(relates(ns, t, m, q));
}

spec fn seq_memo_ok(ns: Nodes, memo: Map<u128, usize>) -> bool {
    forall|s: usize, t: usize|
        #![trigger memo.contains_key(pair_key(s, t))]
        memo.contains_key(pair_key(s, t)) ==> composes(
            ns,
            depth(ns, s) / 2,
            s,
            t,
            memo[pair_key(s, t)],
        )
}

proof fn lemma_ext_seq_memo(a: Nodes, b: Nodes, memo: Map<u128, usize>)
    requires
        nodes_wf(a),
        ext(a, b),
        seq_memo_ok(a, memo),
    ensures
        seq_memo_ok(b, memo),
{
    assert forall|s: usize, t: usize|
        #![trigger memo.contains_key(pair_key(s, t))]
        memo.contains_key(pair_key(s, t)) implies composes(
        b,
        depth(b, s) / 2,
        s,
        t,
        memo[pair_key(s, t)],
    ) by {
        lemma_ext_depth(a, b, s);
        lemma_ext_composes(a, b, depth(a, s) / 2, s, t, memo[pair_key(s, t)]);
    }
}

/// The composition of `s` and `t`.
fn seq_rec(
    bdd: &mut Bdd,
    s: usize,
    t: usize,
    memo: &mut HashMap<u128, usize>,
    Ghost(k): Ghost<nat>,
) -> (r: usize)
    requires
        old(bdd).wf(),
        is_rel(old(bdd)@, s, k),
        is_rel(old(bdd)@, t, k),
        seq_memo_ok(old(bdd)@, old(memo)@),
    ensures
        final(bdd).wf(),
        ext(old(bdd)@, final(bdd)@),
        composes(final(bdd)@, k, s, t, r),
        seq_memo_ok(final(bdd)@, final(memo)@),
    decreases k, 1nat,
{
    let ghost ns = bdd@;
    proof {
        bdd.lemma_wf();
        lemma_quad(ns, s, k);
        lemma_quad(ns, t, k);
    }
    if s < 2 {
        let r: usize = if s == 1 && t == 1 {
            1
        } else {
            0
        };
        proof {
            lemma_children(ns, r);
            assert forall|p: Pkt, q: Pkt|
                #![trigger relates(ns, r, p, q)]
                p.len() == k && q.len() == k implies (relates(ns, r, p, q) <==> linked(
                ns,
                s,
                t,
                p,
                q,
            )) by {
                assert(relates(ns, s, p, Seq::<bool>::empty()) == (s == 1));
            }
        }
        return r;
    }
    let key = key_of(s, t);
    if let Some(r) = memo.get(&key) {
        let r: usize = *r;
        return r;
    }
    let (s00, s01, s10, s11) = quarters(bdd, s, Ghost(k));
    let (t00, t01, t10, t11) = quarters(bdd, t, Ghost(k));
    let ghost k1 = (k - 1) as nat;
    let r00 = seq_cell(bdd, s00, t00, s01, t10, memo, Ghost(k1));
    let ghost ns1 = bdd@;
    proof {
        bdd.lemma_wf();
        lemma_ext_depth(ns, ns1, s00);
        lemma_ext_depth(ns, ns1, s01);
        lemma_ext_depth(ns, ns1, s10);
        lemma_ext_depth(ns, ns1, s11);
        lemma_ext_depth(ns, ns1, t00);
        lemma_ext_depth(ns, ns1, t01);
        lemma_ext_depth(ns, ns1, t10);
        lemma_ext_depth(ns, ns1, t11);
    }
    let r01 = seq_cell(bdd, s00, t01, s01, t11, memo, Ghost(k1));
    let ghost ns2 = bdd@;
    proof {
        bdd.lemma_wf();
        lemma_ext_composes2(ns1, ns2, k1, s00, t00, s01, t10, r00);
        lemma_ext_depth(ns1, ns2, s10);
        lemma_ext_depth(ns1, ns2, s11);
        lemma_ext_depth(ns1, ns2, t00);
        lemma_ext_depth(ns1, ns2, t10);
        lemma_ext_depth(ns1, ns2, t01);
        lemma_ext_depth(ns1, ns2, t11);
    }
    let r10 = seq_cell(bdd, s10, t00, s11, t10, memo, Ghost(k1));
    let ghost ns3 = bdd@;
    proof {
        bdd.lemma_wf();
        lemma_ext_composes2(ns2, ns3, k1, s00, t00, s01, t10, r00);
        lemma_ext_composes2(ns2, ns3, k1, s00, t01, s01, t11, r01);
    }
    let r11 = seq_cell(bdd, s10, t01, s11, t11, memo, Ghost(k1));
    let ghost ns4 = bdd@;
    proof {
        bdd.lemma_wf();
        lemma_ext_composes2(ns3, ns4, k1, s00, t00, s01, t10, r00);
        lemma_ext_composes2(ns3, ns4, k1, s00, t01, s01, t11, r01);
        lemma_ext_composes2(ns3, ns4, k1, s10, t00, s11, t10, r10);
    }
    let r = mk4(bdd, r00, r01, r10, r11);
    let ghost ns5 = bdd@;
    proof {
        bdd.lemma_wf();
        lemma_ext_composes2(ns4, ns5, k1, s00, t00, s01, t10, r00);
        lemma_ext_composes2(ns4, ns5, k1, s00, t01, s01, t11, r01);
        lemma_ext_composes2(ns4, ns5, k1, s10, t00, s11, t10, r10);
        lemma_ext_composes2(ns4, ns5, k1, s10, t01, s11, t11, r11);
        assert(ext(ns, ns5));
        lemma_ext_quad(ns, ns5, s, k);
        lemma_ext_quad(ns, ns5, t, k);
        lemma_ext_depth(ns, ns5, s);
        lemma_ext_depth(ns, ns5, t);
        assert forall|p: Pkt, q: Pkt|
            #![trigger relates(ns5, r, p, q)]
            p.len() == k && q.len() == k implies (relates(ns5, r, p, q) <==> linked(
            ns5,
            s,
            t,
            p,
            q,
        )) by {
            lemma_linked_split(ns5, s, t, p, q);
            let p1 = p.drop_first();
            let q1 = q.drop_first();
            assert(relates(ns5, r, p, q) == relates(ns5, quad(ns5, r, p[0], q[0]), p1, q1));
            assert(quad(ns, s, p[0], false) == quad(ns5, s, p[0], false));
            assert(quad(ns, s, p[0], true) == quad(ns5, s, p[0], true));
            assert(quad(ns, t, false, q[0]) == quad(ns5, t, false, q[0]));
            assert(quad(ns, t, true, q[0]) == quad(ns5, t, true, q[0]));
        }
        lemma_ext_seq_memo(ns4, ns5, memo@);
    }
    let ghost m = memo@;
    memo.insert(key, r);
    proof {
        assert forall|x: usize, y: usize|
            #![trigger memo@.contains_key(pair_key(x, y))]
            memo@.contains_key(pair_key(x, y)) implies composes(
            ns5,
            depth(ns5, x) / 2,
            x,
            y,
            memo@[pair_key(x, y)],
        ) by {
            lemma_pair_key(x, y, s, t);
            if pair_key(x, y) != key {
                assert(m.contains_key(pair_key(x, y)));
            }
        }
    }
    r
}

/// The union of the compositions of `s0` with `t0` and of `s1` with `t1`.
fn seq_cell(
    bdd: &mut Bdd,
    s0: usize,
    t0: usize,
    s1: usize,
    t1: usize,
    memo: &mut HashMap<u128, usize>,
    Ghost(k): Ghost<nat>,
) -> (r: usize)
    requires
        old(bdd).wf(),
        is_rel(old(bdd)@, s0, k),
        is_rel(old(bdd)@, t0, k),
        is_rel(old(bdd)@, s1, k),
        is_rel(old(bdd)@, t1, k),
        seq_memo_ok(old(bdd)@, old(memo)@),
    ensures
        final(bdd).wf(),
        ext(old(bdd)@, final(bdd)@),
        composes2(final(bdd)@, k, s0, t0, s1, t1, r),
        seq_memo_ok(final(bdd)@, final(memo)@),
    decreases k, 2nat,
{
    let ghost ns = bdd@;
    let a = seq_rec(bdd, s0, t0, memo, Ghost(k));
    let ghost ns1 = bdd@;
    proof {
        bdd.lemma_wf();
        lemma_ext_depth(ns, ns1, s1);
        lemma_ext_depth(ns, ns1, t1);
    }
    let b = seq_rec(bdd, s1, t1, memo, Ghost(k));
    let ghost ns2 = bdd@;
    proof {
        bdd.lemma_wf();
        lemma_ext_composes(ns1, ns2, k, s0, t0, a);
    }
    let r = bdd.apply(Op::Or, a, b);
    let ghost ns3 = bdd@;
    proof {
        lemma_ext_composes(ns2, ns3, k, s0, t0, a);
        lemma_ext_composes(ns2, ns3, k, s1, t1, b);
        lemma_ext_seq_memo(ns2, ns3, memo@);
        assert forall|p: Pkt, q: Pkt|
            #![trigger relates(ns3, r, p, q)]
            p.len() == k && q.len() == k implies (relates(ns3, r, p, q) <==> linked(
            ns3,
            s0,
            t0,
            p,
            q,
        ) || linked(ns3, s1, t1, p, q)) by {
            lemma_braid(ns3, r, p, q);
            lemma_braid(ns3, a, p, q);
            lemma_braid(ns3, b, p, q);
        }
    }
    r
}

// ---- image and preimage --------------------------------------------------------

/// Relation `s`, read from input to output (`fwd`) or from output to input.
pub open spec fn steps(ns: Nodes, s: usize, fwd: bool, p: Pkt, q: Pkt) -> bool {
    if fwd {
        relates(ns, s, p, q)
    } else {
        relates(ns, s, q, p)
    }
}

/// The quarter of `s` for bit `x` of the one side and `y` of the other.
pub open spec fn turn(ns: Nodes, s: usize, fwd: bool, x: bool, y: bool) -> usize {
    if fwd {
        quad(ns, s, x, y)
    } else {
        quad(ns, s, y, x)
    }
}

/// `s` leads to `q` from some packet of `a`.
pub open spec fn reached(sps: Nodes, ns: Nodes, fwd: bool, a: usize, s: usize, q: Pkt) -> bool {
    exists|p: Pkt|
        #![trigger sem(sps, a, p)]
        p.len() == q.len() && sem(sps, a, p) && steps(ns, s, fwd, p, q)
}

/// `r` is the set of packets that `s` leads to from `a`.
pub open spec fn images(
    sps: Nodes,
    ns: Nodes,
    fwd: bool,
    k: nat,
    a: usize,
    s: usize,
    r: usize,
) -> bool {
    &&& is_node(sps, a, k)
    &&& is_rel(ns, s, k)
    &&& is_node(sps, r, k)
    &&& forall|q: Pkt|
        #![trigger sem(sps, r, q)]
        q.len() == k ==> (sem(sps, r, q) <==> reached(sps, ns, fwd, a, s, q))
}

/// `r` is the union of two images.
pub open spec fn images2(
    sps: Nodes,
    ns: Nodes,
    fwd: bool,
    k: nat,
    a0: usize,
    s0: usize,
    a1: usize,
    s1: usize,
    r: usize,
) -> bool {
    &&& is_node(sps, a0, k)
    &&& is_rel(ns, s0, k)
    &&& is_node(sps, a1, k)
    &&& is_rel(ns, s1, k)
    &&& is_node(sps, r, k)
    &&& forall|q: Pkt|
        #![trigger sem(sps, r, q)]
        q.len() == k ==> (sem(sps, r, q) <==> reached(sps, ns, fwd, a0, s0, q) || reached(
            sps,
            ns,
            fwd,
            a1,
            s1,
            q,
        ))
}

proof fn lemma_ext_reached(
    b: Nodes,
    c: Nodes,
    ns: Nodes,
    fwd: bool,
    a: usize,
    s: usize,
    q: Pkt,
)
    requires
        nodes_wf(b),
        ext(b, c),
        is_node(b, a, q.len()),
    ensures
        reached(b, ns, fwd, a, s, q) == reached(c, ns, fwd, a, s, q),
{
    if reached(b, ns, fwd, a, s, q) {
        let p = choose|p: Pkt|
            #![trigger sem(b, a, p)]
            p.len() == q.len() && sem(b, a, p) && steps(ns, s, fwd, p, q);
        lemma_ext_sem(b, c, a, p);
        assert(sem(c, a, p));
    }
    if reached(c, ns, fwd, a, s, q) {
        let p = choose|p: Pkt|
            #![trigger sem(c, a, p)]
            p.len() == q.len() && sem(c, a, p) && steps(ns, s, fwd, p, q);
        lemma_ext_sem(b, c, a, p);
        assert(sem(b, a, p));
    }
}

proof fn lemma_ext_images(
    b: Nodes,
    c: Nodes,
    ns: Nodes,
    fwd: bool,
    k: nat,
    a: usize,
    s: usize,
    r: usize,
)
    requires
        nodes_wf(b),
        ext(b, c),
        images(b, ns, fwd, k, a, s, r),
    ensures
        images(c, ns, fwd, k, a, s, r),
{
    lemma_ext_depth(b, c, a);
    lemma_ext_depth(b, c, r);
    assert forall|q: Pkt| #![trigger sem(c, r, q)] q.len() == k implies (sem(c, r, q) <==> reached(
        c,
        ns,
        fwd,
        a,
        s,
        q,
    )) by {
        lemma_ext_sem(b, c, r, q);
        lemma_ext_reached(b, c, ns, fwd, a, s, q);
        assert(sem(b, r, q) <==> reached(b, ns, fwd, a, s, q));
    }
}

proof fn lemma_ext_images2(
    b: Nodes,
    c: Nodes,
    ns: Nodes,
    fwd: bool,
    k: nat,
    a0: usize,
    s0: usize,
    a1: usize,
    s1: usize,
    r: usize,
)
    requires
        nodes_wf(b),
        ext(b, c),
        images2(b, ns, fwd, k, a0, s0, a1, s1, r),
    ensures
        images2(c, ns, fwd, k, a0, s0, a1, s1, r),
{
    lemma_ext_depth(b, c, a0);
    lemma_ext_depth(b, c, a1);
    lemma_ext_depth(b, c, r);
    assert forall|q: Pkt| #![trigger sem(c, r, q)] q.len() == k implies (sem(c, r, q) <==> reached(
        c,
        ns,
        fwd,
        a0,
        s0,
        q,
    ) || reached(c, ns, fwd, a1, s1, q)) by {
        lemma_ext_sem(b, c, r, q);
        lemma_ext_reached(b, c, ns, fwd, a0, s0, q);
        lemma_ext_reached(b, c, ns, fwd, a1, s1, q);
        assert(sem(b, r, q) <==> reached(b, ns, fwd, a0, s0, q) || reached(
            b,
            ns,
            fwd,
            a1,
            s1,
            q,
        ));
    }
}

proof fn lemma_reached_join(
    sps: Nodes,
    ns: Nodes,
    fwd: bool,
    a: usize,
    s: usize,
    q: Pkt,
    x: bool,
)
    requires
        q.len() > 0,
        reached(
            sps,
            ns,
            fwd,
            if x {
                sps[a as int].1
            } else {
                sps[a as int].0
            },
            turn(ns, s, fwd, x, q[0]),
            q.drop_first(),
        ),
    ensures
        reached(sps, ns, fwd, a, s, q),
{
    let q1 = q.drop_first();
    let a1 = if x {
        sps[a as int].1
    } else {
        sps[a as int].0
    };
    let s1 = turn(ns, s, fwd, x, q[0]);
    let p1 = choose|p: Pkt|
        #![trigger sem(sps, a1, p)]
        p.len() == q1.len() && sem(sps, a1, p) && steps(ns, s1, fwd, p, q1);
    let p = seq![x] + p1;
    assert(p.drop_first() =~= p1);
    assert(sem(sps, a, p));
    assert(steps(ns, s, fwd, p, q));
}

/// The image splits on the first bit of the packet that is left behind.
proof fn lemma_reached_split(sps: Nodes, ns: Nodes, fwd: bool, a: usize, s: usize, q: Pkt)
    requires
        q.len() > 0,
    ensures
        reached(sps, ns, fwd, a, s, q) <==> reached(
            sps,
            ns,
            fwd,
            sps[a as int].0,
            turn(ns, s, fwd, false, q[0]),
            q.drop_first(),
        ) || reached(
            sps,
            ns,
            fwd,
            sps[a as int].1,
            turn(ns, s, fwd, true, q[0]),
            q.drop_first(),
        ),
{
    let q1 = q.drop_first();
    if reached(sps, ns, fwd, a, s, q) {
        let p = choose|p: Pkt|
            #![trigger sem(sps, a, p)]
            p.len() == q.len() && sem(sps, a, p) && steps(ns, s, fwd, p, q);
        let p1 = p.drop_first();
        assert(steps(ns, turn(ns, s, fwd, p[0], q[0]), fwd, p1, q1));
        let a1 = if p[0] {
            sps[a as int].1
        } else {
            sps[a as int].0
        };
        assert(sem(sps, a1, p1));
    }
    if reached(sps, ns, fwd, sps[a as int].0, turn(ns, s, fwd, false, q[0]), q1) {
        lemma_reached_join(sps, ns, fwd, a, s, q, false);
    }
    if reached(sps, ns, fwd, sps[a as int].1, turn(ns, s, fwd, true, q[0]), q1) {
        lemma_reached_join(sps, ns, fwd, a, s, q, true);
    }
}

spec fn image_memo_ok(sps: Nodes, ns: Nodes, fwd: bool, memo: Map<u128, usize>) -> bool {
    forall|a: usize, s: usize|
        #![trigger memo.contains_key(pair_key(a, s))]
        memo.contains_key(pair_key(a, s)) ==> images(
            sps,
            ns,
            fwd,
            depth(sps, a),
            a,
            s,
            memo[pair_key(a, s)],
        )
}

proof fn lemma_ext_image_memo(b: Nodes, c: Nodes, ns: Nodes, fwd: bool, memo: Map<u128, usize>)
    requires
        nodes_wf(b),
        ext(b, c),
        image_memo_ok(b, ns, fwd, memo),
    ensures
        image_memo_ok(c, ns, fwd, memo),
{
    assert forall|a: usize, s: usize|
        #![trigger memo.contains_key(pair_key(a, s))]
        memo.contains_key(pair_key(a, s)) implies images(
        c,
        ns,
        fwd,
        depth(c, a),
        a,
        s,
        memo[pair_key(a, s)],
    ) by {
        lemma_ext_depth(b, c, a);
        lemma_ext_images(b, c, ns, fwd, depth(b, a), a, s, memo[pair_key(a, s)]);
    }
}

/// The packets that `s` leads to from `a`.
fn image_rec(
    spb: &mut Bdd,
    bdd: &Bdd,
    fwd: bool,
    a: usize,
    s: usize,
    memo: &mut HashMap<u128, usize>,
    Ghost(k): Ghost<nat>,
) -> (r: usize)
    requires
        old(spb).wf(),
        bdd.wf(),
        is_node(old(spb)@, a, k),
        is_rel(bdd@, s, k),
        image_memo_ok(old(spb)@, bdd@, fwd, old(memo)@),
    ensures
        final(spb).wf(),
        ext(old(spb)@, final(spb)@),
        images(final(spb)@, bdd@, fwd, k, a, s, r),
        image_memo_ok(final(spb)@, bdd@, fwd, final(memo)@),
    decreases k, 1nat,
{
    let ghost ns = bdd@;
    let ghost sps = spb@;
    proof {
        spb.lemma_wf();
        bdd.lemma_wf();
        lemma_quad(ns, s, k);
        lemma_children(sps, a);
    }
    if s < 2 {
        let r: usize = if a == 1 && s == 1 {
            1
        } else {
            0
        };
        proof {
            lemma_children(sps, r);
            assert forall|q: Pkt| #![trigger sem(sps, r, q)] q.len() == k implies (sem(sps, r, q)
                <==> reached(sps, ns, fwd, a, s, q)) by {
                assert(sem(sps, a, Seq::<bool>::empty()) == (a == 1));
                assert(q =~= Seq::<bool>::empty());
                assert(steps(ns, s, fwd, q, q) == (s == 1));
                if sem(sps, r, q) {
                    assert(sem(sps, a, q));
                }
            }
        }
        return r;
    }
    let key = key_of(a, s);
    if let Some(r) = memo.get(&key) {
        let r: usize = *r;
        return r;
    }
    let (a0, a1) = spb.get(a);
    let (s00, b, c, s11) = quarters(bdd, s, Ghost(k));
    let (s01, s10) = if fwd {
        (b, c)
    } else {
        (c, b)
    };
    let ghost k1 = (k - 1) as nat;
    let r0 = image_cell(spb, bdd, fwd, a0, s00, a1, s10, memo, Ghost(k1));
    let ghost sps1 = spb@;
    proof {
        spb.lemma_wf();
        lemma_ext_depth(sps, sps1, a0);
        lemma_ext_depth(sps, sps1, a1);
    }
    let r1 = image_cell(spb, bdd, fwd, a0, s01, a1, s11, memo, Ghost(k1));
    let ghost sps2 = spb@;
    proof {
        spb.lemma_wf();
        lemma_ext_images2(sps1, sps2, ns, fwd, k1, a0, s00, a1, s10, r0);
    }
    let r = spb.mk(r0, r1);
    let ghost sps3 = spb@;
    proof {
        spb.lemma_wf();
        lemma_ext_images2(sps2, sps3, ns, fwd, k1, a0, s00, a1, s10, r0);
        lemma_ext_images2(sps2, sps3, ns, fwd, k1, a0, s01, a1, s11, r1);
        assert(ext(sps, sps3));
        lemma_ext_depth(sps, sps3, a);
        assert(sps[a as int] == sps3[a as int]);
        assert forall|q: Pkt| #![trigger sem(sps3, r, q)] q.len() == k implies (sem(sps3, r, q)
            <==> reached(sps3, ns, fwd, a, s, q)) by {
            lemma_reached_split(sps3, ns, fwd, a, s, q);
            let q1 = q.drop_first();
            if q[0] {
                assert(sem(sps3, r, q) == sem(sps3, r1, q1));
            } else {
                assert(sem(sps3, r, q) == sem(sps3, r0, q1));
            }
        }
        lemma_ext_image_memo(sps2, sps3, ns, fwd, memo@);
    }
    let ghost m = memo@;
    memo.insert(key, r);
    proof {
        assert forall|x: usize, y: usize|
            #![trigger memo@.contains_key(pair_key(x, y))]
            memo@.contains_key(pair_key(x, y)) implies images(
            sps3,
            ns,
            fwd,
            depth(sps3, x),
            x,
            y,
            memo@[pair_key(x, y)],
        ) by {
            lemma_pair_key(x, y, a, s);
            if pair_key(x, y) != key {
                assert(m.contains_key(pair_key(x, y)));
            }
        }
    }
    r
}

/// The packets that `s0` leads to from `a0`, or `s1` from `a1`.
fn image_cell(
    spb: &mut Bdd,
    bdd: &Bdd,
    fwd: bool,
    a0: usize,
    s0: usize,
    a1: usize,
    s1: usize,
    memo: &mut HashMap<u128, usize>,
    Ghost(k): Ghost<nat>,
) -> (r: usize)
    requires
        old(spb).wf(),
        bdd.wf(),
        is_node(old(spb)@, a0, k),
        is_rel(bdd@, s0, k),
        is_node(old(spb)@, a1, k),
        is_rel(bdd@, s1, k),
        image_memo_ok(old(spb)@, bdd@, fwd, old(memo)@),
    ensures
        final(spb).wf(),
        ext(old(spb)@, final(spb)@),
        images2(final(spb)@, bdd@, fwd, k, a0, s0, a1, s1, r),
        image_memo_ok(final(spb)@, bdd@, fwd, final(memo)@),
    decreases k, 2nat,
{
    let ghost ns = bdd@;
    let ghost sps = spb@;
    let u = image_rec(spb, bdd, fwd, a0, s0, memo, Ghost(k));
    let ghost sps1 = spb@;
    proof {
        spb.lemma_wf();
        lemma_ext_depth(sps, sps1, a1);
    }
    let v = image_rec(spb, bdd, fwd, a1, s1, memo, Ghost(k));
    let ghost sps2 = spb@;
    proof {
        spb.lemma_wf();
        lemma_ext_images(sps1, sps2, ns, fwd, k, a0, s0, u);
    }
    let r = spb.apply(Op::Or, u, v);
    let ghost sps3 = spb@;
    proof {
        lemma_ext_images(sps2, sps3, ns, fwd, k, a0, s0, u);
        lemma_ext_images(sps2, sps3, ns, fwd, k, a1, s1, v);
        lemma_ext_image_memo(sps2, sps3, ns, fwd, memo@);
        assert forall|q: Pkt| #![trigger sem(sps3, r, q)] q.len() == k implies (sem(sps3, r, q)
            <==> reached(sps3, ns, fwd, a0, s0, q) || reached(sps3, ns, fwd, a1, s1, q)) by {
            assert(sem(sps3, u, q) <==> reached(sps3, ns, fwd, a0, s0, q));
            assert(sem(sps3, v, q) <==> reached(sps3, ns, fwd, a1, s1, q));
        }
    }
    r
}

/// `r` relates every packet of `a` to every packet.
pub open spec fn lifts(sps: Nodes, ns: Nodes, k: nat, a: usize, r: usize) -> bool {
    &&& is_rel(ns, r, k)
    &&& forall|p: Pkt, q: Pkt|
        #![trigger relates(ns, r, p, q)]
        p.len() == k && q.len() == k ==> relates(ns, r, p, q) == sem(sps, a, p)
}

/// The relation of every packet of `a` to every packet.
fn lift_rec(spb: &Bdd, bdd: &mut Bdd, a: usize, memo: &mut HashMap<usize, usize>, Ghost(k): Ghost<
    nat,
>) -> (r: usize)
    requires
        spb.wf(),
        old(bdd).wf(),
        is_node(spb@, a, k),
        forall|x: usize|
            #![trigger old(memo)@.contains_key(x)]
            old(memo)@.contains_key(x) ==> lifts(
                spb@,
                old(bdd)@,
                depth(spb@, x),
                x,
                old(memo)@[x],
            ),
    ensures
        final(bdd).wf(),
        ext(old(bdd)@, final(bdd)@),
        lifts(spb@, final(bdd)@, k, a, r),
        forall|x: usize|
            #![trigger final(memo)@.contains_key(x)]
            final(memo)@.contains_key(x) ==> lifts(
                spb@,
                final(bdd)@,
                depth(spb@, x),
                x,
                final(memo)@[x],
            ),
    decreases k,
{
    let ghost sps = spb@;
    let ghost ns = bdd@;
    proof {
        spb.lemma_wf();
        bdd.lemma_wf();
        lemma_children(sps, a);
    }
    if a < 2 {
        proof {
            lemma_children(ns, a);
        }
        return a;
    }
    if let Some(r) = memo.get(&a) {
        let r: usize = *r;
        return r;
    }
    let (a0, a1) = spb.get(a);
    let ghost k1 = (k - 1) as nat;
    let r0 = lift_rec(spb, bdd, a0, memo, Ghost(k1));
    let ghost ns1 = bdd@;
    proof {
        bdd.lemma_wf();
    }
    let r1 = lift_rec(spb, bdd, a1, memo, Ghost(k1));
    let ghost ns2 = bdd@;
    proof {
        bdd.lemma_wf();
        lemma_ext_lifts(sps, ns1, ns2, k1, a0, r0);
    }
    let r = mk4(bdd, r0, r0, r1, r1);
    let ghost ns3 = bdd@;
    let ghost m = memo@;
    memo.insert(a, r);
    proof {
        lemma_ext_lifts(sps, ns2, ns3, k1, a0, r0);
        lemma_ext_lifts(sps, ns2, ns3, k1, a1, r1);
        assert forall|p: Pkt, q: Pkt|
            #![trigger relates(ns3, r, p, q)]
            p.len() == k && q.len() == k implies relates(ns3, r, p, q) == sem(sps, a, p) by {
            let p1 = p.drop_first();
            let q1 = q.drop_first();
            assert(relates(ns3, r, p, q) == relates(ns3, quad(ns3, r, p[0], q[0]), p1, q1));
        }
        assert forall|x: usize| #![trigger memo@.contains_key(x)] memo@.contains_key(x) implies lifts(
            sps,
            ns3,
            depth(sps, x),
            x,
            memo@[x],
        ) by {
            if x != a {
                assert(m.contains_key(x));
                lemma_ext_lifts(sps, ns2, ns3, depth(sps, x), x, m[x]);
            }
        }
    }
    r
}

proof fn lemma_ext_lifts(sps: Nodes, b: Nodes, c: Nodes, k: nat, a: usize, r: usize)
    requires
        nodes_wf(b),
        ext(b, c),
        lifts(sps, b, k, a, r),
    ensures
        lifts(sps, c, k, a, r),
{
    lemma_ext_depth(b, c, r);
    assert forall|p: Pkt, q: Pkt|
        #![trigger relates(c, r, p, q)]
        p.len() == k && q.len() == k implies relates(c, r, p, q) == sem(sps, a, p) by {
        lemma_ext_rel(b, c, r, p, q);
    }
}

// ---- iteration -----------------------------------------------------------------

/// The `i`-th step of a walk is a step of `r`.
pub open spec fn link(r: spec_fn(Pkt, Pkt) -> bool, ps: Seq<Pkt>, i: int) -> bool {
    r(ps[i], ps[i + 1])
}

/// A walk along `r` through packets of `k` fields.
pub open spec fn chain(r: spec_fn(Pkt, Pkt) -> bool, k: nat, ps: Seq<Pkt>) -> bool {
    &&& ps.len() >= 1
    &&& forall|i: int| 0 <= i < ps.len() ==> (#[trigger] ps[i]).len() == k
    &&& forall|i: int| 0 <= i < ps.len() - 1 ==> #[trigger] link(r, ps, i)
}

/// Some walk along `r` leads from `p` to `q`: the reflexive and transitive
/// closure of `r`.
pub open spec fn star_of(r: spec_fn(Pkt, Pkt) -> bool, k: nat, p: Pkt, q: Pkt) -> bool {
    exists|ps: Seq<Pkt>| #[trigger] chain(r, k, ps) && ps[0] == p && ps.last() == q
}

/// The closure is reflexive, contains `r`, and is transitive.
pub proof fn lemma_star_closed(r: spec_fn(Pkt, Pkt) -> bool, k: nat, p: Pkt, m: Pkt, q: Pkt)
    requires
        p.len() == k,
        m.len() == k,
        q.len() == k,
    ensures
        star_of(r, k, p, p),
        r(p, q) ==> star_of(r, k, p, q),
        star_of(r, k, p, m) && star_of(r, k, m, q) ==> star_of(r, k, p, q),
{
    assert(chain(r, k, seq![p]));
    if r(p, q) {
        let ps = seq![p, q];
        assert(link(r, ps, 0));
        assert(chain(r, k, ps));
    }
    if star_of(r, k, p, m) && star_of(r, k, m, q) {
        let a = choose|ps: Seq<Pkt>| #[trigger]
            chain(r, k, ps) && ps[0] == p && ps.last() == m;
        let b = choose|ps: Seq<Pkt>| #[trigger]
            chain(r, k, ps) && ps[0] == m && ps.last() == q;
        let c = a + b.drop_first();
        assert forall|i: int| 0 <= i < c.len() - 1 implies #[trigger] link(r, c, i) by {
            if i < a.len() - 1 {
                assert(link(r, a, i));
            } else {
                assert(link(r, b, i - (a.len() - 1)));
            }
        }
        assert(chain(r, k, c));
        assert(c.last() == q);
    }
}

/// The closure is the least reflexive and transitive relation that contains `r`.
pub proof fn lemma_star_least(
    r: spec_fn(Pkt, Pkt) -> bool,
    t: spec_fn(Pkt, Pkt) -> bool,
    k: nat,
    p: Pkt,
    q: Pkt,
)
    requires
        star_of(r, k, p, q),
        forall|a: Pkt| a.len() == k ==> #[trigger] t(a, a),
        forall|a: Pkt, b: Pkt, c: Pkt|
            #![trigger t(a, b), r(b, c)]
            a.len() == k && b.len() == k && c.len() == k && t(a, b) && r(b, c) ==> t(a, c),
    ensures
        t(p, q),
{
    let ps = choose|ps: Seq<Pkt>| #[trigger] chain(r, k, ps) && ps[0] == p && ps.last() == q;
    lemma_star_least_chain(r, t, k, ps);
}

proof fn lemma_star_least_chain(
    r: spec_fn(Pkt, Pkt) -> bool,
    t: spec_fn(Pkt, Pkt) -> bool,
    k: nat,
    ps: Seq<Pkt>,
)
    requires
        chain(r, k, ps),
        forall|a: Pkt| a.len() == k ==> #[trigger] t(a, a),
        forall|a: Pkt, b: Pkt, c: Pkt|
            #![trigger t(a, b), r(b, c)]
            a.len() == k && b.len() == k && c.len() == k && t(a, b) && r(b, c) ==> t(a, c),
    ensures
        t(ps[0], ps.last()),
    decreases ps.len(),
{
    if ps.len() > 1 {
        let qs = ps.drop_last();
        assert forall|i: int| 0 <= i < qs.len() - 1 implies #[trigger] link(r, qs, i) by {
            assert(link(r, ps, i));
        }
        lemma_star_least_chain(r, t, k, qs);
        assert(link(r, ps, ps.len() - 2));
        assert(t(qs[0], qs.last()) && r(qs.last(), ps.last()));
    } else {
        assert(t(ps[0], ps[0]));
    }
}

/// The closure depends on the steps between packets of `k` fields only.
pub proof fn lemma_star_same(
    r: spec_fn(Pkt, Pkt) -> bool,
    t: spec_fn(Pkt, Pkt) -> bool,
    k: nat,
    p: Pkt,
    q: Pkt,
)
    requires
        forall|a: Pkt, b: Pkt|
            #![trigger r(a, b)]
            #![trigger t(a, b)]
            a.len() == k && b.len() == k ==> r(a, b) == t(a, b),
    ensures
        star_of(r, k, p, q) == star_of(t, k, p, q),
{
    if star_of(r, k, p, q) {
        let ps = choose|ps: Seq<Pkt>| #[trigger] chain(r, k, ps) && ps[0] == p && ps.last() == q;
        assert forall|i: int| 0 <= i < ps.len() - 1 implies #[trigger] link(t, ps, i) by {
            assert(link(r, ps, i));
            assert(ps[i].len() == k && ps[i + 1].len() == k);
        }
        assert(chain(t, k, ps));
    }
    if star_of(t, k, p, q) {
        let ps = choose|ps: Seq<Pkt>| #[trigger] chain(t, k, ps) && ps[0] == p && ps.last() == q;
        assert forall|i: int| 0 <= i < ps.len() - 1 implies #[trigger] link(r, ps, i) by {
            assert(link(t, ps, i));
            assert(ps[i].len() == k && ps[i + 1].len() == k);
        }
        assert(chain(r, k, ps));
    }
}

// ---- the store -----------------------------------------------------------------

/// A hash-consed store of packet relations, with the store of packet sets that
/// their images live in.
///
/// `zero` is the empty relation, `one` the identity, and `top` relates every
/// packet to every packet.
pub struct SPPstore {
    pub bdd: Bdd,
    pub num_vars: u32,
    pub zero: SPP,
    pub one: SPP,
    pub top: SPP,
    pub sp: SPstore,
}

/// A random bit, from `rand::random`.  Nothing is claimed of it.
#[verifier::external_body]
fn random_bit() -> (b: bool) {
    rand::random::<bool>()
}

/// `n` random bits.
pub(crate) fn random_bits(n: u32) -> (bits: Vec<bool>)
    ensures
        bits@.len() == n,
{
    let mut bits: Vec<bool> = Vec::new();
    let mut i: u32 = 0;
    while i < n
        invariant
            i <= n,
            bits@.len() == i,
        decreases n - i,
    {
        bits.push(random_bit());
        i = i + 1;
    }
    bits
}

impl SPPstore {
    /// The number of fields of a packet.
    pub open spec fn n(&self) -> nat {
        self.num_vars as nat
    }

    /// `spp` is a relation of this store.
    pub closed spec fn has(&self, spp: SPP) -> bool {
        is_rel(self.bdd@, spp.0, self.num_vars as nat)
    }

    /// `spp` relates `p` to `q`.
    pub closed spec fn rel(&self, spp: SPP, p: Pkt, q: Pkt) -> bool {
        relates(self.bdd@, spp.0, p, q)
    }

    /// The relation `spp` as a function.
    pub open spec fn fun(&self, spp: SPP) -> spec_fn(Pkt, Pkt) -> bool {
        |p: Pkt, q: Pkt| self.rel(spp, p, q)
    }

    pub closed spec fn wf(&self) -> bool {
        &&& self.bdd.wf()
        &&& self.sp.wf()
        &&& self.sp.n() == self.n()
        &&& self.consts()
    }

    /// What `zero`, `one` and `top` relate.
    pub open spec fn consts(&self) -> bool {
        &&& self.has(self.zero)
        &&& self.has(self.one)
        &&& self.has(self.top)
        &&& forall|p: Pkt, q: Pkt|
            #![trigger self.rel(self.zero, p, q)]
            p.len() == self.n() && q.len() == self.n() ==> !self.rel(self.zero, p, q)
        &&& forall|p: Pkt, q: Pkt|
            #![trigger self.rel(self.one, p, q)]
            p.len() == self.n() && q.len() == self.n() ==> (self.rel(self.one, p, q) <==> p == q)
        &&& forall|p: Pkt, q: Pkt|
            #![trigger self.rel(self.top, p, q)]
            p.len() == self.n() && q.len() == self.n() ==> self.rel(self.top, p, q)
    }

    /// `self` is `o` with relations and sets added: those of `o` are kept, and
    /// mean the same.
    pub open spec fn extends(&self, o: &SPPstore) -> bool {
        &&& self.num_vars == o.num_vars
        &&& self.zero == o.zero
        &&& self.one == o.one
        &&& self.top == o.top
        &&& forall|a: SPP| #![trigger self.has(a)] #![trigger o.has(a)] o.has(a) ==> self.has(a)
        &&& forall|a: SPP, p: Pkt, q: Pkt|
            #![trigger self.rel(a, p, q)]
            #![trigger o.rel(a, p, q)]
            o.has(a) && p.len() == o.n() && q.len() == o.n() ==> self.rel(a, p, q) == o.rel(
                a,
                p,
                q,
            )
        &&& self.sp.extends(&o.sp)
    }

    proof fn lemma_extends(&self, o: &SPPstore)
        requires
            o.wf(),
            ext(o.bdd@, self.bdd@),
            self.num_vars == o.num_vars,
            self.zero == o.zero,
            self.one == o.one,
            self.top == o.top,
            self.sp.extends(&o.sp),
        ensures
            self.extends(o),
            self.consts(),
    {
        o.bdd.lemma_wf();
        assert forall|a: SPP| #![trigger self.has(a)] o.has(a) implies self.has(a) by {
            lemma_ext_depth(o.bdd@, self.bdd@, a.0);
        }
        assert forall|a: SPP, p: Pkt, q: Pkt|
            #![trigger self.rel(a, p, q)]
            o.has(a) && p.len() == o.n() && q.len() == o.n() implies self.rel(a, p, q) == o.rel(
            a,
            p,
            q,
        ) by {
            lemma_ext_rel(o.bdd@, self.bdd@, a.0, p, q);
        }
    }

    /// What a well-formed store provides.
    pub proof fn lemma_wf(&self)
        requires
            self.wf(),
        ensures
            self.consts(),
            self.sp.wf(),
            self.sp.n() == self.n(),
    {
    }

    /// Adding sets of packets keeps the relations.
    pub proof fn lemma_sets(&self, o: &SPPstore)
        requires
            o.wf(),
            self.bdd == o.bdd,
            self.num_vars == o.num_vars,
            self.zero == o.zero,
            self.one == o.one,
            self.top == o.top,
            self.sp.wf(),
            self.sp.extends(&o.sp),
        ensures
            self.wf(),
            self.extends(o),
    {
        self.lemma_extends(o);
    }

    /// Relations that relate the same packets have the same index.
    pub proof fn lemma_unique(&self, a: SPP, b: SPP)
        requires
            self.wf(),
            self.has(a),
            self.has(b),
            forall|p: Pkt, q: Pkt|
                p.len() == self.n() && q.len() == self.n() ==> self.rel(a, p, q) == self.rel(
                    b,
                    p,
                    q,
                ),
        ensures
            a == b,
    {
        self.bdd.lemma_wf();
        assert forall|p: Pkt, q: Pkt| p.len() == self.n() && q.len() == self.n() implies relates(
            self.bdd@,
            a.0,
            p,
            q,
        ) == relates(self.bdd@, b.0, p, q) by {
            assert(self.rel(a, p, q) == self.rel(b, p, q));
        }
        lemma_rel_canonical(self.bdd@, a.0, b.0, self.n());
    }

    /// Every relation but `zero` relates some packets.
    pub proof fn lemma_nonzero(&self, a: SPP)
        requires
            self.wf(),
            self.has(a),
        ensures
            a != self.zero <==> exists|p: Pkt, q: Pkt|
                p.len() == self.n() && q.len() == self.n() && self.rel(a, p, q),
    {
        if !(exists|p: Pkt, q: Pkt|
            p.len() == self.n() && q.len() == self.n() && self.rel(a, p, q)) {
            assert forall|p: Pkt, q: Pkt|
                p.len() == self.n() && q.len() == self.n() implies self.rel(a, p, q) == self.rel(
                self.zero,
                p,
                q,
            ) by {}
            self.lemma_unique(a, self.zero);
        }
    }

    /// A store for packets with `num_vars` fields.
    pub fn new(num_vars: u32) -> (s: SPPstore)
        ensures
            s.wf(),
            s.num_vars == num_vars,
    {
        let mut bdd = Bdd::new();
        let ghost ns = bdd@;
        proof {
            bdd.lemma_wf();
            lemma_children(ns, 0);
            lemma_children(ns, 1);
        }
        let mut zero: usize = 0;
        let mut one: usize = 1;
        let mut top: usize = 1;
        let mut i: u32 = 0;
        while i < num_vars
            invariant
                i <= num_vars,
                bdd.wf(),
                is_rel(bdd@, zero, i as nat),
                is_rel(bdd@, one, i as nat),
                is_rel(bdd@, top, i as nat),
                forall|p: Pkt, q: Pkt|
                    #![trigger relates(bdd@, zero, p, q)]
                    p.len() == i && q.len() == i ==> !relates(bdd@, zero, p, q),
                forall|p: Pkt, q: Pkt|
                    #![trigger relates(bdd@, one, p, q)]
                    p.len() == i && q.len() == i ==> (relates(bdd@, one, p, q) <==> p =~= q),
                forall|p: Pkt, q: Pkt|
                    #![trigger relates(bdd@, top, p, q)]
                    p.len() == i && q.len() == i ==> relates(bdd@, top, p, q),
            decreases num_vars - i,
        {
            let ghost ns0 = bdd@;
            let ghost (z0, o0, t0) = (zero, one, top);
            proof {
                bdd.lemma_wf();
            }
            let one1 = mk4(&mut bdd, one, zero, zero, one);
            let ghost ns1 = bdd@;
            proof {
                bdd.lemma_wf();
                lemma_ext_depth(ns0, ns1, zero);
                lemma_ext_depth(ns0, ns1, top);
            }
            let top1 = mk4(&mut bdd, top, top, top, top);
            let ghost ns2 = bdd@;
            proof {
                bdd.lemma_wf();
                lemma_ext_depth(ns1, ns2, zero);
                lemma_ext_depth(ns1, ns2, one1);
            }
            let zero1 = mk4(&mut bdd, zero, zero, zero, zero);
            let ghost ns3 = bdd@;
            proof {
                lemma_ext_depth(ns2, ns3, one1);
                lemma_ext_depth(ns2, ns3, top1);
                lemma_ext_quad(ns1, ns3, one1, (i + 1) as nat);
                lemma_ext_quad(ns2, ns3, top1, (i + 1) as nat);
                assert forall|p: Pkt, q: Pkt| p.len() == i + 1 && q.len() == i + 1 implies
                    !relates(ns3, zero1, p, q) && (relates(ns3, one1, p, q) <==> p =~= q)
                    && relates(ns3, top1, p, q) by {
                    let p1 = p.drop_first();
                    let q1 = q.drop_first();
                    lemma_ext_rel(ns0, ns3, z0, p1, q1);
                    lemma_ext_rel(ns0, ns3, o0, p1, q1);
                    lemma_ext_rel(ns0, ns3, t0, p1, q1);
                    assert(quad(ns1, one1, p[0], q[0]) == quad(ns3, one1, p[0], q[0]));
                    assert(quad(ns2, top1, p[0], q[0]) == quad(ns3, top1, p[0], q[0]));
                    assert(!relates(ns0, z0, p1, q1));
                    assert(relates(ns0, o0, p1, q1) <==> p1 =~= q1);
                    assert(relates(ns0, t0, p1, q1));
                    assert(p =~= seq![p[0]] + p1);
                    assert(q =~= seq![q[0]] + q1);
                    if p =~= q {
                        assert(p1 =~= q1);
                    }
                }
            }
            zero = zero1;
            one = one1;
            top = top1;
            i = i + 1;
        }
        let sp = SPstore::new(num_vars);
        SPPstore { bdd, num_vars, zero: SPP(zero), one: SPP(one), top: SPP(top), sp }
    }

    /// The number of fields of a packet.
    pub fn num_vars(&self) -> (n: u32)
        ensures
            n == self.num_vars,
    {
        self.num_vars
    }

    fn apply(&mut self, op: Op, a: SPP, b: SPP) -> (r: SPP)
        requires
            old(self).wf(),
            old(self).has(a),
            old(self).has(b),
        ensures
            final(self).wf(),
            final(self).extends(old(self)),
            final(self).sp == old(self).sp,
            final(self).has(r),
            forall|p: Pkt, q: Pkt|
                #![trigger final(self).rel(r, p, q)]
                p.len() == old(self).n() && q.len() == old(self).n() ==> final(self).rel(r, p, q)
                    == op.on(old(self).rel(a, p, q), old(self).rel(b, p, q)),
    {
        let r = SPP(self.bdd.apply(op, a.0, b.0));
        proof {
            self.lemma_extends(old(self));
            lemma_ext_depth(old(self).bdd@, self.bdd@, a.0);
            assert forall|p: Pkt, q: Pkt|
                #![trigger self.rel(r, p, q)]
                p.len() == old(self).n() && q.len() == old(self).n() implies self.rel(r, p, q)
                == op.on(old(self).rel(a, p, q), old(self).rel(b, p, q)) by {
                assert(self.rel(a, p, q) == old(self).rel(a, p, q));
                assert(self.rel(b, p, q) == old(self).rel(b, p, q));
                lemma_braid(self.bdd@, r.0, p, q);
                lemma_braid(self.bdd@, a.0, p, q);
                lemma_braid(self.bdd@, b.0, p, q);
            }
        }
        r
    }

    /// The pairs of `a` and of `b`.
    pub fn union(&mut self, a: SPP, b: SPP) -> (r: SPP)
        requires
            old(self).wf(),
            old(self).has(a),
            old(self).has(b),
        ensures
            final(self).wf(),
            final(self).extends(old(self)),
            final(self).sp == old(self).sp,
            final(self).has(r),
            forall|p: Pkt, q: Pkt|
                #![trigger final(self).rel(r, p, q)]
                p.len() == old(self).n() && q.len() == old(self).n() ==> final(self).rel(r, p, q)
                    == (old(self).rel(a, p, q) || old(self).rel(b, p, q)),
    {
        self.apply(Op::Or, a, b)
    }

    /// The pairs in both `a` and `b`.
    pub fn intersect(&mut self, a: SPP, b: SPP) -> (r: SPP)
        requires
            old(self).wf(),
            old(self).has(a),
            old(self).has(b),
        ensures
            final(self).wf(),
            final(self).extends(old(self)),
            final(self).sp == old(self).sp,
            final(self).has(r),
            forall|p: Pkt, q: Pkt|
                #![trigger final(self).rel(r, p, q)]
                p.len() == old(self).n() && q.len() == old(self).n() ==> final(self).rel(r, p, q)
                    == (old(self).rel(a, p, q) && old(self).rel(b, p, q)),
    {
        self.apply(Op::And, a, b)
    }

    /// The pairs in exactly one of `a` and `b`.
    pub fn xor(&mut self, a: SPP, b: SPP) -> (r: SPP)
        requires
            old(self).wf(),
            old(self).has(a),
            old(self).has(b),
        ensures
            final(self).wf(),
            final(self).extends(old(self)),
            final(self).sp == old(self).sp,
            final(self).has(r),
            forall|p: Pkt, q: Pkt|
                #![trigger final(self).rel(r, p, q)]
                p.len() == old(self).n() && q.len() == old(self).n() ==> final(self).rel(r, p, q)
                    == (old(self).rel(a, p, q) != old(self).rel(b, p, q)),
    {
        self.apply(Op::Xor, a, b)
    }

    /// The pairs of `a` that are not in `b`.
    pub fn difference(&mut self, a: SPP, b: SPP) -> (r: SPP)
        requires
            old(self).wf(),
            old(self).has(a),
            old(self).has(b),
        ensures
            final(self).wf(),
            final(self).extends(old(self)),
            final(self).sp == old(self).sp,
            final(self).has(r),
            forall|p: Pkt, q: Pkt|
                #![trigger final(self).rel(r, p, q)]
                p.len() == old(self).n() && q.len() == old(self).n() ==> final(self).rel(r, p, q)
                    == (old(self).rel(a, p, q) && !old(self).rel(b, p, q)),
    {
        self.apply(Op::Diff, a, b)
    }

    /// The pairs that are not in `a`.
    pub fn complement(&mut self, a: SPP) -> (r: SPP)
        requires
            old(self).wf(),
            old(self).has(a),
        ensures
            final(self).wf(),
            final(self).extends(old(self)),
            final(self).sp == old(self).sp,
            final(self).has(r),
            forall|p: Pkt, q: Pkt|
                #![trigger final(self).rel(r, p, q)]
                p.len() == old(self).n() && q.len() == old(self).n() ==> final(self).rel(r, p, q)
                    == !old(self).rel(a, p, q),
    {
        let top = self.top;
        let r = self.apply(Op::Diff, top, a);
        proof {
            assert forall|p: Pkt, q: Pkt|
                #![trigger self.rel(r, p, q)]
                p.len() == old(self).n() && q.len() == old(self).n() implies self.rel(r, p, q)
                == !old(self).rel(a, p, q) by {
                assert(old(self).rel(top, p, q));
            }
        }
        r
    }

    /// `a` and then `b`.
    pub fn sequence(&mut self, a: SPP, b: SPP) -> (r: SPP)
        requires
            old(self).wf(),
            old(self).has(a),
            old(self).has(b),
        ensures
            final(self).wf(),
            final(self).extends(old(self)),
            final(self).sp == old(self).sp,
            final(self).has(r),
            forall|p: Pkt, q: Pkt|
                #![trigger final(self).rel(r, p, q)]
                p.len() == old(self).n() && q.len() == old(self).n() ==> (final(self).rel(r, p, q)
                    <==> exists|m: Pkt|
                    #![trigger old(self).rel(a, p, m)]
                    #![trigger old(self).rel(b, m, q)]
                    m.len() == old(self).n() && old(self).rel(a, p, m) && old(self).rel(b, m, q)),
    {
        let mut memo: HashMap<u128, usize> = HashMap::new();
        let ghost n = self.n();
        let r = SPP(seq_rec(&mut self.bdd, a.0, b.0, &mut memo, Ghost(n)));
        proof {
            self.lemma_extends(old(self));
            let ns = self.bdd@;
            assert forall|p: Pkt, q: Pkt|
                #![trigger self.rel(r, p, q)]
                p.len() == old(self).n() && q.len() == old(self).n() implies (self.rel(r, p, q)
                <==> exists|m: Pkt|
                #![trigger old(self).rel(a, p, m)]
                #![trigger old(self).rel(b, m, q)]
                m.len() == old(self).n() && old(self).rel(a, p, m) && old(self).rel(b, m, q)) by {
                if self.rel(r, p, q) {
                    let m = choose|m: Pkt|
                        #![trigger relates(ns, a.0, p, m)]
                        m.len() == p.len() && relates(ns, a.0, p, m) && relates(ns, b.0, m, q);
                    assert(self.rel(a, p, m));
                    assert(self.rel(b, m, q));
                    assert(old(self).rel(a, p, m));
                }
                if exists|m: Pkt|
                    #![trigger old(self).rel(a, p, m)]
                    #![trigger old(self).rel(b, m, q)]
                    m.len() == old(self).n() && old(self).rel(a, p, m) && old(self).rel(b, m, q) {
                    let m = choose|m: Pkt|
                        #![trigger old(self).rel(a, p, m)]
                        #![trigger old(self).rel(b, m, q)]
                        m.len() == old(self).n() && old(self).rel(a, p, m) && old(self).rel(
                            b,
                            m,
                            q,
                        );
                    assert(self.rel(a, p, m));
                    assert(self.rel(b, m, q));
                    assert(linked(ns, a.0, b.0, p, q));
                }
            }
        }
        r
    }

    /// `r` lies between the steps of `f`, with the identity, and their closure.
    spec fn within_star(&self, f: spec_fn(Pkt, Pkt) -> bool, r: SPP) -> bool {
        &&& forall|p: Pkt, q: Pkt|
            #![trigger self.rel(r, p, q)]
            p.len() == self.n() && q.len() == self.n() && self.rel(r, p, q) ==> star_of(
                f,
                self.n(),
                p,
                q,
            )
        &&& forall|p: Pkt, q: Pkt|
            #![trigger self.rel(r, p, q)]
            p.len() == self.n() && q.len() == self.n() && (p == q || f(p, q)) ==> self.rel(r, p, q)
    }

    /// `r2` is `r` twice.
    spec fn squares(&self, s1: &SPPstore, r: SPP, r2: SPP) -> bool {
        forall|p: Pkt, q: Pkt|
            #![trigger s1.rel(r2, p, q)]
            p.len() == self.n() && q.len() == self.n() ==> (s1.rel(r2, p, q) <==> exists|m: Pkt|
                #![trigger self.rel(r, p, m)]
                #![trigger self.rel(r, m, q)]
                m.len() == self.n() && self.rel(r, p, m) && self.rel(r, m, q))
    }

    proof fn lemma_star_round(
        &self,
        s1: &SPPstore,
        f: spec_fn(Pkt, Pkt) -> bool,
        r: SPP,
        r2: SPP,
    )
        requires
            self.within_star(f, r),
            s1.num_vars == self.num_vars,
            self.squares(s1, r, r2),
        ensures
            s1.within_star(f, r2),
    {
        let n = self.n();
        assert forall|p: Pkt, q: Pkt|
            #![trigger s1.rel(r2, p, q)]
            p.len() == n && q.len() == n && s1.rel(r2, p, q) implies star_of(f, n, p, q) by {
            let m = choose|m: Pkt|
                #![trigger self.rel(r, p, m)]
                #![trigger self.rel(r, m, q)]
                m.len() == n && self.rel(r, p, m) && self.rel(r, m, q);
            lemma_star_closed(f, n, p, m, q);
        }
        assert forall|p: Pkt, q: Pkt|
            #![trigger s1.rel(r2, p, q)]
            p.len() == n && q.len() == n && (p == q || f(p, q)) implies s1.rel(r2, p, q) by {
            assert(self.rel(r, p, p));
            assert(self.rel(r, p, q));
        }
    }

    proof fn lemma_star_done(&self, s1: &SPPstore, f: spec_fn(Pkt, Pkt) -> bool, r: SPP)
        requires
            self.within_star(f, r),
            self.squares(s1, r, r),
            s1.num_vars == self.num_vars,
            forall|p: Pkt, q: Pkt|
                #![trigger s1.rel(r, p, q)]
                p.len() == self.n() && q.len() == self.n() ==> self.rel(r, p, q) == s1.rel(r, p, q),
        ensures
            forall|p: Pkt, q: Pkt|
                #![trigger s1.rel(r, p, q)]
                p.len() == self.n() && q.len() == self.n() ==> (s1.rel(r, p, q) <==> star_of(
                    f,
                    self.n(),
                    p,
                    q,
                )),
    {
        let n = self.n();
        let t = self.fun(r);
        assert forall|x: Pkt| x.len() == n implies #[trigger] t(x, x) by {
            assert(self.rel(r, x, x));
        }
        assert forall|x: Pkt, y: Pkt, z: Pkt|
            #![trigger t(x, y), f(y, z)]
            x.len() == n && y.len() == n && z.len() == n && t(x, y) && f(y, z) implies t(x, z) by {
            assert(self.rel(r, x, y));
            assert(self.rel(r, y, z));
            assert(s1.rel(r, x, z));
        }
        assert forall|p: Pkt, q: Pkt|
            #![trigger s1.rel(r, p, q)]
            p.len() == n && q.len() == n implies (s1.rel(r, p, q) <==> star_of(f, n, p, q)) by {
            assert(self.rel(r, p, q) == s1.rel(r, p, q));
            if star_of(f, n, p, q) {
                lemma_star_least(f, t, n, p, q);
            }
        }
    }

    /// Any number of steps of `a`, also none.
    pub fn star(&mut self, a: SPP) -> (r: SPP)
        requires
            old(self).wf(),
            old(self).has(a),
        ensures
            final(self).wf(),
            final(self).extends(old(self)),
            final(self).sp == old(self).sp,
            final(self).has(r),
            forall|p: Pkt, q: Pkt|
                #![trigger final(self).rel(r, p, q)]
                p.len() == old(self).n() && q.len() == old(self).n() ==> (final(self).rel(r, p, q)
                    <==> star_of(old(self).fun(a), old(self).n(), p, q)),
    {
        let ghost f = old(self).fun(a);
        let ghost n = old(self).n();
        let one = self.one;
        let mut r = self.union(one, a);
        // One entry per round, so that the rounds are counted.
        let mut rounds: Vec<()> = Vec::new();
        proof {
            assert forall|p: Pkt, q: Pkt|
                #![trigger self.rel(r, p, q)]
                p.len() == n && q.len() == n && self.rel(r, p, q) implies star_of(f, n, p, q) by {
                lemma_star_closed(f, n, p, p, q);
                assert(old(self).rel(one, p, q) || f(p, q));
            }
            assert forall|p: Pkt, q: Pkt|
                #![trigger self.rel(r, p, q)]
                p.len() == n && q.len() == n && (p == q || old(self).rel(a, p, q)) implies self.rel(
                r,
                p,
                q,
            ) by {
                assert(old(self).rel(one, p, q) <==> p == q);
            }
        }
        loop
            invariant
                self.wf(),
                old(self).wf(),
                old(self).has(a),
                self.extends(old(self)),
                self.sp == old(self).sp,
                self.has(r),
                f == old(self).fun(a),
                n == old(self).n(),
                self.within_star(f, r),
            decreases usize::MAX - rounds.len(),
        {
            let ghost s0 = *self;
            let r2 = self.sequence(r, r);
            proof {
                s0.lemma_star_round(self, f, r, r2);
            }
            if r2 == r {
                proof {
                    s0.lemma_star_done(self, f, r);
                }
                return r;
            }
            r = r2;
            rounds.push(());
        }
    }

    /// The pairs whose bits are allowed at every field.
    pub fn product(&mut self, cells: &Vec<Cell>) -> (r: SPP)
        requires
            old(self).wf(),
            cells@.len() == old(self).n(),
        ensures
            final(self).wf(),
            final(self).extends(old(self)),
            final(self).sp == old(self).sp,
            final(self).has(r),
            forall|p: Pkt, q: Pkt|
                #![trigger final(self).rel(r, p, q)]
                p.len() == old(self).n() && q.len() == old(self).n() ==> (final(self).rel(r, p, q)
                    <==> forall|i: int|
                    0 <= i < p.len() ==> (#[trigger] cells@[i]).allows(p[i], q[i])),
    {
        let mut acc: usize = 1;
        let mut zero: usize = 0;
        let mut i: usize = cells.len();
        proof {
            self.bdd.lemma_wf();
            lemma_children(self.bdd@, 0);
            lemma_children(self.bdd@, 1);
        }
        while i > 0
            invariant
                self.bdd.wf(),
                ext(old(self).bdd@, self.bdd@),
                self.num_vars == old(self).num_vars,
                self.zero == old(self).zero,
                self.one == old(self).one,
                self.top == old(self).top,
                self.sp == old(self).sp,
                0 <= i <= cells@.len(),
                is_rel(self.bdd@, acc, (cells@.len() - i) as nat),
                is_rel(self.bdd@, zero, (cells@.len() - i) as nat),
                forall|p: Pkt, q: Pkt|
                    #![trigger relates(self.bdd@, zero, p, q)]
                    p.len() == cells@.len() - i && q.len() == cells@.len() - i ==> !relates(
                        self.bdd@,
                        zero,
                        p,
                        q,
                    ),
                forall|p: Pkt, q: Pkt|
                    #![trigger relates(self.bdd@, acc, p, q)]
                    p.len() == cells@.len() - i && q.len() == cells@.len() - i ==> (relates(
                        self.bdd@,
                        acc,
                        p,
                        q,
                    ) <==> forall|j: int|
                        i <= j < cells@.len() ==> (#[trigger] cells@[j]).allows(
                            p[j - i],
                            q[j - i],
                        )),
            decreases i,
        {
            let ghost i0 = i;
            let ghost acc0 = acc;
            let ghost zero0 = zero;
            let ghost ns = self.bdd@;
            proof {
                self.bdd.lemma_wf();
            }
            i = i - 1;
            let cell = cells[i];
            acc =
            mk4(
                &mut self.bdd,
                if cell.x00 {
                    acc
                } else {
                    zero
                },
                if cell.x01 {
                    acc
                } else {
                    zero
                },
                if cell.x10 {
                    acc
                } else {
                    zero
                },
                if cell.x11 {
                    acc
                } else {
                    zero
                },
            );
            let ghost ns1 = self.bdd@;
            proof {
                self.bdd.lemma_wf();
                lemma_ext_depth(ns, ns1, zero);
            }
            zero = mk4(&mut self.bdd, zero, zero, zero, zero);
            let ghost ns2 = self.bdd@;
            proof {
                lemma_ext_depth(ns1, ns2, acc);
                lemma_ext_quad(ns1, ns2, acc, (cells@.len() - i) as nat);
                assert forall|p: Pkt, q: Pkt|
                    #![trigger relates(ns2, zero, p, q)]
                    p.len() == cells@.len() - i && q.len() == cells@.len() - i implies !relates(
                    ns2,
                    zero,
                    p,
                    q,
                ) by {
                    lemma_ext_rel(ns, ns2, zero0, p.drop_first(), q.drop_first());
                    assert(!relates(ns, zero0, p.drop_first(), q.drop_first()));
                }
                assert forall|p: Pkt, q: Pkt|
                    #![trigger relates(ns2, acc, p, q)]
                    p.len() == cells@.len() - i && q.len() == cells@.len() - i implies (relates(
                    ns2,
                    acc,
                    p,
                    q,
                ) <==> forall|j: int|
                    i <= j < cells@.len() ==> (#[trigger] cells@[j]).allows(
                        p[j - i],
                        q[j - i],
                    )) by {
                    let p1 = p.drop_first();
                    let q1 = q.drop_first();
                    lemma_ext_rel(ns, ns2, zero0, p1, q1);
                    lemma_ext_rel(ns, ns2, acc0, p1, q1);
                    assert(!relates(ns, zero0, p1, q1));
                    assert(quad(ns1, acc, p[0], q[0]) == quad(ns2, acc, p[0], q[0]));
                    assert(relates(ns2, acc, p, q) == (cells@[i as int].allows(p[0], q[0])
                        && relates(ns, acc0, p1, q1)));
                    if relates(ns2, acc, p, q) {
                        assert forall|j: int| i <= j < cells@.len() implies (
                        #[trigger] cells@[j]).allows(p[j - i], q[j - i]) by {
                            if j > i {
                                assert(cells@[j].allows(p1[j - i0], q1[j - i0]));
                            }
                        }
                    } else if cells@[i as int].allows(p[0], q[0]) {
                        let j = choose|j: int|
                            i0 <= j < cells@.len() && !(#[trigger] cells@[j]).allows(
                                p1[j - i0],
                                q1[j - i0],
                            );
                        assert(!cells@[j].allows(p[j - i], q[j - i]));
                    }
                }
            }
        }
        proof {
            self.lemma_extends(old(self));
        }
        SPP(acc)
    }

    /// Set field `field` to `value`, and leave the others.
    pub fn assign(&mut self, field: u32, value: bool) -> (r: SPP)
        requires
            old(self).wf(),
            field < old(self).num_vars,
        ensures
            final(self).wf(),
            final(self).extends(old(self)),
            final(self).sp == old(self).sp,
            final(self).has(r),
            forall|p: Pkt, q: Pkt|
                #![trigger final(self).rel(r, p, q)]
                p.len() == old(self).n() && q.len() == old(self).n() ==> (final(self).rel(r, p, q)
                    <==> q == p.update(field as int, value)),
    {
        let cell = Cell { x00: !value, x01: value, x10: !value, x11: value };
        let cells = self.at_field(field, cell);
        let r = self.product(&cells);
        proof {
            assert forall|p: Pkt, q: Pkt|
                #![trigger self.rel(r, p, q)]
                p.len() == old(self).n() && q.len() == old(self).n() implies (self.rel(r, p, q)
                <==> q == p.update(field as int, value)) by {
                if self.rel(r, p, q) {
                    assert forall|i: int| 0 <= i < p.len() implies q[i] == p.update(
                        field as int,
                        value,
                    )[i] by {
                        assert(cells@[i].allows(p[i], q[i]));
                    }
                    assert(q =~= p.update(field as int, value));
                }
            }
        }
        r
    }

    /// Pass the packets whose field `field` is `value`, unchanged.
    pub fn test(&mut self, field: u32, value: bool) -> (r: SPP)
        requires
            old(self).wf(),
            field < old(self).num_vars,
        ensures
            final(self).wf(),
            final(self).extends(old(self)),
            final(self).sp == old(self).sp,
            final(self).has(r),
            forall|p: Pkt, q: Pkt|
                #![trigger final(self).rel(r, p, q)]
                p.len() == old(self).n() && q.len() == old(self).n() ==> (final(self).rel(r, p, q)
                    <==> p == q && p[field as int] == value),
    {
        let cell = Cell { x00: !value, x01: false, x10: false, x11: value };
        let cells = self.at_field(field, cell);
        let r = self.product(&cells);
        proof {
            assert forall|p: Pkt, q: Pkt|
                #![trigger self.rel(r, p, q)]
                p.len() == old(self).n() && q.len() == old(self).n() implies (self.rel(r, p, q)
                <==> p == q && p[field as int] == value) by {
                if self.rel(r, p, q) {
                    assert forall|i: int| 0 <= i < p.len() implies q[i] == p[i] by {
                        assert(cells@[i].allows(p[i], q[i]));
                    }
                    assert(cells@[field as int].allows(p[field as int], q[field as int]));
                    assert(p =~= q);
                }
            }
        }
        r
    }

    /// `cell` at one field, and equal bits at the others.
    fn at_field(&self, field: u32, cell: Cell) -> (cells: Vec<Cell>)
        requires
            field < self.num_vars,
        ensures
            cells@.len() == self.n(),
            forall|i: int|
                #![trigger cells@[i]]
                0 <= i < cells@.len() ==> cells@[i] == (if i == field {
                    cell
                } else {
                    Cell { x00: true, x01: false, x10: false, x11: true }
                }),
    {
        let mut cells: Vec<Cell> = Vec::new();
        let mut i: u32 = 0;
        while i < self.num_vars
            invariant
                i <= self.num_vars,
                cells@.len() == i,
                forall|j: int|
                    #![trigger cells@[j]]
                    0 <= j < cells@.len() ==> cells@[j] == (if j == field {
                        cell
                    } else {
                        Cell { x00: true, x01: false, x10: false, x11: true }
                    }),
            decreases self.num_vars - i,
        {
            if i == field {
                cells.push(cell);
            } else {
                cells.push(Cell { x00: true, x01: false, x10: false, x11: true });
            }
            i = i + 1;
        }
        cells
    }

    fn image(&mut self, fwd: bool, a: SP, s: SPP) -> (r: SP)
        requires
            old(self).wf(),
            old(self).sp.has(a),
            old(self).has(s),
        ensures
            final(self).wf(),
            final(self).extends(old(self)),
            final(self).sp.has(r),
            forall|q: Pkt|
                #![trigger final(self).sp.mem(r, q)]
                q.len() == old(self).n() ==> (final(self).sp.mem(r, q) <==> exists|p: Pkt|
                    #![trigger old(self).sp.mem(a, p)]
                    p.len() == old(self).n() && old(self).sp.mem(a, p) && (if fwd {
                        old(self).rel(s, p, q)
                    } else {
                        old(self).rel(s, q, p)
                    })),
    {
        let mut memo: HashMap<u128, usize> = HashMap::new();
        let ghost n = self.n();
        proof {
            self.sp.lemma_mem(a, Seq::empty());
        }
        let r = SP(image_rec(&mut self.sp.bdd, &self.bdd, fwd, a.0, s.0, &mut memo, Ghost(n)));
        proof {
            self.sp.lemma_extends(&old(self).sp);
            self.sp.lemma_consts_ext(&old(self).sp);
            self.sp.lemma_mem(r, Seq::empty());
            self.lemma_extends(old(self));
            let sps = self.sp.bdd@;
            let ns = self.bdd@;
            assert forall|q: Pkt|
                #![trigger self.sp.mem(r, q)]
                q.len() == old(self).n() implies (self.sp.mem(r, q) <==> exists|p: Pkt|
                #![trigger old(self).sp.mem(a, p)]
                p.len() == old(self).n() && old(self).sp.mem(a, p) && (if fwd {
                    old(self).rel(s, p, q)
                } else {
                    old(self).rel(s, q, p)
                })) by {
                self.sp.lemma_mem(r, q);
                assert(sem(sps, r.0, q) <==> reached(sps, ns, fwd, a.0, s.0, q));
                if reached(sps, ns, fwd, a.0, s.0, q) {
                    let p = choose|p: Pkt|
                        #![trigger sem(sps, a.0, p)]
                        p.len() == q.len() && sem(sps, a.0, p) && steps(ns, s.0, fwd, p, q);
                    self.sp.lemma_mem(a, p);
                    assert(self.sp.mem(a, p) == old(self).sp.mem(a, p));
                }
                if exists|p: Pkt|
                    #![trigger old(self).sp.mem(a, p)]
                    p.len() == old(self).n() && old(self).sp.mem(a, p) && (if fwd {
                        old(self).rel(s, p, q)
                    } else {
                        old(self).rel(s, q, p)
                    }) {
                    let p = choose|p: Pkt|
                        #![trigger old(self).sp.mem(a, p)]
                        p.len() == old(self).n() && old(self).sp.mem(a, p) && (if fwd {
                            old(self).rel(s, p, q)
                        } else {
                            old(self).rel(s, q, p)
                        });
                    self.sp.lemma_mem(a, p);
                    assert(self.sp.mem(a, p) == old(self).sp.mem(a, p));
                    assert(sem(sps, a.0, p));
                    assert(steps(ns, s.0, fwd, p, q));
                }
            }
        }
        r
    }

    /// The outputs of `s` on the packets of `a`.
    pub fn push(&mut self, a: SP, s: SPP) -> (r: SP)
        requires
            old(self).wf(),
            old(self).sp.has(a),
            old(self).has(s),
        ensures
            final(self).wf(),
            final(self).extends(old(self)),
            final(self).sp.has(r),
            forall|q: Pkt|
                #![trigger final(self).sp.mem(r, q)]
                q.len() == old(self).n() ==> (final(self).sp.mem(r, q) <==> exists|p: Pkt|
                    #![trigger old(self).sp.mem(a, p)]
                    p.len() == old(self).n() && old(self).sp.mem(a, p) && old(self).rel(s, p, q)),
    {
        self.image(true, a, s)
    }

    /// The inputs on which `s` has an output in `a`.
    pub fn pull(&mut self, s: SPP, a: SP) -> (r: SP)
        requires
            old(self).wf(),
            old(self).sp.has(a),
            old(self).has(s),
        ensures
            final(self).wf(),
            final(self).extends(old(self)),
            final(self).sp.has(r),
            forall|p: Pkt|
                #![trigger final(self).sp.mem(r, p)]
                p.len() == old(self).n() ==> (final(self).sp.mem(r, p) <==> exists|q: Pkt|
                    #![trigger old(self).sp.mem(a, q)]
                    q.len() == old(self).n() && old(self).sp.mem(a, q) && old(self).rel(s, p, q)),
    {
        self.image(false, a, s)
    }

    /// The inputs on which `s` has an output.
    pub fn bwd(&mut self, s: SPP) -> (r: SP)
        requires
            old(self).wf(),
            old(self).has(s),
        ensures
            final(self).wf(),
            final(self).extends(old(self)),
            final(self).sp.has(r),
            forall|p: Pkt|
                #![trigger final(self).sp.mem(r, p)]
                p.len() == old(self).n() ==> (final(self).sp.mem(r, p) <==> exists|q: Pkt|
                    q.len() == old(self).n() && #[trigger] old(self).rel(s, p, q)),
    {
        let one = self.sp.one;
        proof {
            self.sp.lemma_consts();
        }
        let r = self.image(false, one, s);
        proof {
            assert forall|p: Pkt|
                #![trigger self.sp.mem(r, p)]
                p.len() == old(self).n() implies (self.sp.mem(r, p) <==> exists|q: Pkt|
                q.len() == old(self).n() && #[trigger] old(self).rel(s, p, q)) by {
                if exists|q: Pkt| q.len() == old(self).n() && #[trigger] old(self).rel(s, p, q) {
                    let q = choose|q: Pkt|
                        q.len() == old(self).n() && #[trigger] old(self).rel(s, p, q);
                    assert(old(self).sp.mem(one, q));
                }
            }
        }
        r
    }

    /// The outputs of `s`.
    pub fn fwd(&mut self, s: SPP) -> (r: SP)
        requires
            old(self).wf(),
            old(self).has(s),
        ensures
            final(self).wf(),
            final(self).extends(old(self)),
            final(self).sp.has(r),
            forall|q: Pkt|
                #![trigger final(self).sp.mem(r, q)]
                q.len() == old(self).n() ==> (final(self).sp.mem(r, q) <==> exists|p: Pkt|
                    p.len() == old(self).n() && #[trigger] old(self).rel(s, p, q)),
    {
        let one = self.sp.one;
        proof {
            self.sp.lemma_consts();
        }
        let r = self.image(true, one, s);
        proof {
            assert forall|q: Pkt|
                #![trigger self.sp.mem(r, q)]
                q.len() == old(self).n() implies (self.sp.mem(r, q) <==> exists|p: Pkt|
                p.len() == old(self).n() && #[trigger] old(self).rel(s, p, q)) by {
                if exists|p: Pkt| p.len() == old(self).n() && #[trigger] old(self).rel(s, p, q) {
                    let p = choose|p: Pkt|
                        p.len() == old(self).n() && #[trigger] old(self).rel(s, p, q);
                    assert(old(self).sp.mem(one, p));
                }
            }
        }
        r
    }

    /// The largest relation whose inputs lie in `a`.
    pub fn ibwd(&mut self, a: SP) -> (r: SPP)
        requires
            old(self).wf(),
            old(self).sp.has(a),
        ensures
            final(self).wf(),
            final(self).extends(old(self)),
            final(self).sp == old(self).sp,
            final(self).has(r),
            forall|p: Pkt, q: Pkt|
                #![trigger final(self).rel(r, p, q)]
                p.len() == old(self).n() && q.len() == old(self).n() ==> final(self).rel(r, p, q)
                    == old(self).sp.mem(a, p),
    {
        let mut memo: HashMap<usize, usize> = HashMap::new();
        let ghost n = self.n();
        proof {
            self.sp.lemma_mem(a, Seq::empty());
        }
        let r = SPP(lift_rec(&self.sp.bdd, &mut self.bdd, a.0, &mut memo, Ghost(n)));
        proof {
            self.lemma_extends(old(self));
            assert forall|p: Pkt, q: Pkt|
                #![trigger self.rel(r, p, q)]
                p.len() == old(self).n() && q.len() == old(self).n() implies self.rel(r, p, q)
                == old(self).sp.mem(a, p) by {
                self.sp.lemma_mem(a, p);
            }
        }
        r
    }

    /// Whether the relation is empty.
    pub fn is_zero(&self, a: SPP) -> (b: bool)
        requires
            self.wf(),
            self.has(a),
        ensures
            b == (a == self.zero),
            b == !exists|p: Pkt, q: Pkt|
                p.len() == self.n() && q.len() == self.n() && self.rel(a, p, q),
    {
        proof {
            self.lemma_nonzero(a);
        }
        a == self.zero
    }

    /// The quarters of a relation that reads at least one field.
    pub fn get(&self, a: SPP) -> (c: SPPnode)
        requires
            self.wf(),
            exists|k: nat| k > 0 && #[trigger] is_rel(self.bdd@, a.0, k),
        ensures
            c.x00.0 == quad(self.bdd@, a.0, false, false),
            c.x01.0 == quad(self.bdd@, a.0, false, true),
            c.x10.0 == quad(self.bdd@, a.0, true, false),
            c.x11.0 == quad(self.bdd@, a.0, true, true),
    {
        let ghost k = choose|k: nat| k > 0 && #[trigger] is_rel(self.bdd@, a.0, k);
        let (x00, x01, x10, x11) = quarters(&self.bdd, a.0, Ghost(k));
        SPPnode { x00: SPP(x00), x01: SPP(x01), x10: SPP(x10), x11: SPP(x11) }
    }

    /// The relation with the given quarters.
    pub fn mk(&mut self, x00: SPP, x01: SPP, x10: SPP, x11: SPP) -> (r: SPP)
        requires
            old(self).wf(),
            exists|k: nat|
                #![trigger is_rel(old(self).bdd@, x00.0, k)]
                is_rel(old(self).bdd@, x00.0, k) && is_rel(old(self).bdd@, x01.0, k) && is_rel(
                    old(self).bdd@,
                    x10.0,
                    k,
                ) && is_rel(old(self).bdd@, x11.0, k),
        ensures
            final(self).wf(),
            final(self).extends(old(self)),
            final(self).sp == old(self).sp,
            ext(old(self).bdd@, final(self).bdd@),
            forall|k: nat|
                #![trigger is_rel(old(self).bdd@, x00.0, k)]
                is_rel(old(self).bdd@, x00.0, k) ==> is_rel(final(self).bdd@, r.0, k + 1),
            quad(final(self).bdd@, r.0, false, false) == x00.0,
            quad(final(self).bdd@, r.0, false, true) == x01.0,
            quad(final(self).bdd@, r.0, true, false) == x10.0,
            quad(final(self).bdd@, r.0, true, true) == x11.0,
    {
        let r = SPP(mk4(&mut self.bdd, x00.0, x01.0, x10.0, x11.0));
        proof {
            self.lemma_extends(old(self));
        }
        r
    }

    /// Whether `a` relates `p` to `q`.
    pub fn accepts(&self, a: SPP, p: &[bool], q: &[bool]) -> (b: bool)
        requires
            self.wf(),
            self.has(a),
            p@.len() == self.n(),
            q@.len() == self.n(),
        ensures
            b == self.rel(a, p@, q@),
    {
        let mut cur: usize = a.0;
        let mut i: usize = 0;
        let ghost ns = self.bdd@;
        proof {
            self.bdd.lemma_wf();
            assert(p@.subrange(0, p@.len() as int) =~= p@);
            assert(q@.subrange(0, q@.len() as int) =~= q@);
        }
        while i < p.len()
            invariant
                self.wf(),
                ns == self.bdd@,
                nodes_wf(ns),
                0 <= i <= p@.len(),
                p@.len() == q@.len(),
                is_rel(ns, cur, (p@.len() - i) as nat),
                self.rel(a, p@, q@) == relates(
                    ns,
                    cur,
                    p@.subrange(i as int, p@.len() as int),
                    q@.subrange(i as int, q@.len() as int),
                ),
            decreases p.len() - i,
        {
            proof {
                lemma_quad(ns, cur, (p@.len() - i) as nat);
                assert(p@.subrange(i as int, p@.len() as int).drop_first() =~= p@.subrange(
                    i + 1,
                    p@.len() as int,
                ));
                assert(q@.subrange(i as int, q@.len() as int).drop_first() =~= q@.subrange(
                    i + 1,
                    q@.len() as int,
                ));
            }
            let (x00, x01, x10, x11) = quarters(&self.bdd, cur, Ghost((p@.len() - i) as nat));
            cur =
            if p[i] {
                if q[i] {
                    x11
                } else {
                    x10
                }
            } else {
                if q[i] {
                    x01
                } else {
                    x00
                }
            };
            i = i + 1;
        }
        cur == 1
    }

    /// Some output of `a` on `packet`.
    pub fn any_output_packet_from_input(&mut self, a: SPP, packet: &[bool]) -> (q: Vec<bool>)
        requires
            old(self).wf(),
            old(self).has(a),
            packet@.len() == old(self).n(),
            exists|q: Pkt| q.len() == old(self).n() && #[trigger] old(self).rel(a, packet@, q),
        ensures
            final(self).wf(),
            final(self).extends(old(self)),
            q@.len() == old(self).n(),
            old(self).rel(a, packet@, q@),
    {
        let outputs = self.outputs_of(a, packet);
        proof {
            let q = choose|q: Pkt| q.len() == old(self).n() && #[trigger]
                old(self).rel(a, packet@, q);
            assert(self.sp.mem(outputs, q));
            self.sp.lemma_nonzero(outputs);
        }
        self.sp.any_packet(outputs)
    }

    /// The outputs of `a` on `packet`.
    pub fn outputs_of(&mut self, a: SPP, packet: &[bool]) -> (r: SP)
        requires
            old(self).wf(),
            old(self).has(a),
            packet@.len() == old(self).n(),
        ensures
            final(self).wf(),
            final(self).extends(old(self)),
            final(self).sp.has(r),
            forall|q: Pkt|
                #![trigger final(self).sp.mem(r, q)]
                q.len() == old(self).n() ==> final(self).sp.mem(r, q) == old(self).rel(
                    a,
                    packet@,
                    q,
                ),
    {
        let input = self.sp.singleton(packet);
        proof {
            self.lemma_extends(old(self));
        }
        let ghost s1 = *self;
        let r = self.push(input, a);
        proof {
            assert forall|q: Pkt|
                #![trigger self.sp.mem(r, q)]
                q.len() == old(self).n() implies self.sp.mem(r, q) == old(self).rel(
                a,
                packet@,
                q,
            ) by {
                assert(s1.sp.mem(input, packet@));
                assert(s1.rel(a, packet@, q) == old(self).rel(a, packet@, q));
            }
        }
        r
    }

    /// The pair of `a` that is nearest to `choices`, which name a bit of the
    /// input and a bit of the output for every field in turn.
    pub fn pair_by(&self, a: SPP, choices: &Vec<bool>) -> (r: (Vec<bool>, Vec<bool>))
        requires
            self.wf(),
            self.has(a),
            a != self.zero,
            choices@.len() == 2 * self.n(),
        ensures
            r.0@.len() == self.n(),
            r.1@.len() == self.n(),
            self.rel(a, r.0@, r.1@),
    {
        let ghost ns = self.bdd@;
        assert forall|b: Seq<bool>|
            #![trigger sem(ns, self.zero.0, b)]
            b.len() == depth(ns, self.zero.0) implies !sem(ns, self.zero.0, b) by {
            lemma_unbraid(b);
            lemma_braid(ns, self.zero.0, evens(b), odds(b));
            assert(!self.rel(self.zero, evens(b), odds(b)));
        }
        let bits = follow(&self.bdd, a.0, self.zero.0, choices);
        let mut p: Vec<bool> = Vec::new();
        let mut q: Vec<bool> = Vec::new();
        let mut i: usize = 0;
        while i < bits.len()
            invariant
                bits@.len() == 2 * self.n(),
                i <= bits@.len(),
                i % 2 == 0,
                p@.len() == i / 2,
                q@.len() == i / 2,
                forall|j: int| #![trigger p@[j]] 0 <= j < p@.len() ==> p@[j] == bits@[2 * j],
                forall|j: int| #![trigger q@[j]] 0 <= j < q@.len() ==> q@[j] == bits@[2 * j + 1],
            decreases bits.len() - i,
        {
            p.push(bits[i]);
            q.push(bits[i + 1]);
            i = i + 2;
        }
        proof {
            assert(p@ =~= evens(bits@));
            assert(q@ =~= odds(bits@));
            lemma_unbraid(bits@);
            lemma_braid(ns, a.0, p@, q@);
        }
        (p, q)
    }

    /// A random pair of `a`, or `None` if there is none.
    pub fn random_packet_pair(&self, a: SPP) -> (r: Option<(Vec<bool>, Vec<bool>)>)
        requires
            self.wf(),
            self.has(a),
        ensures
            r is None <==> a == self.zero,
            r matches Some(pq) ==> pq.0@.len() == self.n() && pq.1@.len() == self.n() && self.rel(
                a,
                pq.0@,
                pq.1@,
            ),
    {
        if a == self.zero {
            return None;
        }
        let mut choices = random_bits(self.num_vars);
        let mut more = random_bits(self.num_vars);
        choices.append(&mut more);
        Some(self.pair_by(a, &choices))
    }

    /// A random input on which `a` has an output, or `None` if there is none.
    pub fn random_input_packet(&self, a: SPP) -> (r: Option<Vec<bool>>)
        requires
            self.wf(),
            self.has(a),
        ensures
            r is None <==> a == self.zero,
            r matches Some(p) ==> p@.len() == self.n() && exists|q: Pkt|
                q.len() == self.n() && #[trigger] self.rel(a, p@, q),
    {
        match self.random_packet_pair(a) {
            None => None,
            Some((p, q)) => {
                assert(self.rel(a, p@, q@));
                Some(p)
            },
        }
    }

    /// A random output of `a` on `packet`, or `None` if there is none.
    pub fn random_output_packet_from_input(&mut self, a: SPP, packet: &[bool]) -> (r: Option<
        Vec<bool>,
    >)
        requires
            old(self).wf(),
            old(self).has(a),
            packet@.len() == old(self).n(),
        ensures
            final(self).wf(),
            final(self).extends(old(self)),
            r is None <==> !exists|q: Pkt|
                q.len() == old(self).n() && #[trigger] old(self).rel(a, packet@, q),
            r matches Some(q) ==> q@.len() == old(self).n() && old(self).rel(a, packet@, q@),
    {
        let outputs = self.outputs_of(a, packet);
        proof {
            self.sp.lemma_nonzero(outputs);
        }
        if outputs == self.sp.zero {
            proof {
                if exists|q: Pkt| q.len() == old(self).n() && #[trigger]
                    old(self).rel(a, packet@, q) {
                    let q = choose|q: Pkt|
                        q.len() == old(self).n() && #[trigger] old(self).rel(a, packet@, q);
                    assert(self.sp.mem(outputs, q));
                }
            }
            return None;
        }
        let choices = random_bits(self.num_vars);
        let q = self.sp.packet_by(outputs, &choices);
        assert(self.sp.mem(outputs, q@));
        Some(q)
    }
}


// ---- relations on fewer fields ------------------------------------------------------------

/// The quarter for input bit `x` and output bit `y`.
pub open spec fn chosen<T>(x00: T, x01: T, x10: T, x11: T, x: bool, y: bool) -> T {
    if x {
        if y {
            x11
        } else {
            x10
        }
    } else {
        if y {
            x01
        } else {
            x00
        }
    }
}

impl SPPstore {
    /// `a` is a relation on `k` fields.
    pub closed spec fn has_at(&self, k: nat, a: SPP) -> bool {
        is_rel(self.bdd@, a.0, k)
    }

    /// The relation `a` on `p.len()` fields relates `p` to `q`.
    pub closed spec fn rel_at(&self, a: SPP, p: Pkt, q: Pkt) -> bool {
        relates(self.bdd@, a.0, p, q)
    }

    /// The relations on any number of fields are kept.
    pub open spec fn grows(&self, o: &SPPstore) -> bool {
        &&& self.extends(o)
        &&& forall|k: nat, a: SPP| #[trigger] o.has_at(k, a) ==> self.has_at(k, a)
        &&& forall|a: SPP, p: Pkt, q: Pkt|
            #![trigger self.rel_at(a, p, q)]
            #![trigger o.rel_at(a, p, q)]
            o.has_at(p.len(), a) && p.len() == q.len() ==> self.rel_at(a, p, q) == o.rel_at(
                a,
                p,
                q,
            )
    }

    /// A relation of the store is one on all of the fields.
    pub proof fn lemma_at(&self, a: SPP)
        ensures
            self.has(a) == self.has_at(self.n(), a),
            forall|p: Pkt, q: Pkt|
                #![trigger self.rel(a, p, q)]
                #![trigger self.rel_at(a, p, q)]
                self.rel(a, p, q) == self.rel_at(a, p, q),
    {
    }

    /// The sets are sets of packets with the same fields.
    pub proof fn lemma_sets_n(&self)
        requires
            self.wf(),
        ensures
            self.sp.wf(),
            self.sp.n() == self.n(),
    {
    }

    /// A store is one that it has grown from.
    pub proof fn lemma_grows(&self)
        requires
            self.wf(),
        ensures
            self.grows(self),
    {
        self.lemma_wf();
    }

    /// The relation on no fields that holds or does not.
    pub fn leaf(&self, b: bool) -> (r: SPP)
        requires
            self.wf(),
        ensures
            self.has_at(0, r),
            forall|p: Pkt, q: Pkt|
                #![trigger self.rel_at(r, p, q)]
                p.len() == 0 ==> self.rel_at(r, p, q) == b,
    {
        proof {
            self.bdd.lemma_wf();
        }
        let i: usize = if b {
            1
        } else {
            0
        };
        proof {
            lemma_children(self.bdd@, i);
        }
        SPP(i)
    }

    /// The relation on one field more with the given quarters.
    pub fn mk_at(&mut self, x00: SPP, x01: SPP, x10: SPP, x11: SPP, Ghost(k): Ghost<nat>) -> (r:
        SPP)
        requires
            old(self).wf(),
            old(self).has_at(k, x00),
            old(self).has_at(k, x01),
            old(self).has_at(k, x10),
            old(self).has_at(k, x11),
        ensures
            final(self).wf(),
            final(self).grows(old(self)),
            final(self).sp == old(self).sp,
            final(self).has_at(k + 1, r),
            forall|p: Pkt, q: Pkt|
                #![trigger final(self).rel_at(r, p, q)]
                p.len() == k + 1 && q.len() == k + 1 ==> final(self).rel_at(r, p, q) == old(self).rel_at(
                    chosen(x00, x01, x10, x11, p[0], q[0]),
                    p.drop_first(),
                    q.drop_first(),
                ),
    {
        let ghost o = *self;
        let ghost a = self.bdd@;
        proof {
            assert(is_rel(a, x00.0, k));
        }
        let r = self.mk(x00, x01, x10, x11);
        proof {
            let b = self.bdd@;
            assert(is_rel(o.bdd@, x00.0, k));
            o.bdd.lemma_wf();
            assert forall|j: nat, c: SPP| #[trigger] o.has_at(j, c) implies self.has_at(j, c) by {
                lemma_ext_depth(a, b, c.0);
            }
            assert forall|c: SPP, p: Pkt, q: Pkt|
                #![trigger self.rel_at(c, p, q)]
                #![trigger o.rel_at(c, p, q)]
                o.has_at(p.len(), c) && p.len() == q.len() implies self.rel_at(c, p, q)
                == o.rel_at(c, p, q) by {
                lemma_ext_rel(a, b, c.0, p, q);
            }
            assert forall|p: Pkt, q: Pkt|
                #![trigger self.rel_at(r, p, q)]
                p.len() == k + 1 && q.len() == k + 1 implies self.rel_at(r, p, q) == o.rel_at(
                chosen(x00, x01, x10, x11, p[0], q[0]),
                p.drop_first(),
                q.drop_first(),
            ) by {
                let c = chosen(x00, x01, x10, x11, p[0], q[0]);
                assert(quad(b, r.0, p[0], q[0]) == c.0);
                lemma_ext_rel(a, b, c.0, p.drop_first(), q.drop_first());
            }
        }
        r
    }
}

} // verus!
