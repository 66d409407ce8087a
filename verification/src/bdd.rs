//! Hash-consed binary decision diagrams that keep every level.
//!
//! A diagram over `d` bits is an index into a node table.  The indices `0` and
//! `1` are the two leaves (over no bits); every other index is a node whose two
//! children are diagrams over one bit less.  No level is ever skipped, and a
//! pair of children occurs at most once in the table, so two diagrams over the
//! same number of bits denote the same set of bit strings exactly when their
//! indices are equal.
use std::collections::HashMap;
use vstd::prelude::*;

verus! {

/// The node table of a store, as a mathematical sequence.
pub type Nodes = Seq<(usize, usize)>;

/// The number of bits that diagram `i` reads.
pub open spec fn depth(ns: Nodes, i: usize) -> nat
    decreases i,
{
    if i < 2 || i >= ns.len() || ns[i as int].0 >= i {
        0
    } else {
        1 + depth(ns, ns[i as int].0)
    }
}

/// Whether diagram `i` holds the bit string `bits`.
pub open spec fn sem(ns: Nodes, i: usize, bits: Seq<bool>) -> bool
    decreases bits.len(),
{
    if bits.len() == 0 {
        i == 1
    } else {
        sem(
            ns,
            if bits[0] {
                ns[i as int].1
            } else {
                ns[i as int].0
            },
            bits.drop_first(),
        )
    }
}

/// Children come before their parents, siblings have the same depth, and no
/// pair of children occurs twice.
#[verifier::opaque]
pub open spec fn nodes_wf(ns: Nodes) -> bool {
    &&& ns.len() >= 2
    &&& forall|i: int|
        #![trigger ns[i]]
        2 <= i < ns.len() ==> ns[i].0 < i && ns[i].1 < i && depth(ns, ns[i].0) == depth(
            ns,
            ns[i].1,
        )
    &&& forall|i: int, j: int|
        #![trigger ns[i], ns[j]]
        2 <= i < ns.len() && 2 <= j < ns.len() && ns[i] == ns[j] ==> i == j
}

/// Table `b` is table `a` with nodes added at the end.
pub open spec fn ext(a: Nodes, b: Nodes) -> bool {
    &&& a.len() <= b.len()
    &&& forall|i: int| #![trigger b[i]] 0 <= i < a.len() ==> a[i] == b[i]
}

/// `i` is a diagram of table `ns` over `d` bits.
pub open spec fn is_node(ns: Nodes, i: usize, d: nat) -> bool {
    i < ns.len() && depth(ns, i) == d
}

pub proof fn lemma_ext_depth(a: Nodes, b: Nodes, i: usize)
    requires
        ext(a, b),
        i < a.len(),
    ensures
        depth(a, i) == depth(b, i),
    decreases i,
{
    if i >= 2 {
        assert(a[i as int] == b[i as int]);
        if a[i as int].0 < i {
            lemma_ext_depth(a, b, a[i as int].0);
        }
    }
}

/// Growing the table changes no diagram that was already in it.
pub proof fn lemma_ext_sem(a: Nodes, b: Nodes, i: usize, bits: Seq<bool>)
    requires
        nodes_wf(a),
        ext(a, b),
        is_node(a, i, bits.len()),
    ensures
        sem(a, i, bits) == sem(b, i, bits),
    decreases bits.len(),
{
    lemma_children(a, i);
    if bits.len() > 0 {
        assert(a[i as int] == b[i as int]);
        let c = if bits[0] {
            a[i as int].1
        } else {
            a[i as int].0
        };
        lemma_ext_sem(a, b, c, bits.drop_first());
    }
}

pub proof fn lemma_children(ns: Nodes, i: usize)
    requires
        nodes_wf(ns),
        i < ns.len(),
    ensures
        i < 2 <==> depth(ns, i) == 0,
        i >= 2 ==> {
            &&& depth(ns, i) > 0
            &&& is_node(ns, ns[i as int].0, (depth(ns, i) - 1) as nat)
            &&& is_node(ns, ns[i as int].1, (depth(ns, i) - 1) as nat)
        },
{
    reveal(nodes_wf);
    if i >= 2 {
        assert(ns[i as int].0 < i);
    }
}

pub proof fn lemma_sem_cons(ns: Nodes, i: usize, x: bool, bits: Seq<bool>)
    ensures
        sem(ns, i, seq![x] + bits) == sem(
            ns,
            if x {
                ns[i as int].1
            } else {
                ns[i as int].0
            },
            bits,
        ),
{
    assert((seq![x] + bits).drop_first() =~= bits);
}

/// Two diagrams over the same bits that hold the same strings are one.
pub proof fn lemma_canonical(ns: Nodes, i: usize, j: usize, d: nat)
    requires
        nodes_wf(ns),
        is_node(ns, i, d),
        is_node(ns, j, d),
        forall|bits: Seq<bool>| bits.len() == d ==> sem(ns, i, bits) == sem(ns, j, bits),
    ensures
        i == j,
    decreases d,
{
    reveal(nodes_wf);
    lemma_children(ns, i);
    lemma_children(ns, j);
    if d == 0 {
        assert(sem(ns, i, Seq::empty()) == sem(ns, j, Seq::empty()));
    } else {
        let e = (d - 1) as nat;
        assert forall|bits: Seq<bool>| bits.len() == e implies sem(ns, ns[i as int].0, bits) == sem(
            ns,
            ns[j as int].0,
            bits,
        ) && sem(ns, ns[i as int].1, bits) == sem(ns, ns[j as int].1, bits) by {
            lemma_sem_cons(ns, i, false, bits);
            lemma_sem_cons(ns, j, false, bits);
            lemma_sem_cons(ns, i, true, bits);
            lemma_sem_cons(ns, j, true, bits);
            assert((seq![false] + bits).len() == d);
            assert((seq![true] + bits).len() == d);
        }
        lemma_canonical(ns, ns[i as int].0, ns[j as int].0, e);
        lemma_canonical(ns, ns[i as int].1, ns[j as int].1, e);
    }
}

/// The table key of a pair of indices.
pub open spec fn pair_key(a: usize, b: usize) -> u128 {
    (a * 0x1_0000_0000_0000_0000int + b) as u128
}

pub proof fn lemma_pair_key(a: usize, b: usize, c: usize, d: usize)
    ensures
        pair_key(a, b) == a * 0x1_0000_0000_0000_0000int + b,
        pair_key(a, b) == pair_key(c, d) ==> a == c && b == d,
{
    assert(a <= 0xffff_ffff_ffff_ffffint);
    assert(b <= 0xffff_ffff_ffff_ffffint);
    assert(c <= 0xffff_ffff_ffff_ffffint);
    assert(d <= 0xffff_ffff_ffff_ffffint);
}

/// The table key of `(a, b)`.
pub fn key_of(a: usize, b: usize) -> (k: u128)
    ensures
        k == pair_key(a, b),
{
    proof {
        lemma_pair_key(a, b, a, b);
        assert(a <= 0xffff_ffff_ffff_ffffint);
        assert(b <= 0xffff_ffff_ffff_ffffint);
    }
    (a as u128) * 0x1_0000_0000_0000_0000u128 + (b as u128)
}

/// The Boolean connectives that diagrams are combined with.
#[derive(Clone, Copy, Debug, PartialEq, Eq, Structural)]
pub enum Op {
    And,
    Or,
    Xor,
    Diff,
}

impl Op {
    /// The truth table of the connective.
    pub open spec fn on(self, x: bool, y: bool) -> bool {
        match self {
            Op::And => x && y,
            Op::Or => x || y,
            Op::Xor => x != y,
            Op::Diff => x && !y,
        }
    }

    fn eval(self, x: bool, y: bool) -> (r: bool)
        ensures
            r == self.on(x, y),
    {
        match self {
            Op::And => x && y,
            Op::Or => x || y,
            Op::Xor => x != y,
            Op::Diff => x && !y,
        }
    }
}

/// `r` is the combination of `a` and `b` under `op`.
pub open spec fn combines(ns: Nodes, op: Op, a: usize, b: usize, r: usize) -> bool {
    &&& a < ns.len()
    &&& b < ns.len()
    &&& depth(ns, a) == depth(ns, b)
    &&& is_node(ns, r, depth(ns, a))
    &&& forall|bits: Seq<bool>|
        #![trigger sem(ns, r, bits)]
        bits.len() == depth(ns, a) ==> sem(ns, r, bits) == op.on(sem(ns, a, bits), sem(ns, b, bits))
}

pub proof fn lemma_ext_combines(a: Nodes, b: Nodes, op: Op, x: usize, y: usize, r: usize)
    requires
        nodes_wf(a),
        ext(a, b),
        combines(a, op, x, y, r),
    ensures
        combines(b, op, x, y, r),
{
    lemma_ext_depth(a, b, x);
    lemma_ext_depth(a, b, y);
    lemma_ext_depth(a, b, r);
    assert forall|bits: Seq<bool>| #![trigger sem(b, r, bits)] bits.len() == depth(b, x) implies sem(
        b,
        r,
        bits,
    ) == op.on(sem(b, x, bits), sem(b, y, bits)) by {
        lemma_ext_sem(a, b, x, bits);
        lemma_ext_sem(a, b, y, bits);
        lemma_ext_sem(a, b, r, bits);
    }
}

/// Every entry of a memo table is a combination under `op`.
pub open spec fn memo_ok(ns: Nodes, op: Op, memo: Map<u128, usize>) -> bool {
    forall|a: usize, b: usize|
        #![trigger memo.contains_key(pair_key(a, b))]
        memo.contains_key(pair_key(a, b)) ==> combines(ns, op, a, b, memo[pair_key(a, b)])
}

/// A store of diagrams.
pub struct Bdd {
    nodes: Vec<(usize, usize)>,
    index: HashMap<u128, usize>,
}

impl Bdd {
    /// The node table.
    pub closed spec fn view(&self) -> Nodes {
        self.nodes@
    }

    /// The table is well formed and the index finds exactly its nodes.
    pub closed spec fn wf(&self) -> bool {
        &&& nodes_wf(self.nodes@)
        &&& forall|a: usize, b: usize|
            #![trigger self.index@.contains_key(pair_key(a, b))]
            self.index@.contains_key(pair_key(a, b)) ==> {
                let i = self.index@[pair_key(a, b)];
                2 <= i < self.nodes@.len() && self.nodes@[i as int] == (a, b)
            }
        &&& forall|i: int|
            #![trigger self.nodes@[i]]
            2 <= i < self.nodes@.len() ==> self.index@.contains_key(
                pair_key(self.nodes@[i].0, self.nodes@[i].1),
            )
    }

    pub proof fn lemma_wf(&self)
        requires
            self.wf(),
        ensures
            nodes_wf(self@),
            self@.len() >= 2,
    {
        reveal(nodes_wf);
    }

    /// A store with the two leaves.
    pub fn new() -> (b: Bdd)
        ensures
            b.wf(),
            b@.len() == 2,
    {
        let mut nodes: Vec<(usize, usize)> = Vec::new();
        nodes.push((0, 0));
        nodes.push((0, 0));
        proof {
            reveal(nodes_wf);
        }
        Bdd { nodes, index: HashMap::new() }
    }

    /// The number of entries of the table.
    pub fn len(&self) -> (n: usize)
        ensures
            n == self@.len(),
    {
        self.nodes.len()
    }

    /// The children of node `i`.
    pub fn get(&self, i: usize) -> (c: (usize, usize))
        requires
            i < self@.len(),
        ensures
            c == self@[i as int],
    {
        self.nodes[i]
    }

    /// The node with children `lo` and `hi`.
    pub fn mk(&mut self, lo: usize, hi: usize) -> (r: usize)
        requires
            old(self).wf(),
            lo < old(self)@.len(),
            hi < old(self)@.len(),
            depth(old(self)@, lo) == depth(old(self)@, hi),
        ensures
            final(self).wf(),
            ext(old(self)@, final(self)@),
            2 <= r,
            is_node(final(self)@, r, depth(old(self)@, lo) + 1),
            final(self)@[r as int] == (lo, hi),
    {
        let k = key_of(lo, hi);
        proof {
            reveal(nodes_wf);
        }
        if let Some(r) = self.index.get(&k) {
            let r: usize = *r;
            assert(self.nodes@[r as int] == (lo, hi));
            return r;
        }
        let ghost ns = self.nodes@;
        let r: usize = self.nodes.len();
        self.nodes.push((lo, hi));
        self.index.insert(k, r);
        proof {
            let ms = self.nodes@;
            assert(ext(ns, ms));
            assert(ms[r as int] == (lo, hi));
            assert forall|i: int| #![trigger ms[i]] 2 <= i < ms.len() implies ms[i].0 < i && ms[i].1
                < i && depth(ms, ms[i].0) == depth(ms, ms[i].1) by {
                if i < ns.len() {
                    assert(ns[i] == ms[i]);
                    lemma_ext_depth(ns, ms, ns[i].0);
                    lemma_ext_depth(ns, ms, ns[i].1);
                } else {
                    lemma_ext_depth(ns, ms, lo);
                    lemma_ext_depth(ns, ms, hi);
                }
            }
            assert forall|i: int, j: int|
                #![trigger ms[i], ms[j]]
                2 <= i < ms.len() && 2 <= j < ms.len() && ms[i] == ms[j] implies i == j by {
                if i < ns.len() {
                    assert(ns[i] == ms[i]);
                    assert(old(self).index@.contains_key(pair_key(ns[i].0, ns[i].1)));
                }
                if j < ns.len() {
                    assert(ns[j] == ms[j]);
                    assert(old(self).index@.contains_key(pair_key(ns[j].0, ns[j].1)));
                }
            }
            lemma_ext_depth(ns, ms, lo);
            assert(depth(ms, r) == depth(ms, lo) + 1);
            assert forall|a: usize, b: usize|
                #![trigger self.index@.contains_key(pair_key(a, b))]
                self.index@.contains_key(pair_key(a, b)) implies {
                let i = self.index@[pair_key(a, b)];
                2 <= i < self.nodes@.len() && self.nodes@[i as int] == (a, b)
            } by {
                lemma_pair_key(a, b, lo, hi);
                if pair_key(a, b) != k {
                    assert(old(self).index@.contains_key(pair_key(a, b)));
                }
            }
            assert forall|i: int| #![trigger ms[i]] 2 <= i < ms.len() implies self.index@.contains_key(
                pair_key(ms[i].0, ms[i].1),
            ) by {
                if i < ns.len() {
                    assert(ns[i] == ms[i]);
                }
            }
        }
        r
    }

    /// The diagram over `d` bits that holds every string (`leaf` is `1`) or
    /// none (`leaf` is `0`).
    pub fn constant(&mut self, leaf: bool, d: u32) -> (r: usize)
        requires
            old(self).wf(),
        ensures
            final(self).wf(),
            ext(old(self)@, final(self)@),
            is_node(final(self)@, r, d as nat),
            forall|bits: Seq<bool>|
                #![trigger sem(final(self)@, r, bits)]
                bits.len() == d ==> sem(final(self)@, r, bits) == leaf,
        decreases d,
    {
        if d == 0 {
            proof {
                self.lemma_wf();
            }
            if leaf {
                1
            } else {
                0
            }
        } else {
            let c = self.constant(leaf, d - 1);
            let ghost ns = self@;
            let r = self.mk(c, c);
            proof {
                old(self).lemma_wf();
                assert forall|bits: Seq<bool>|
                    #![trigger sem(self@, r, bits)]
                    bits.len() == d implies sem(self@, r, bits) == leaf by {
                    lemma_ext_sem(ns, self@, c, bits.drop_first());
                    assert(sem(ns, c, bits.drop_first()) == leaf);
                }
            }
            r
        }
    }

    /// The combination of `a` and `b` under `op`.
    pub fn apply(&mut self, op: Op, a: usize, b: usize) -> (r: usize)
        requires
            old(self).wf(),
            a < old(self)@.len(),
            b < old(self)@.len(),
            depth(old(self)@, a) == depth(old(self)@, b),
        ensures
            final(self).wf(),
            ext(old(self)@, final(self)@),
            combines(final(self)@, op, a, b, r),
    {
        let mut memo: HashMap<u128, usize> = HashMap::new();
        self.apply_rec(op, a, b, &mut memo)
    }

    fn apply_rec(&mut self, op: Op, a: usize, b: usize, memo: &mut HashMap<u128, usize>) -> (r:
        usize)
        requires
            old(self).wf(),
            a < old(self)@.len(),
            b < old(self)@.len(),
            depth(old(self)@, a) == depth(old(self)@, b),
            memo_ok(old(self)@, op, old(memo)@),
        ensures
            final(self).wf(),
            ext(old(self)@, final(self)@),
            combines(final(self)@, op, a, b, r),
            memo_ok(final(self)@, op, final(memo)@),
        decreases depth(old(self)@, a),
    {
        let ghost ns = self@;
        proof {
            self.lemma_wf();
            lemma_children(ns, a);
            lemma_children(ns, b);
        }
        if a < 2 {
            let r: usize = if op.eval(a == 1, b == 1) {
                1
            } else {
                0
            };
            return r;
        }
        let k = key_of(a, b);
        if let Some(r) = memo.get(&k) {
            let r: usize = *r;
            return r;
        }
        let (a0, a1) = self.get(a);
        let (b0, b1) = self.get(b);
        let r0 = self.apply_rec(op, a0, b0, memo);
        let ghost ns1 = self@;
        proof {
            self.lemma_wf();
            lemma_ext_depth(ns, ns1, a1);
            lemma_ext_depth(ns, ns1, b1);
            lemma_ext_depth(ns, ns1, a0);
        }
        let r1 = self.apply_rec(op, a1, b1, memo);
        let ghost ns2 = self@;
        proof {
            self.lemma_wf();
            lemma_ext_combines(ns1, ns2, op, a0, b0, r0);
            lemma_ext_depth(ns1, ns2, a0);
            lemma_ext_depth(ns1, ns2, a1);
        }
        let r = self.mk(r0, r1);
        let ghost ns3 = self@;
        proof {
            self.lemma_wf();
            assert(ext(ns, ns3));
            lemma_ext_combines(ns2, ns3, op, a0, b0, r0);
            lemma_ext_combines(ns2, ns3, op, a1, b1, r1);
            lemma_ext_depth(ns, ns3, a);
            lemma_ext_depth(ns, ns3, b);
            assert(ns[a as int] == ns3[a as int]);
            assert(ns[b as int] == ns3[b as int]);
            lemma_children(ns3, a);
            lemma_children(ns3, b);
            assert forall|bits: Seq<bool>|
                #![trigger sem(ns3, r, bits)]
                bits.len() == depth(ns3, a) implies sem(ns3, r, bits) == op.on(
                sem(ns3, a, bits),
                sem(ns3, b, bits),
            ) by {
                let t = bits.drop_first();
                if bits[0] {
                    assert(sem(ns3, r1, t) == op.on(sem(ns3, a1, t), sem(ns3, b1, t)));
                } else {
                    assert(sem(ns3, r0, t) == op.on(sem(ns3, a0, t), sem(ns3, b0, t)));
                }
            }
            assert(combines(ns3, op, a, b, r));
        }
        let ghost m = memo@;
        memo.insert(k, r);
        proof {
            assert forall|x: usize, y: usize|
                #![trigger memo@.contains_key(pair_key(x, y))]
                memo@.contains_key(pair_key(x, y)) implies combines(
                ns3,
                op,
                x,
                y,
                memo@[pair_key(x, y)],
            ) by {
                lemma_pair_key(x, y, a, b);
                if pair_key(x, y) != k {
                    assert(m.contains_key(pair_key(x, y)));
                    lemma_ext_combines(ns2, ns3, op, x, y, m[pair_key(x, y)]);
                }
            }
        }
        r
    }
}

} // verus!
