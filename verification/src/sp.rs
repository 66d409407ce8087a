//! Symbolic packets: sets of packets over a fixed number of one-bit fields.
use std::collections::HashMap;
use vstd::prelude::*;
use crate::bdd::{
    depth, ext, is_node, lemma_canonical, lemma_children, lemma_ext_depth, lemma_ext_sem, nodes_wf,
    sem, Bdd, Nodes, Op,
};

verus! {

/// A packet: the value of each field, field 0 first.
pub type Pkt = Seq<bool>;

/// A set of packets, as an index into an [`SPstore`].
#[derive(Clone, Copy, Debug, PartialEq, Eq, PartialOrd, Ord, Hash, Structural)]
pub struct SP(pub usize);

impl SP {
    /// The set with index `i`; `0` and `1` are the leaves.
    pub fn new(i: usize) -> (sp: SP)
        ensures
            sp == SP(i),
    {
        SP(i)
    }
}

/// The two halves of a set: the packets whose next field is `0`, and those
/// whose next field is `1`.
#[derive(Clone, Copy, Debug, PartialEq, Eq, Structural)]
pub struct SPnode {
    pub x0: SP,
    pub x1: SP,
}

/// A hash-consed store of packet sets.
///
/// Every set is kept as a diagram with one level per field, so equal sets have
/// equal indices.
pub struct SPstore {
    pub bdd: Bdd,
    pub num_vars: u32,
    pub zero: SP,
    pub one: SP,
}

/// Which values a field may have.
#[derive(Clone, Copy, Debug, PartialEq, Eq, Structural)]
pub struct Bit {
    pub x0: bool,
    pub x1: bool,
}

impl Bit {
    pub open spec fn allows(self, x: bool) -> bool {
        if x {
            self.x1
        } else {
            self.x0
        }
    }
}

/// A bit string of diagram `i`: at every level the branch that `choices` names
/// is taken, unless no string is left under it.
pub(crate) fn follow(bdd: &Bdd, i: usize, zero: usize, choices: &Vec<bool>) -> (bits: Vec<bool>)
    requires
        bdd.wf(),
        i < bdd@.len(),
        zero < bdd@.len(),
        depth(bdd@, i) == depth(bdd@, zero),
        choices@.len() == depth(bdd@, i),
        forall|b: Seq<bool>|
            #![trigger sem(bdd@, zero, b)]
            b.len() == depth(bdd@, zero) ==> !sem(bdd@, zero, b),
        i != zero,
    ensures
        bits@.len() == depth(bdd@, i),
        sem(bdd@, i, bits@),
{
    let mut bits: Vec<bool> = Vec::new();
    let mut cur: usize = i;
    let mut z: usize = zero;
    let ghost ns = bdd@;
    let ghost d = depth(ns, i);
    proof {
        bdd.lemma_wf();
    }
    while bits.len() < choices.len()
        invariant
            bdd.wf(),
            ns == bdd@,
            nodes_wf(ns),
            choices@.len() == d,
            bits@.len() <= d,
            is_node(ns, cur, (d - bits@.len()) as nat),
            is_node(ns, z, (d - bits@.len()) as nat),
            forall|b: Seq<bool>|
                #![trigger sem(ns, z, b)]
                b.len() == d - bits@.len() ==> !sem(ns, z, b),
            cur != z,
            forall|b: Seq<bool>|
                #![trigger sem(ns, cur, b)]
                b.len() == d - bits@.len() && sem(ns, cur, b) ==> sem(ns, i, bits@ + b),
        decreases choices.len() - bits.len(),
    {
        proof {
            lemma_children(ns, cur);
            lemma_children(ns, z);
        }
        let (c0, c1) = bdd.get(cur);
        let (z0, _z1) = bdd.get(z);
        let ghost e = (d - bits@.len() - 1) as nat;
        proof {
            assert forall|b: Seq<bool>| #![trigger sem(ns, z0, b)] b.len() == e implies !sem(
                ns,
                z0,
                b,
            ) by {
                crate::bdd::lemma_sem_cons(ns, z, false, b);
                assert((seq![false] + b).len() == d - bits@.len());
            }
            if c0 == z0 && c1 == z0 {
                assert forall|b: Seq<bool>| b.len() == d - bits@.len() implies sem(ns, cur, b)
                    == sem(ns, z, b) by {
                    assert(!sem(ns, z0, b.drop_first()));
                }
                lemma_canonical(ns, cur, z, (e + 1) as nat);
            }
        }
        let want = choices[bits.len()];
        let x: bool = if c0 == z0 {
            true
        } else if c1 == z0 {
            false
        } else {
            want
        };
        let next: usize = if x {
            c1
        } else {
            c0
        };
        let ghost bits0 = bits@;
        bits.push(x);
        proof {
            assert forall|b: Seq<bool>|
                #![trigger sem(ns, next, b)]
                b.len() == e && sem(ns, next, b) implies sem(ns, i, bits@ + b) by {
                crate::bdd::lemma_sem_cons(ns, cur, x, b);
                assert(sem(ns, cur, seq![x] + b));
                assert(bits0 + (seq![x] + b) =~= bits@ + b);
            }
        }
        cur = next;
        z = z0;
    }
    proof {
        lemma_children(ns, cur);
        lemma_children(ns, z);
        assert(sem(ns, z, Seq::<bool>::empty()) == (z == 1));
        assert(cur == 1 && z == 0);
        assert(sem(ns, cur, Seq::<bool>::empty()));
        assert(bits@ + Seq::<bool>::empty() =~= bits@);
    }
    bits
}

impl SPstore {
    /// The number of fields of a packet.
    pub closed spec fn n(&self) -> nat {
        self.num_vars as nat
    }

    /// The node table.
    pub closed spec fn table(&self) -> Nodes {
        self.bdd@
    }

    /// `sp` is a set of this store.
    pub closed spec fn has(&self, sp: SP) -> bool {
        is_node(self.bdd@, sp.0, self.num_vars as nat)
    }

    /// The packet `p` is in the set `sp`.
    pub closed spec fn mem(&self, sp: SP, p: Pkt) -> bool {
        sem(self.bdd@, sp.0, p)
    }

    pub closed spec fn wf(&self) -> bool {
        &&& self.bdd.wf()
        &&& self.has(self.zero)
        &&& self.has(self.one)
        &&& forall|p: Pkt| #![trigger self.mem(self.zero, p)] p.len() == self.n() ==> !self.mem(self.zero, p)
        &&& forall|p: Pkt| #![trigger self.mem(self.one, p)] p.len() == self.n() ==> self.mem(self.one, p)
    }

    /// `self` is `o` with sets added: every set of `o` is kept, with the same
    /// packets.
    pub open spec fn extends(&self, o: &SPstore) -> bool {
        &&& self.n() == o.n()
        &&& self.zero == o.zero
        &&& self.one == o.one
        &&& forall|a: SP| #![trigger self.has(a)] #![trigger o.has(a)] o.has(a) ==> self.has(a)
        &&& forall|a: SP, p: Pkt|
            #![trigger self.mem(a, p)]
            #![trigger o.mem(a, p)]
            o.has(a) && p.len() == o.n() ==> self.mem(a, p) == o.mem(a, p)
    }

    pub(crate) proof fn lemma_extends(&self, o: &SPstore)
        requires
            o.wf(),
            ext(o.bdd@, self.bdd@),
            self.num_vars == o.num_vars,
            self.zero == o.zero,
            self.one == o.one,
        ensures
            self.extends(o),
    {
        o.bdd.lemma_wf();
        assert forall|a: SP| #![trigger self.has(a)] o.has(a) implies self.has(a) by {
            lemma_ext_depth(o.bdd@, self.bdd@, a.0);
        }
        assert forall|a: SP, p: Pkt|
            #![trigger self.mem(a, p)]
            o.has(a) && p.len() == o.n() implies self.mem(a, p) == o.mem(a, p) by {
            lemma_ext_sem(o.bdd@, self.bdd@, a.0, p);
        }
    }

    pub(crate) proof fn lemma_consts_ext(&self, o: &SPstore)
        requires
            o.wf(),
            self.bdd.wf(),
            self.extends(o),
        ensures
            self.wf(),
    {
    }

    pub(crate) proof fn lemma_mem(&self, a: SP, p: Pkt)
        ensures
            self.mem(a, p) == sem(self.bdd@, a.0, p),
            self.has(a) == is_node(self.bdd@, a.0, self.n()),
            self.n() == self.num_vars,
            self.wf() ==> self.bdd.wf(),
    {
    }

    /// The constants of a well-formed store hold no packet, and every packet.
    pub proof fn lemma_consts(&self)
        requires
            self.wf(),
        ensures
            self.has(self.zero),
            self.has(self.one),
            forall|p: Pkt| #![trigger self.mem(self.zero, p)] p.len() == self.n() ==> !self.mem(self.zero, p),
            forall|p: Pkt| #![trigger self.mem(self.one, p)] p.len() == self.n() ==> self.mem(self.one, p),
    {
    }

    /// Sets with the same packets have the same index.
    pub proof fn lemma_unique(&self, a: SP, b: SP)
        requires
            self.wf(),
            self.has(a),
            self.has(b),
            forall|p: Pkt| p.len() == self.n() ==> self.mem(a, p) == self.mem(b, p),
        ensures
            a == b,
    {
        self.bdd.lemma_wf();
        lemma_canonical(self.bdd@, a.0, b.0, self.n());
    }

    /// Every set but `zero` holds some packet.
    pub proof fn lemma_nonzero(&self, a: SP)
        requires
            self.wf(),
            self.has(a),
        ensures
            a != self.zero <==> exists|p: Pkt| p.len() == self.n() && self.mem(a, p),
    {
        if !(exists|p: Pkt| p.len() == self.n() && self.mem(a, p)) {
            assert forall|p: Pkt| p.len() == self.n() implies self.mem(a, p) == self.mem(
                self.zero,
                p,
            ) by {}
            self.lemma_unique(a, self.zero);
        }
    }

    /// A store for packets with `num_vars` fields.
    pub fn new(num_vars: u32) -> (s: SPstore)
        ensures
            s.wf(),
            s.n() == num_vars,
    {
        let mut bdd = Bdd::new();
        let zero = bdd.constant(false, num_vars);
        let ghost b0 = bdd@;
        let ghost bdd0 = bdd;
        let one = bdd.constant(true, num_vars);
        let s = SPstore { bdd, num_vars, zero: SP(zero), one: SP(one) };
        proof {
            bdd0.lemma_wf();
            lemma_ext_depth(b0, s.bdd@, zero);
            assert forall|p: Pkt| #![trigger s.mem(s.zero, p)] p.len() == s.n() implies !s.mem(
                s.zero,
                p,
            ) by {
                lemma_ext_sem(b0, s.bdd@, zero, p);
                assert(!sem(b0, zero, p));
            }
        }
        s
    }

    /// The number of fields of a packet.
    pub fn num_vars(&self) -> (n: u32)
        ensures
            n == self.n(),
    {
        self.num_vars
    }

    fn apply(&mut self, op: Op, a: SP, b: SP) -> (r: SP)
        requires
            old(self).wf(),
            old(self).has(a),
            old(self).has(b),
        ensures
            final(self).wf(),
            final(self).extends(old(self)),
            final(self).has(r),
            forall|p: Pkt|
                #![trigger final(self).mem(r, p)]
                p.len() == old(self).n() ==> final(self).mem(r, p) == op.on(
                    old(self).mem(a, p),
                    old(self).mem(b, p),
                ),
    {
        let r = SP(self.bdd.apply(op, a.0, b.0));
        proof {
            self.lemma_extends(old(self));
            lemma_ext_depth(old(self).bdd@, self.bdd@, a.0);
            assert forall|p: Pkt|
                #![trigger self.mem(r, p)]
                p.len() == old(self).n() implies self.mem(r, p) == op.on(
                old(self).mem(a, p),
                old(self).mem(b, p),
            ) by {
                assert(self.mem(a, p) == old(self).mem(a, p));
                assert(self.mem(b, p) == old(self).mem(b, p));
            }
        }
        r
    }

    /// The packets of `a` and of `b`.
    pub fn union(&mut self, a: SP, b: SP) -> (r: SP)
        requires
            old(self).wf(),
            old(self).has(a),
            old(self).has(b),
        ensures
            final(self).wf(),
            final(self).extends(old(self)),
            final(self).has(r),
            forall|p: Pkt|
                #![trigger final(self).mem(r, p)]
                p.len() == old(self).n() ==> final(self).mem(r, p) == (old(self).mem(a, p)
                    || old(self).mem(b, p)),
    {
        self.apply(Op::Or, a, b)
    }

    /// The packets in both `a` and `b`.
    pub fn intersect(&mut self, a: SP, b: SP) -> (r: SP)
        requires
            old(self).wf(),
            old(self).has(a),
            old(self).has(b),
        ensures
            final(self).wf(),
            final(self).extends(old(self)),
            final(self).has(r),
            forall|p: Pkt|
                #![trigger final(self).mem(r, p)]
                p.len() == old(self).n() ==> final(self).mem(r, p) == (old(self).mem(a, p)
                    && old(self).mem(b, p)),
    {
        self.apply(Op::And, a, b)
    }

    /// The packets in exactly one of `a` and `b`.
    pub fn xor(&mut self, a: SP, b: SP) -> (r: SP)
        requires
            old(self).wf(),
            old(self).has(a),
            old(self).has(b),
        ensures
            final(self).wf(),
            final(self).extends(old(self)),
            final(self).has(r),
            forall|p: Pkt|
                #![trigger final(self).mem(r, p)]
                p.len() == old(self).n() ==> final(self).mem(r, p) == (old(self).mem(a, p)
                    != old(self).mem(b, p)),
    {
        self.apply(Op::Xor, a, b)
    }

    /// The packets of `a` that are not in `b`.
    pub fn difference(&mut self, a: SP, b: SP) -> (r: SP)
        requires
            old(self).wf(),
            old(self).has(a),
            old(self).has(b),
        ensures
            final(self).wf(),
            final(self).extends(old(self)),
            final(self).has(r),
            forall|p: Pkt|
                #![trigger final(self).mem(r, p)]
                p.len() == old(self).n() ==> final(self).mem(r, p) == (old(self).mem(a, p)
                    && !old(self).mem(b, p)),
    {
        self.apply(Op::Diff, a, b)
    }

    /// The packets that are not in `a`.
    pub fn complement(&mut self, a: SP) -> (r: SP)
        requires
            old(self).wf(),
            old(self).has(a),
        ensures
            final(self).wf(),
            final(self).extends(old(self)),
            final(self).has(r),
            forall|p: Pkt|
                #![trigger final(self).mem(r, p)]
                p.len() == old(self).n() ==> final(self).mem(r, p) == !old(self).mem(a, p),
    {
        let one = self.one;
        let r = self.apply(Op::Diff, one, a);
        proof {
            assert forall|p: Pkt|
                #![trigger self.mem(r, p)]
                p.len() == old(self).n() implies self.mem(r, p) == !old(self).mem(a, p) by {
                assert(old(self).mem(one, p));
            }
        }
        r
    }

    /// Whether the set is empty.
    pub fn is_zero(&self, a: SP) -> (b: bool)
        requires
            self.wf(),
            self.has(a),
        ensures
            b == (a == self.zero),
            b == !exists|p: Pkt| p.len() == self.n() && self.mem(a, p),
    {
        proof {
            self.lemma_nonzero(a);
        }
        a == self.zero
    }

    /// The two halves of a set that reads at least one field.
    pub fn get(&self, a: SP) -> (c: SPnode)
        requires
            self.wf(),
            2 <= a.0 < self.table().len(),
        ensures
            (c.x0.0, c.x1.0) == self.table()[a.0 as int],
    {
        let (x0, x1) = self.bdd.get(a.0);
        SPnode { x0: SP(x0), x1: SP(x1) }
    }

    /// The set whose halves are `x0` and `x1`.
    pub fn mk(&mut self, x0: SP, x1: SP) -> (r: SP)
        requires
            old(self).wf(),
            x0.0 < old(self).table().len(),
            x1.0 < old(self).table().len(),
            depth(old(self).table(), x0.0) == depth(old(self).table(), x1.0),
        ensures
            final(self).wf(),
            final(self).extends(old(self)),
            ext(old(self).table(), final(self).table()),
            is_node(final(self).table(), r.0, depth(old(self).table(), x0.0) + 1),
            r.0 >= 2,
            final(self).table()[r.0 as int] == (x0.0, x1.0),
    {
        let r = SP(self.bdd.mk(x0.0, x1.0));
        proof {
            self.lemma_extends(old(self));
        }
        r
    }

    /// Whether packet `p` is in `a`.
    pub fn contains(&self, a: SP, p: &[bool]) -> (b: bool)
        requires
            self.wf(),
            self.has(a),
            p@.len() == self.n(),
        ensures
            b == self.mem(a, p@),
    {
        let mut cur: usize = a.0;
        let mut i: usize = 0;
        let ghost ns = self.bdd@;
        proof {
            self.bdd.lemma_wf();
            assert(p@.subrange(0, p@.len() as int) =~= p@);
        }
        while i < p.len()
            invariant
                self.wf(),
                ns == self.bdd@,
                nodes_wf(ns),
                0 <= i <= p@.len(),
                is_node(ns, cur, (p@.len() - i) as nat),
                self.mem(a, p@) == sem(ns, cur, p@.subrange(i as int, p@.len() as int)),
            decreases p.len() - i,
        {
            proof {
                lemma_children(ns, cur);
                assert(p@.subrange(i as int, p@.len() as int).drop_first() =~= p@.subrange(
                    i + 1,
                    p@.len() as int,
                ));
            }
            let (c0, c1) = self.bdd.get(cur);
            cur = if p[i] {
                c1
            } else {
                c0
            };
            i = i + 1;
        }
        cur == 1
    }

    /// The packets whose every field has an allowed value.
    pub fn product(&mut self, bits: &Vec<Bit>) -> (r: SP)
        requires
            old(self).wf(),
            bits@.len() == old(self).n(),
        ensures
            final(self).wf(),
            final(self).extends(old(self)),
            final(self).has(r),
            forall|p: Pkt|
                #![trigger final(self).mem(r, p)]
                p.len() == old(self).n() ==> (final(self).mem(r, p) <==> forall|i: int|
                    0 <= i < p.len() ==> (#[trigger] bits@[i]).allows(p[i])),
    {
        let mut acc: usize = 1;
        let mut zero: usize = 0;
        let mut i: usize = bits.len();
        proof {
            self.bdd.lemma_wf();
        }
        while i > 0
            invariant
                self.bdd.wf(),
                ext(old(self).bdd@, self.bdd@),
                self.num_vars == old(self).num_vars,
                self.zero == old(self).zero,
                self.one == old(self).one,
                0 <= i <= bits@.len(),
                is_node(self.bdd@, acc, (bits@.len() - i) as nat),
                is_node(self.bdd@, zero, (bits@.len() - i) as nat),
                forall|b: Seq<bool>|
                    #![trigger sem(self.bdd@, zero, b)]
                    b.len() == bits@.len() - i ==> !sem(self.bdd@, zero, b),
                forall|b: Seq<bool>|
                    #![trigger sem(self.bdd@, acc, b)]
                    b.len() == bits@.len() - i ==> (sem(self.bdd@, acc, b) <==> forall|j: int|
                        i <= j < bits@.len() ==> (#[trigger] bits@[j]).allows(b[j - i])),
            decreases i,
        {
            let ghost i0 = i;
            let ghost acc0 = acc;
            let ghost zero0 = zero;
            let ghost ns = self.bdd@;
            let ghost old_bdd = self.bdd;
            i = i - 1;
            let bit = bits[i];
            let lo: usize = if bit.x0 {
                acc
            } else {
                zero
            };
            let hi: usize = if bit.x1 {
                acc
            } else {
                zero
            };
            acc = self.bdd.mk(lo, hi);
            let ghost ns1 = self.bdd@;
            proof {
                old_bdd.lemma_wf();
                lemma_ext_depth(ns, ns1, zero);
                lemma_ext_depth(ns, ns1, lo);
                lemma_ext_depth(ns, ns1, hi);
            }
            let ghost mid_bdd = self.bdd;
            zero = self.bdd.mk(zero, zero);
            let ghost ns2 = self.bdd@;
            proof {
                mid_bdd.lemma_wf();
                lemma_ext_depth(ns1, ns2, acc);
                assert(ns2[acc as int] == (lo, hi));
                assert forall|b: Seq<bool>|
                    #![trigger sem(ns2, zero, b)]
                    b.len() == bits@.len() - i implies !sem(ns2, zero, b) by {
                    lemma_ext_sem(ns, ns2, zero0, b.drop_first());
                    assert(!sem(ns, zero0, b.drop_first()));
                }
                assert forall|b: Seq<bool>|
                    #![trigger sem(ns2, acc, b)]
                    b.len() == bits@.len() - i implies (sem(ns2, acc, b) <==> forall|j: int|
                    i <= j < bits@.len() ==> (#[trigger] bits@[j]).allows(b[j - i])) by {
                    let t = b.drop_first();
                    lemma_ext_sem(ns, ns2, zero0, t);
                    lemma_ext_sem(ns, ns2, acc0, t);
                    assert(!sem(ns, zero0, t));
                    assert(sem(ns2, acc, b) == (bits@[i as int].allows(b[0]) && sem(ns, acc0, t)));
                    if sem(ns2, acc, b) {
                        assert forall|j: int| i <= j < bits@.len() implies (
                        #[trigger] bits@[j]).allows(b[j - i]) by {
                            if j > i {
                                assert(bits@[j].allows(t[j - i0]));
                            }
                        }
                    } else if bits@[i as int].allows(b[0]) {
                        let j = choose|j: int|
                            i0 <= j < bits@.len() && !(#[trigger] bits@[j]).allows(t[j - i0]);
                        assert(!bits@[j].allows(b[j - i]));
                    }
                }
            }
        }
        proof {
            self.lemma_extends(old(self));
        }
        SP(acc)
    }

    /// The set that holds `packet` alone.
    pub fn singleton(&mut self, packet: &[bool]) -> (r: SP)
        requires
            old(self).wf(),
            packet@.len() == old(self).n(),
        ensures
            final(self).wf(),
            final(self).extends(old(self)),
            final(self).has(r),
            forall|p: Pkt|
                #![trigger final(self).mem(r, p)]
                p.len() == old(self).n() ==> (final(self).mem(r, p) <==> p == packet@),
    {
        let mut bits: Vec<Bit> = Vec::new();
        let mut i: usize = 0;
        while i < packet.len()
            invariant
                0 <= i <= packet@.len(),
                bits@.len() == i,
                forall|j: int|
                    #![trigger bits@[j]]
                    0 <= j < i ==> bits@[j] == (Bit { x0: !packet@[j], x1: packet@[j] }),
            decreases packet.len() - i,
        {
            bits.push(Bit { x0: !packet[i], x1: packet[i] });
            i = i + 1;
        }
        let r = self.product(&bits);
        proof {
            assert forall|p: Pkt|
                #![trigger self.mem(r, p)]
                p.len() == old(self).n() implies (self.mem(r, p) <==> p == packet@) by {
                if self.mem(r, p) {
                    assert forall|j: int| 0 <= j < p.len() implies p[j] == packet@[j] by {
                        assert(bits@[j].allows(p[j]));
                    }
                    assert(p =~= packet@);
                }
            }
        }
        r
    }

    /// Some packet of a set that is not empty.
    pub fn any_packet(&self, a: SP) -> (p: Vec<bool>)
        requires
            self.wf(),
            self.has(a),
            a != self.zero,
        ensures
            p@.len() == self.n(),
            self.mem(a, p@),
    {
        let choices: Vec<bool> = vec![false; self.num_vars as usize];
        assert forall|b: Seq<bool>|
            #![trigger sem(self.bdd@, self.zero.0, b)]
            b.len() == depth(self.bdd@, self.zero.0) implies !sem(self.bdd@, self.zero.0, b) by {
            assert(!self.mem(self.zero, b));
        }
        follow(&self.bdd, a.0, self.zero.0, &choices)
    }

    /// The packet of `a` that is nearest to `choices`: at every field the chosen
    /// value is taken if some packet of `a` still has it.
    pub fn packet_by(&self, a: SP, choices: &Vec<bool>) -> (p: Vec<bool>)
        requires
            self.wf(),
            self.has(a),
            a != self.zero,
            choices@.len() == self.n(),
        ensures
            p@.len() == self.n(),
            self.mem(a, p@),
    {
        assert forall|b: Seq<bool>|
            #![trigger sem(self.bdd@, self.zero.0, b)]
            b.len() == depth(self.bdd@, self.zero.0) implies !sem(self.bdd@, self.zero.0, b) by {
            assert(!self.mem(self.zero, b));
        }
        follow(&self.bdd, a.0, self.zero.0, choices)
    }
}


// ---- sets of shorter packets -----------------------------------------------------------

impl SPstore {
    /// `a` is a set of packets with `k` fields.
    pub closed spec fn has_at(&self, k: nat, a: SP) -> bool {
        is_node(self.bdd@, a.0, k)
    }

    /// The set `a` of packets with `p.len()` fields has `p`.
    pub closed spec fn mem_at(&self, a: SP, p: Pkt) -> bool {
        sem(self.bdd@, a.0, p)
    }

    /// A set of the store is one of packets with all of the fields.
    pub proof fn lemma_at(&self, a: SP)
        ensures
            self.has(a) == self.has_at(self.n(), a),
            forall|p: Pkt|
                #![trigger self.mem(a, p)]
                #![trigger self.mem_at(a, p)]
                self.mem(a, p) == self.mem_at(a, p),
    {
    }

    /// A set is one of packets with one number of fields only.
    pub proof fn lemma_level(&self, a: SP, j: nat, k: nat)
        requires
            self.has_at(j, a),
            self.has_at(k, a),
        ensures
            j == k,
    {
    }

    /// The packets without their first field: of those that have it unset, and of
    /// those that have it set.
    pub fn halves(&self, a: SP, Ghost(k): Ghost<nat>) -> (r: (SP, SP))
        requires
            self.wf(),
            self.has_at(k, a),
            k > 0,
        ensures
            self.has_at((k - 1) as nat, r.0),
            self.has_at((k - 1) as nat, r.1),
            forall|p: Pkt|
                #![trigger self.mem_at(a, p)]
                p.len() == k ==> self.mem_at(a, p) == self.mem_at(
                    if p[0] {
                        r.1
                    } else {
                        r.0
                    },
                    p.drop_first(),
                ),
    {
        proof {
            self.bdd.lemma_wf();
            lemma_children(self.bdd@, a.0);
        }
        let (x0, x1) = self.bdd.get(a.0);
        (SP(x0), SP(x1))
    }

    /// Whether a set of packets without fields has the one there is.
    pub fn leaf_value(&self, a: SP) -> (b: bool)
        requires
            self.wf(),
            self.has_at(0, a),
        ensures
            forall|p: Pkt|
                #![trigger self.mem_at(a, p)]
                p.len() == 0 ==> self.mem_at(a, p) == b,
    {
        proof {
            self.bdd.lemma_wf();
            lemma_children(self.bdd@, a.0);
        }
        a.0 == 1
    }
}

} // verus!
