//! Candidates that record packets.
//!
//! A candidate over a deterministic automaton is a predicate on the packet that
//! enters, the first packet that is recorded, the states that the automaton is in
//! after the recorded packets for each state to begin with, the last packet that is
//! recorded and the packet that leaves.  It is a decision diagram.
use vstd::prelude::*;
use crate::aut::{copy_states, same_states, sorted_states};
use crate::holes::aut::{
    enfa_lang, lemma_listed_push, lemma_nfa_word, listed, models, nfa_word, StateKey, DFA, ENFA,
    NFA,
};
use crate::holes::explicit::ExplicitDFA;
use crate::holes::learner::{
    branch, branches, fold_relations, folded, fours, lemma_branches_first, lemma_branches_same,
    push_branches, ConflictError,
};
use crate::holes::ops::{part_steps, Exponential};
use crate::holes::trie::{
    conflicting, exampled, generalize, merged, path_ok, told, Known, Layers,
};
use crate::lang::{is_word, Word};
use crate::sp::Pkt;
use crate::spp::{chosen, SPPstore, SPP};

verus! {

/// The index of a node of a candidate.
pub type CandIdx = usize;

/// A node of a candidate.
#[derive(Debug)]
pub enum CandNode {
    /// Reads the next field of the packet that enters and of the first recorded
    /// one.
    NextField { b00: CandIdx, b01: CandIdx, b10: CandIdx, b11: CandIdx },
    /// Reads the next state.
    NextState(Vec<CandIdx>),
    /// A predicate on the last recorded packet and the packet that leaves.
    Root(SPP),
}

/// A node as a mathematical value.
pub enum Choice {
    Field(CandIdx, CandIdx, CandIdx, CandIdx),
    State(Seq<CandIdx>),
    Root(SPP),
}

impl View for CandNode {
    type V = Choice;

    open spec fn view(&self) -> Choice {
        match *self {
            CandNode::NextField { b00, b01, b10, b11 } => Choice::Field(b00, b01, b10, b11),
            CandNode::NextState(v) => Choice::State(v@),
            CandNode::Root(s) => Choice::Root(s),
        }
    }
}

impl CandNode {
    fn is(&self, o: &CandNode) -> (r: bool)
        ensures
            r == (self@ == o@),
    {
        match (self, o) {
            (
                CandNode::NextField { b00, b01, b10, b11 },
                CandNode::NextField { b00: c00, b01: c01, b10: c10, b11: c11 },
            ) => *b00 == *c00 && *b01 == *c01 && *b10 == *c10 && *b11 == *c11,
            (CandNode::NextState(a), CandNode::NextState(b)) => same_states(a, b),
            (CandNode::Root(a), CandNode::Root(b)) => *a == *b,
            _ => false,
        }
    }

    fn copy(&self) -> (r: CandNode)
        ensures
            r@ == self@,
    {
        match self {
            CandNode::NextField { b00, b01, b10, b11 } => CandNode::NextField {
                b00: *b00,
                b01: *b01,
                b10: *b10,
                b11: *b11,
            },
            CandNode::NextState(v) => CandNode::NextState(copy_states(v)),
            CandNode::Root(s) => CandNode::Root(*s),
        }
    }
}

/// What a candidate is asked about.
#[derive(Debug)]
pub struct Input {
    pub pkt_in: Vec<bool>,
    pub pkt_start: Vec<bool>,
    pub states: Vec<usize>,
    pub pkt_end: Vec<bool>,
    pub pkt_out: Vec<bool>,
}

/// The input is one for packets of `n` fields and an automaton with `k` states.
pub open spec fn input_ok(x: Input, n: nat, k: nat) -> bool {
    &&& x.pkt_in@.len() == n
    &&& x.pkt_start@.len() == n
    &&& x.pkt_end@.len() == n
    &&& x.pkt_out@.len() == n
    &&& x.states@.len() == k
    &&& forall|i: int| 0 <= i < x.states@.len() ==> #[trigger] x.states@[i] < k
}

/// The inputs ask the same.
pub open spec fn same_input(x: Input, y: Input) -> bool {
    &&& x.pkt_in@ == y.pkt_in@
    &&& x.pkt_start@ == y.pkt_start@
    &&& x.states@ == y.states@
    &&& x.pkt_end@ == y.pkt_end@
    &&& x.pkt_out@ == y.pkt_out@
}

// ---- decision diagrams ---------------------------------------------------------------------

/// Node `i` reads `f` fields and then `s` states, of `k` each.
pub open spec fn shape(ns: Seq<Choice>, i: CandIdx, f: nat, s: nat, k: nat) -> bool
    decreases f + s,
{
    i < ns.len() && if f > 0 {
        match ns[i as int] {
            Choice::Field(a, b, c, d) => {
                &&& shape(ns, a, (f - 1) as nat, s, k)
                &&& shape(ns, b, (f - 1) as nat, s, k)
                &&& shape(ns, c, (f - 1) as nat, s, k)
                &&& shape(ns, d, (f - 1) as nat, s, k)
            },
            _ => false,
        }
    } else if s > 0 {
        match ns[i as int] {
            Choice::State(v) => v.len() == k && forall|j: int|
                0 <= j < v.len() ==> shape(ns, #[trigger] v[j], 0, (s - 1) as nat, k),
            _ => false,
        }
    } else {
        ns[i as int] is Root
    }
}

/// The branch of a field node for a pair of bits.
pub open spec fn field_child(c: Choice, x: bool, y: bool) -> CandIdx {
    match c {
        Choice::Field(a, b, c, d) => chosen(a, b, c, d, x, y),
        _ => 0,
    }
}

/// The node that the fields of `p` and `q` lead to.
pub open spec fn field_at(ns: Seq<Choice>, i: CandIdx, p: Pkt, q: Pkt) -> CandIdx
    decreases p.len(),
{
    if p.len() == 0 {
        i
    } else {
        field_at(ns, field_child(ns[i as int], p[0], q[0]), p.drop_first(), q.drop_first())
    }
}

/// The branch of a state node.
pub open spec fn state_child(c: Choice, x: usize) -> CandIdx {
    match c {
        Choice::State(v) => v[x as int],
        _ => 0,
    }
}

/// The node that the states lead to.
pub open spec fn state_at(ns: Seq<Choice>, i: CandIdx, v: Seq<usize>) -> CandIdx
    decreases v.len(),
{
    if v.len() == 0 {
        i
    } else {
        state_at(ns, state_child(ns[i as int], v[0]), v.skip(1))
    }
}

/// The relation at a node.
pub open spec fn root_at(ns: Seq<Choice>, i: CandIdx) -> SPP {
    ns[i as int]->Root_0
}

/// What a diagram says.
pub open spec fn says(
    st: SPPstore,
    ns: Seq<Choice>,
    i: CandIdx,
    p: Pkt,
    q: Pkt,
    v: Seq<usize>,
    r: Pkt,
    s: Pkt,
) -> bool {
    st.rel(root_at(ns, state_at(ns, field_at(ns, i, p, q), v)), r, s)
}

/// The nodes that node `i` leads to come before it, and its relation is one of the
/// store.
pub open spec fn node_ok(st: SPPstore, ns: Seq<Choice>, i: int) -> bool {
    match ns[i] {
        Choice::Field(a, b, c, d) => a < i && b < i && c < i && d < i,
        Choice::State(v) => forall|j: int| 0 <= j < v.len() ==> #[trigger] v[j] < i,
        Choice::Root(s) => st.has(s),
    }
}

/// Node `i` reads fields and then states, all of them.
pub open spec fn shaped(ns: Seq<Choice>, i: CandIdx, k: nat) -> bool {
    exists|f: nat, s: nat| #[trigger] shape(ns, i, f, s, k)
}

/// The nodes are well formed.
pub open spec fn nodes_ok(st: SPPstore, ns: Seq<Choice>, k: nat) -> bool {
    &&& forall|i: int| 0 <= i < ns.len() ==> #[trigger] node_ok(st, ns, i)
    &&& forall|i: CandIdx| i < ns.len() ==> #[trigger] shaped(ns, i, k)
}

/// `b` is `a` with nodes added at the end.
pub open spec fn nodes_ext(a: Seq<Choice>, b: Seq<Choice>) -> bool {
    &&& a.len() <= b.len()
    &&& forall|i: int| 0 <= i < a.len() ==> a[i] == #[trigger] b[i]
}

proof fn lemma_shape_ext(a: Seq<Choice>, b: Seq<Choice>, i: CandIdx, f: nat, s: nat, k: nat)
    requires
        nodes_ext(a, b),
        shape(a, i, f, s, k),
    ensures
        shape(b, i, f, s, k),
    decreases f + s,
{
    assert(a[i as int] == b[i as int]);
    if f > 0 {
        match a[i as int] {
            Choice::Field(x, y, z, t) => {
                lemma_shape_ext(a, b, x, (f - 1) as nat, s, k);
                lemma_shape_ext(a, b, y, (f - 1) as nat, s, k);
                lemma_shape_ext(a, b, z, (f - 1) as nat, s, k);
                lemma_shape_ext(a, b, t, (f - 1) as nat, s, k);
            },
            _ => {},
        }
    } else if s > 0 {
        match a[i as int] {
            Choice::State(v) => {
                assert forall|j: int| 0 <= j < v.len() implies shape(
                    b,
                    #[trigger] v[j],
                    0,
                    (s - 1) as nat,
                    k,
                ) by {
                    lemma_shape_ext(a, b, v[j], 0, (s - 1) as nat, k);
                }
            },
            _ => {},
        }
    }
}

/// The fields lead to a node that reads the states.
proof fn lemma_field_at(ns: Seq<Choice>, i: CandIdx, s: nat, k: nat, p: Pkt, q: Pkt)
    requires
        shape(ns, i, p.len(), s, k),
        p.len() == q.len(),
    ensures
        shape(ns, field_at(ns, i, p, q), 0, s, k),
    decreases p.len(),
{
    if p.len() > 0 {
        lemma_field_at(
            ns,
            field_child(ns[i as int], p[0], q[0]),
            s,
            k,
            p.drop_first(),
            q.drop_first(),
        );
    }
}

/// The states lead to a relation.
proof fn lemma_state_at(ns: Seq<Choice>, i: CandIdx, k: nat, v: Seq<usize>)
    requires
        shape(ns, i, 0, v.len(), k),
        forall|j: int| 0 <= j < v.len() ==> #[trigger] v[j] < k,
    ensures
        shape(ns, state_at(ns, i, v), 0, 0, k),
    decreases v.len(),
{
    if v.len() > 0 {
        let u = v.skip(1);
        assert(v[0] < k);
        assert forall|j: int| 0 <= j < u.len() implies #[trigger] u[j] < k by {
            assert(u[j] == v[j + 1]);
        }
        match ns[i as int] {
            Choice::State(c) => {
                assert(shape(ns, c[v[0] as int], 0, (v.len() - 1) as nat, k));
            },
            _ => {},
        }
        lemma_state_at(ns, state_child(ns[i as int], v[0]), k, u);
    }
}

proof fn lemma_field_ext(
    a: Seq<Choice>,
    b: Seq<Choice>,
    i: CandIdx,
    s: nat,
    k: nat,
    p: Pkt,
    q: Pkt,
)
    requires
        nodes_ext(a, b),
        shape(a, i, p.len(), s, k),
        p.len() == q.len(),
    ensures
        field_at(a, i, p, q) == field_at(b, i, p, q),
    decreases p.len(),
{
    if p.len() > 0 {
        assert(a[i as int] == b[i as int]);
        lemma_field_ext(
            a,
            b,
            field_child(a[i as int], p[0], q[0]),
            s,
            k,
            p.drop_first(),
            q.drop_first(),
        );
    }
}

proof fn lemma_state_ext(a: Seq<Choice>, b: Seq<Choice>, i: CandIdx, k: nat, v: Seq<usize>)
    requires
        nodes_ext(a, b),
        shape(a, i, 0, v.len(), k),
        forall|j: int| 0 <= j < v.len() ==> #[trigger] v[j] < k,
    ensures
        state_at(a, i, v) == state_at(b, i, v),
    decreases v.len(),
{
    if v.len() > 0 {
        let u = v.skip(1);
        assert(a[i as int] == b[i as int]);
        assert(v[0] < k);
        assert forall|j: int| 0 <= j < u.len() implies #[trigger] u[j] < k by {
            assert(u[j] == v[j + 1]);
        }
        match a[i as int] {
            Choice::State(c) => {
                assert(shape(a, c[v[0] as int], 0, (v.len() - 1) as nat, k));
            },
            _ => {},
        }
        lemma_state_ext(a, b, state_child(a[i as int], v[0]), k, u);
    }
}

/// What a node says is kept when nodes and relations are added.
proof fn lemma_says_ext(
    st: SPPstore,
    st2: SPPstore,
    a: Seq<Choice>,
    b: Seq<Choice>,
    i: CandIdx,
    k: nat,
    p: Pkt,
    q: Pkt,
    v: Seq<usize>,
    r: Pkt,
    s: Pkt,
)
    requires
        nodes_ext(a, b),
        nodes_ok(st, a, k),
        st2.extends(&st),
        shape(a, i, p.len(), v.len(), k),
        p.len() == q.len(),
        forall|j: int| 0 <= j < v.len() ==> #[trigger] v[j] < k,
        r.len() == st.n(),
        s.len() == st.n(),
    ensures
        says(st2, b, i, p, q, v, r, s) == says(st, a, i, p, q, v, r, s),
{
    lemma_field_ext(a, b, i, v.len(), k, p, q);
    lemma_field_at(a, i, v.len(), k, p, q);
    let m = field_at(a, i, p, q);
    lemma_state_ext(a, b, m, k, v);
    lemma_state_at(a, m, k, v);
    let z = state_at(a, m, v);
    assert(a[z as int] == b[z as int]);
    assert(node_ok(st, a, z as int));
    assert(st.has(root_at(a, z)));
}

/// The node, added to `a`, reads `f` fields and then `s` states.
spec fn takes_shape(a: Seq<Choice>, c: Choice, f: nat, s: nat, k: nat) -> bool {
    forall|b: Seq<Choice>, i: CandIdx|
        #![trigger shape(b, i, f, s, k)]
        nodes_ext(a, b) && i < b.len() && b[i as int] == c ==> shape(b, i, f, s, k)
}

/// Nodes, each of them once.
pub struct Builder {
    nodes: Vec<CandNode>,
}

impl Builder {
    pub closed spec fn view(&self) -> Seq<Choice> {
        self.nodes@.map_values(|c: CandNode| c@)
    }

    fn new() -> (b: Builder)
        ensures
            b@.len() == 0,
    {
        let b = Builder { nodes: Vec::new() };
        assert(b@.len() == 0);
        b
    }

    /// The index of a node: where it stands already, or a new one.
    fn mk(
        &mut self,
        node: CandNode,
        Ghost(st): Ghost<SPPstore>,
        Ghost(k): Ghost<nat>,
        Ghost(f): Ghost<nat>,
        Ghost(s): Ghost<nat>,
    ) -> (r: CandIdx)
        requires
            nodes_ok(st, old(self)@, k),
            node_ok(st, old(self)@.push(node@), old(self)@.len() as int),
            takes_shape(old(self)@, node@, f, s, k),
        ensures
            nodes_ok(st, final(self)@, k),
            nodes_ext(old(self)@, final(self)@),
            r < final(self)@.len(),
            final(self)@[r as int] == node@,
            shape(final(self)@, r, f, s, k),
    {
        let ghost a = self@;
        let mut i: usize = 0;
        while i < self.nodes.len()
            invariant
                *self == *old(self),
                a == self@,
                nodes_ok(st, a, k),
                takes_shape(a, node@, f, s, k),
                i <= self.nodes@.len(),
            decreases self.nodes.len() - i,
        {
            if self.nodes[i].is(&node) {
                assert(self@[i as int] == node@);
                return i;
            }
            i = i + 1;
        }
        let id: usize = self.nodes.len();
        let ghost e = node@;
        self.nodes.push(node);
        proof {
            let b = self@;
            assert(b =~= a.push(e));
            assert(a.len() == id);
            assert forall|j: int| 0 <= j < b.len() implies #[trigger] node_ok(st, b, j) by {
                if j < a.len() {
                    assert(node_ok(st, a, j));
                    assert(a[j] == b[j]);
                }
            }
            assert forall|j: CandIdx| j < b.len() implies #[trigger] shaped(b, j, k) by {
                if j < a.len() {
                    assert(shaped(a, j, k));
                    let (f1, s1) = choose|f1: nat, s1: nat| #[trigger] shape(a, j, f1, s1, k);
                    lemma_shape_ext(a, b, j, f1, s1, k);
                } else {
                    assert(shape(b, j, f, s, k));
                }
            }
        }
        id
    }

    /// The node of a relation.
    fn mk_root(&mut self, s: SPP, Ghost(st): Ghost<SPPstore>, Ghost(k): Ghost<nat>) -> (r: CandIdx)
        requires
            nodes_ok(st, old(self)@, k),
            st.has(s),
        ensures
            nodes_ok(st, final(self)@, k),
            nodes_ext(old(self)@, final(self)@),
            shape(final(self)@, r, 0, 0, k),
            forall|p: Pkt, q: Pkt, x: Pkt, y: Pkt, v: Seq<usize>|
                #![trigger says(st, final(self)@, r, p, q, v, x, y)]
                p.len() == 0 && v.len() == 0 ==> says(st, final(self)@, r, p, q, v, x, y)
                    == st.rel(s, x, y),
    {
        self.mk(CandNode::Root(s), Ghost(st), Ghost(k), Ghost(0), Ghost(0))
    }

    /// The node that reads a state.
    fn mk_state(
        &mut self,
        row: Vec<CandIdx>,
        Ghost(st): Ghost<SPPstore>,
        Ghost(k): Ghost<nat>,
        Ghost(s): Ghost<nat>,
    ) -> (r: CandIdx)
        requires
            nodes_ok(st, old(self)@, k),
            row@.len() == k,
            forall|j: int| 0 <= j < k ==> shape(old(self)@, #[trigger] row@[j], 0, s, k),
        ensures
            nodes_ok(st, final(self)@, k),
            nodes_ext(old(self)@, final(self)@),
            shape(final(self)@, r, 0, s + 1, k),
            final(self)@[r as int] == Choice::State(row@),
    {
        let ghost a = self@;
        let ghost v = row@;
        proof {
            assert forall|b: Seq<Choice>, i: CandIdx|
                #![trigger shape(b, i, 0, s + 1, k)]
                nodes_ext(a, b) && i < b.len() && b[i as int] == Choice::State(v) implies shape(
                b,
                i,
                0,
                s + 1,
                k,
            ) by {
                assert forall|j: int| 0 <= j < v.len() implies shape(
                    b,
                    #[trigger] v[j],
                    0,
                    ((s + 1) - 1) as nat,
                    k,
                ) by {
                    lemma_shape_ext(a, b, v[j], 0, s, k);
                }
            }
            assert forall|j: int| 0 <= j < v.len() implies #[trigger] v[j] < a.len() by {
                assert(shape(a, v[j], 0, s, k));
            }
            assert(node_ok(st, a.push(Choice::State(v)), a.len() as int));
        }
        self.mk(CandNode::NextState(row), Ghost(st), Ghost(k), Ghost(0), Ghost(s + 1))
    }

    /// The node that reads a field.
    fn mk_field(
        &mut self,
        b00: CandIdx,
        b01: CandIdx,
        b10: CandIdx,
        b11: CandIdx,
        Ghost(st): Ghost<SPPstore>,
        Ghost(k): Ghost<nat>,
        Ghost(f): Ghost<nat>,
        Ghost(s): Ghost<nat>,
    ) -> (r: CandIdx)
        requires
            nodes_ok(st, old(self)@, k),
            shape(old(self)@, b00, f, s, k),
            shape(old(self)@, b01, f, s, k),
            shape(old(self)@, b10, f, s, k),
            shape(old(self)@, b11, f, s, k),
        ensures
            nodes_ok(st, final(self)@, k),
            nodes_ext(old(self)@, final(self)@),
            shape(final(self)@, r, f + 1, s, k),
            final(self)@[r as int] == Choice::Field(b00, b01, b10, b11),
    {
        let ghost a = self@;
        let ghost c = Choice::Field(b00, b01, b10, b11);
        proof {
            assert(((f + 1) - 1) as nat == f);
            assert forall|b: Seq<Choice>, i: CandIdx|
                #![trigger shape(b, i, f + 1, s, k)]
                nodes_ext(a, b) && i < b.len() && b[i as int] == c implies shape(
                b,
                i,
                f + 1,
                s,
                k,
            ) by {
                lemma_shape_ext(a, b, b00, f, s, k);
                lemma_shape_ext(a, b, b01, f, s, k);
                lemma_shape_ext(a, b, b10, f, s, k);
                lemma_shape_ext(a, b, b11, f, s, k);
            }
            assert(node_ok(st, a.push(c), a.len() as int));
        }
        self.mk(
            CandNode::NextField { b00, b01, b10, b11 },
            Ghost(st),
            Ghost(k),
            Ghost(f + 1),
            Ghost(s),
        )
    }
}


// ---- learning ---------------------------------------------------------------------------------

/// The packets and states can be read from a node that reads `f` fields and `s`
/// states.
pub open spec fn readable(
    st: SPPstore,
    k: nat,
    f: nat,
    s: nat,
    p: Pkt,
    q: Pkt,
    v: Seq<usize>,
    r: Pkt,
    t: Pkt,
) -> bool {
    &&& p.len() == f
    &&& q.len() == f
    &&& v.len() == s
    &&& forall|j: int| 0 <= j < v.len() ==> #[trigger] v[j] < k
    &&& r.len() == st.n()
    &&& t.len() == st.n()
}

/// The nodes of the list say what the classes of level `d` of the diagram say.
pub open spec fn stands_for(
    st: SPPstore,
    ns: Seq<Choice>,
    k: nat,
    l: Layers,
    d: int,
    f: nat,
    s: nat,
    cur: Seq<CandIdx>,
) -> bool {
    &&& cur.len() == l.count(d)
    &&& forall|c: int| 0 <= c < cur.len() ==> shape(ns, #[trigger] cur[c], f, s, k)
    &&& forall|c: int, p: Pkt, q: Pkt, v: Seq<usize>, r: Pkt, t: Pkt|
        #![trigger says(st, ns, cur[c], p, q, v, r, t)]
        0 <= c < cur.len() && readable(st, k, f, s, p, q, v, r, t) ==> says(
            st,
            ns,
            cur[c],
            p,
            q,
            v,
            r,
            t,
        ) == l.label(d, c, branches(p, q) + v + branches(r, t))
}

proof fn lemma_stands_ext(
    st: SPPstore,
    a: Seq<Choice>,
    b: Seq<Choice>,
    k: nat,
    l: Layers,
    d: int,
    f: nat,
    s: nat,
    cur: Seq<CandIdx>,
)
    requires
        st.extends(&st),
        nodes_ok(st, a, k),
        nodes_ext(a, b),
        stands_for(st, a, k, l, d, f, s, cur),
    ensures
        stands_for(st, b, k, l, d, f, s, cur),
{
    assert forall|c: int| 0 <= c < cur.len() implies shape(b, #[trigger] cur[c], f, s, k) by {
        lemma_shape_ext(a, b, cur[c], f, s, k);
    }
    assert forall|c: int, p: Pkt, q: Pkt, v: Seq<usize>, r: Pkt, t: Pkt|
        #![trigger says(st, b, cur[c], p, q, v, r, t)]
        0 <= c < cur.len() && readable(st, k, f, s, p, q, v, r, t) implies says(
        st,
        b,
        cur[c],
        p,
        q,
        v,
        r,
        t,
    ) == l.label(d, c, branches(p, q) + v + branches(r, t)) by {
        assert(shape(a, cur[c], f, s, k));
        lemma_says_ext(st, st, a, b, cur[c], k, p, q, v, r, t);
        assert(says(st, a, cur[c], p, q, v, r, t) == l.label(
            d,
            c,
            branches(p, q) + v + branches(r, t),
        ));
    }
}

/// The nodes of the relations.
fn fold_roots(
    builder: &mut Builder,
    l: &Layers,
    spps: &Vec<SPP>,
    Ghost(st): Ghost<SPPstore>,
    Ghost(k): Ghost<nat>,
    Ghost(d): Ghost<int>,
) -> (cur: Vec<CandIdx>)
    requires
        st.wf(),
        nodes_ok(st, old(builder)@, k),
        l.rows@.len() - d == st.n(),
        folded(st, *l, d, spps@),
    ensures
        nodes_ok(st, final(builder)@, k),
        nodes_ext(old(builder)@, final(builder)@),
        stands_for(st, final(builder)@, k, *l, d, 0, 0, cur@),
{
    let ghost b0 = builder@;
    let mut cur: Vec<CandIdx> = Vec::new();
    let mut c: usize = 0;
    proof {
        st.lemma_wf();
    }
    while c < spps.len()
        invariant
            st.wf(),
            st.extends(&st),
            nodes_ok(st, builder@, k),
            nodes_ext(b0, builder@),
            l.rows@.len() - d == st.n(),
            folded(st, *l, d, spps@),
            c <= spps@.len(),
            cur@.len() == c,
            forall|j: int| 0 <= j < c ==> shape(builder@, #[trigger] cur@[j], 0, 0, k),
            forall|j: int, p: Pkt, q: Pkt, v: Seq<usize>, r: Pkt, t: Pkt|
                #![trigger says(st, builder@, cur@[j], p, q, v, r, t)]
                0 <= j < c && readable(st, k, 0, 0, p, q, v, r, t) ==> says(
                    st,
                    builder@,
                    cur@[j],
                    p,
                    q,
                    v,
                    r,
                    t,
                ) == st.rel(spps@[j], r, t),
        decreases spps.len() - c,
    {
        let ghost b1 = builder@;
        let ghost cur1 = cur@;
        proof {
            st.lemma_at(spps@[c as int]);
            assert(st.has_at(st.n(), spps@[c as int]));
        }
        let x = builder.mk_root(spps[c], Ghost(st), Ghost(k));
        cur.push(x);
        proof {
            assert forall|j: int| 0 <= j < c + 1 implies shape(
                builder@,
                #[trigger] cur@[j],
                0,
                0,
                k,
            ) by {
                if j < c {
                    assert(cur@[j] == cur1[j]);
                    lemma_shape_ext(b1, builder@, cur1[j], 0, 0, k);
                }
            }
            assert forall|j: int, p: Pkt, q: Pkt, v: Seq<usize>, r: Pkt, t: Pkt|
                #![trigger says(st, builder@, cur@[j], p, q, v, r, t)]
                0 <= j < c + 1 && readable(st, k, 0, 0, p, q, v, r, t) implies says(
                st,
                builder@,
                cur@[j],
                p,
                q,
                v,
                r,
                t,
            ) == st.rel(spps@[j], r, t) by {
                if j < c {
                    assert(cur@[j] == cur1[j]);
                    assert(shape(b1, cur1[j], 0, 0, k));
                    lemma_says_ext(st, st, b1, builder@, cur1[j], k, p, q, v, r, t);
                    assert(says(st, b1, cur1[j], p, q, v, r, t) == st.rel(spps@[j], r, t));
                }
            }
        }
        c = c + 1;
    }
    proof {
        assert forall|j: int, p: Pkt, q: Pkt, v: Seq<usize>, r: Pkt, t: Pkt|
            #![trigger says(st, builder@, cur@[j], p, q, v, r, t)]
            0 <= j < cur@.len() && readable(st, k, 0, 0, p, q, v, r, t) implies says(
            st,
            builder@,
            cur@[j],
            p,
            q,
            v,
            r,
            t,
        ) == l.label(d, j, branches(p, q) + v + branches(r, t)) by {
            assert(branches(p, q) + v + branches(r, t) =~= branches(r, t));
            st.lemma_at(spps@[j]);
            assert(st.rel_at(spps@[j], r, t) == l.label(d, j, branches(r, t)));
        }
    }
    cur
}

/// The entries of the list at the indices of a row.
fn picked(cur: &Vec<CandIdx>, row: &Vec<usize>) -> (r: Vec<CandIdx>)
    requires
        forall|i: int| 0 <= i < row@.len() ==> #[trigger] row@[i] < cur@.len(),
    ensures
        r@.len() == row@.len(),
        forall|i: int| 0 <= i < row@.len() ==> #[trigger] r@[i] == cur@[row@[i] as int],
{
    let mut r: Vec<CandIdx> = Vec::new();
    let mut i: usize = 0;
    while i < row.len()
        invariant
            i <= row@.len(),
            forall|j: int| 0 <= j < row@.len() ==> #[trigger] row@[j] < cur@.len(),
            r@.len() == i,
            forall|j: int| 0 <= j < i ==> #[trigger] r@[j] == cur@[row@[j] as int],
        decreases row.len() - i,
    {
        assert(row@[i as int] < cur@.len());
        r.push(cur[row[i]]);
        i = i + 1;
    }
    r
}

/// What is left of a path after the decision on a state.
proof fn lemma_path_state(v: Seq<usize>, p: Pkt, q: Pkt, r: Pkt, t: Pkt)
    requires
        p.len() == 0,
        v.len() > 0,
    ensures
        (branches(p, q) + v + branches(r, t))[0] == v[0],
        (branches(p, q) + v + branches(r, t)).skip(1) == branches(p, q) + v.skip(1) + branches(
            r,
            t,
        ),
{
    let a = branches(p, q) + v + branches(r, t);
    assert(a.skip(1) =~= branches(p, q) + v.skip(1) + branches(r, t));
}

/// What is left of a path after the decision on a field.
proof fn lemma_path_field(v: Seq<usize>, p: Pkt, q: Pkt, r: Pkt, t: Pkt)
    requires
        p.len() > 0,
        p.len() == q.len(),
    ensures
        (branches(p, q) + v + branches(r, t))[0] == branch(p[0], q[0]),
        (branches(p, q) + v + branches(r, t)).skip(1) == branches(p.drop_first(), q.drop_first())
            + v + branches(r, t),
{
    lemma_branches_first(p, q);
    let a = branches(p, q) + v + branches(r, t);
    assert(a.skip(1) =~= branches(p, q).skip(1) + v + branches(r, t));
}

/// The nodes of a level that reads a state.
fn fold_states(
    builder: &mut Builder,
    l: &Layers,
    d: usize,
    cur: &Vec<CandIdx>,
    Ghost(st): Ghost<SPPstore>,
    Ghost(k): Ghost<nat>,
    Ghost(s): Ghost<nat>,
    Ghost(ws): Ghost<Seq<usize>>,
) -> (next: Vec<CandIdx>)
    requires
        st.wf(),
        l.wf(ws),
        d < ws.len(),
        ws[d as int] == k,
        nodes_ok(st, old(builder)@, k),
        stands_for(st, old(builder)@, k, *l, d + 1, 0, s, cur@),
    ensures
        nodes_ok(st, final(builder)@, k),
        nodes_ext(old(builder)@, final(builder)@),
        stands_for(st, final(builder)@, k, *l, d as int, 0, s + 1, next@),
{
    let ghost b0 = builder@;
    let mut next: Vec<CandIdx> = Vec::new();
    let mut c: usize = 0;
    proof {
        st.lemma_wf();
    }
    while c < l.rows[d].len()
        invariant
            st.wf(),
            st.extends(&st),
            l.wf(ws),
            d < ws.len(),
            ws[d as int] == k,
            nodes_ok(st, builder@, k),
            nodes_ext(b0, builder@),
            stands_for(st, builder@, k, *l, d + 1, 0, s, cur@),
            c <= l.rows@[d as int]@.len(),
            next@.len() == c,
            forall|j: int| 0 <= j < c ==> shape(builder@, #[trigger] next@[j], 0, s + 1, k),
            forall|j: int, p: Pkt, q: Pkt, v: Seq<usize>, r: Pkt, t: Pkt|
                #![trigger says(st, builder@, next@[j], p, q, v, r, t)]
                0 <= j < c && readable(st, k, 0, s + 1, p, q, v, r, t) ==> says(
                    st,
                    builder@,
                    next@[j],
                    p,
                    q,
                    v,
                    r,
                    t,
                ) == l.label(d as int, j, branches(p, q) + v + branches(r, t)),
        decreases l.rows@[d as int].len() - c,
    {
        let ghost b1 = builder@;
        let ghost next1 = next@;
        proof {
            assert(l.row_wf(ws, d as int, c as int));
        }
        let ghost row0 = l.rows@[d as int]@[c as int]@;
        let row = picked(cur, &l.rows[d][c]);
        let ghost row1 = row@;
        proof {
            assert forall|j: int| 0 <= j < k implies shape(b1, #[trigger] row1[j], 0, s, k) by {
                assert(row1[j] == cur@[row0[j] as int]);
            }
        }
        let x = builder.mk_state(row, Ghost(st), Ghost(k), Ghost(s));
        next.push(x);
        proof {
            let b2 = builder@;
            lemma_stands_ext(st, b1, b2, k, *l, d + 1, 0, s, cur@);
            assert forall|j: int| 0 <= j < c + 1 implies shape(
                b2,
                #[trigger] next@[j],
                0,
                s + 1,
                k,
            ) by {
                if j < c {
                    assert(next@[j] == next1[j]);
                    lemma_shape_ext(b1, b2, next1[j], 0, s + 1, k);
                }
            }
            assert forall|j: int, p: Pkt, q: Pkt, v: Seq<usize>, r: Pkt, t: Pkt|
                #![trigger says(st, b2, next@[j], p, q, v, r, t)]
                0 <= j < c + 1 && readable(st, k, 0, s + 1, p, q, v, r, t) implies says(
                st,
                b2,
                next@[j],
                p,
                q,
                v,
                r,
                t,
            ) == l.label(d as int, j, branches(p, q) + v + branches(r, t)) by {
                if j < c {
                    assert(next@[j] == next1[j]);
                    assert(shape(b1, next1[j], 0, s + 1, k));
                    lemma_says_ext(st, st, b1, b2, next1[j], k, p, q, v, r, t);
                    assert(says(st, b1, next1[j], p, q, v, r, t) == l.label(
                        d as int,
                        j,
                        branches(p, q) + v + branches(r, t),
                    ));
                } else {
                    let u = v.skip(1);
                    assert(v[0] < k);
                    let z = row0[v[0] as int] as int;
                    assert(row1[v[0] as int] == cur@[z]);
                    assert(state_child(b2[x as int], v[0]) == cur@[z]);
                    assert(field_at(b2, x, p, q) == x);
                    assert(field_at(b2, cur@[z], p, q) == cur@[z]);
                    assert(says(st, b2, x, p, q, v, r, t) == says(
                        st,
                        b2,
                        cur@[z],
                        p,
                        q,
                        u,
                        r,
                        t,
                    ));
                    assert forall|i: int| 0 <= i < u.len() implies #[trigger] u[i] < k by {
                        assert(u[i] == v[i + 1]);
                    }
                    assert(readable(st, k, 0, s, p, q, u, r, t));
                    lemma_path_state(v, p, q, r, t);
                }
            }
        }
        c = c + 1;
    }
    next
}

/// The nodes of a level that reads a field.
fn fold_fields(
    builder: &mut Builder,
    l: &Layers,
    d: usize,
    cur: &Vec<CandIdx>,
    Ghost(st): Ghost<SPPstore>,
    Ghost(k): Ghost<nat>,
    Ghost(f): Ghost<nat>,
    Ghost(ws): Ghost<Seq<usize>>,
) -> (next: Vec<CandIdx>)
    requires
        st.wf(),
        l.wf(ws),
        d < ws.len(),
        ws[d as int] == 4,
        nodes_ok(st, old(builder)@, k),
        stands_for(st, old(builder)@, k, *l, d + 1, f, k, cur@),
    ensures
        nodes_ok(st, final(builder)@, k),
        nodes_ext(old(builder)@, final(builder)@),
        stands_for(st, final(builder)@, k, *l, d as int, f + 1, k, next@),
{
    let ghost b0 = builder@;
    let mut next: Vec<CandIdx> = Vec::new();
    let mut c: usize = 0;
    proof {
        st.lemma_wf();
    }
    while c < l.rows[d].len()
        invariant
            st.wf(),
            st.extends(&st),
            l.wf(ws),
            d < ws.len(),
            ws[d as int] == 4,
            nodes_ok(st, builder@, k),
            nodes_ext(b0, builder@),
            stands_for(st, builder@, k, *l, d + 1, f, k, cur@),
            c <= l.rows@[d as int]@.len(),
            next@.len() == c,
            forall|j: int| 0 <= j < c ==> shape(builder@, #[trigger] next@[j], f + 1, k, k),
            forall|j: int, p: Pkt, q: Pkt, v: Seq<usize>, r: Pkt, t: Pkt|
                #![trigger says(st, builder@, next@[j], p, q, v, r, t)]
                0 <= j < c && readable(st, k, f + 1, k, p, q, v, r, t) ==> says(
                    st,
                    builder@,
                    next@[j],
                    p,
                    q,
                    v,
                    r,
                    t,
                ) == l.label(d as int, j, branches(p, q) + v + branches(r, t)),
        decreases l.rows@[d as int].len() - c,
    {
        let ghost b1 = builder@;
        let ghost next1 = next@;
        proof {
            assert(l.row_wf(ws, d as int, c as int));
        }
        let ghost row0 = l.rows@[d as int]@[c as int]@;
        let row = picked(cur, &l.rows[d][c]);
        proof {
            assert(row@[0] == cur@[row0[0] as int]);
            assert(row@[1] == cur@[row0[1] as int]);
            assert(row@[2] == cur@[row0[2] as int]);
            assert(row@[3] == cur@[row0[3] as int]);
        }
        let x = builder.mk_field(
            row[0],
            row[1],
            row[2],
            row[3],
            Ghost(st),
            Ghost(k),
            Ghost(f),
            Ghost(k),
        );
        next.push(x);
        proof {
            let b2 = builder@;
            lemma_stands_ext(st, b1, b2, k, *l, d + 1, f, k, cur@);
            assert forall|j: int| 0 <= j < c + 1 implies shape(
                b2,
                #[trigger] next@[j],
                f + 1,
                k,
                k,
            ) by {
                if j < c {
                    assert(next@[j] == next1[j]);
                    lemma_shape_ext(b1, b2, next1[j], f + 1, k, k);
                }
            }
            assert forall|j: int, p: Pkt, q: Pkt, v: Seq<usize>, r: Pkt, t: Pkt|
                #![trigger says(st, b2, next@[j], p, q, v, r, t)]
                0 <= j < c + 1 && readable(st, k, f + 1, k, p, q, v, r, t) implies says(
                st,
                b2,
                next@[j],
                p,
                q,
                v,
                r,
                t,
            ) == l.label(d as int, j, branches(p, q) + v + branches(r, t)) by {
                if j < c {
                    assert(next@[j] == next1[j]);
                    assert(shape(b1, next1[j], f + 1, k, k));
                    lemma_says_ext(st, st, b1, b2, next1[j], k, p, q, v, r, t);
                    assert(says(st, b1, next1[j], p, q, v, r, t) == l.label(
                        d as int,
                        j,
                        branches(p, q) + v + branches(r, t),
                    ));
                } else {
                    let p1 = p.drop_first();
                    let q1 = q.drop_first();
                    let z = row0[branch(p[0], q[0]) as int] as int;
                    assert(field_child(b2[x as int], p[0], q[0]) == cur@[z]);
                    assert(says(st, b2, x, p, q, v, r, t) == says(
                        st,
                        b2,
                        cur@[z],
                        p1,
                        q1,
                        v,
                        r,
                        t,
                    ));
                    assert(readable(st, k, f, k, p1, q1, v, r, t));
                    lemma_path_field(v, p, q, r, t);
                }
            }
        }
        c = c + 1;
    }
    next
}


/// A candidate over an automaton.
///
/// The automaton should be total: a component that runs out of transitions would
/// stop all the others.
pub struct Cand<'a> {
    pub nodes: Vec<CandNode>,
    pub head: CandIdx,
    pub dfa: &'a ExplicitDFA,
}

/// The decisions of an input.
pub open spec fn input_path(x: Input) -> Seq<usize> {
    branches(x.pkt_in@, x.pkt_start@) + x.states@ + branches(x.pkt_end@, x.pkt_out@)
}

/// The branches for inputs with packets of `n` fields and `k` states.
pub open spec fn input_widths(n: nat, k: nat) -> Seq<usize> {
    fours(n) + Seq::new(k, |i: int| k as usize) + fours(n)
}

/// Some example has the path and the label.
pub open spec fn input_shown(es: Seq<(Input, bool)>, q: Seq<usize>, label: bool) -> bool {
    exists|i: int| 0 <= i < es.len() && input_path((#[trigger] es[i]).0) == q && es[i].1 == label
}

/// What the examples tell, by the decisions of their inputs.
pub open spec fn inputs_told(es: Seq<(Input, bool)>) -> Known {
    Map::new(
        |q: Seq<usize>| input_shown(es, q, true) || input_shown(es, q, false),
        |q: Seq<usize>| input_shown(es, q, true),
    )
}

proof fn lemma_same_path(n: nat, k: nat, x: Input, y: Input)
    requires
        input_ok(x, n, k),
        input_ok(y, n, k),
    ensures
        input_path(x) == input_path(y) <==> same_input(x, y),
{
    if input_path(x) == input_path(y) {
        let a = input_path(x);
        let b = input_path(y);
        assert(a.take(n as int) =~= branches(x.pkt_in@, x.pkt_start@));
        assert(b.take(n as int) =~= branches(y.pkt_in@, y.pkt_start@));
        assert(a.subrange(n as int, (n + k) as int) =~= x.states@);
        assert(b.subrange(n as int, (n + k) as int) =~= y.states@);
        assert(a.skip((n + k) as int) =~= branches(x.pkt_end@, x.pkt_out@));
        assert(b.skip((n + k) as int) =~= branches(y.pkt_end@, y.pkt_out@));
        lemma_branches_same(x.pkt_in@, x.pkt_start@, y.pkt_in@, y.pkt_start@);
        lemma_branches_same(x.pkt_end@, x.pkt_out@, y.pkt_end@, y.pkt_out@);
    }
}

/// Some input occurs with both labels.
pub open spec fn inputs_conflict(es: Seq<(Input, bool)>) -> bool {
    exists|i: int, j: int|
        0 <= i < es.len() && 0 <= j < es.len() && same_input(
            (#[trigger] es[i]).0,
            (#[trigger] es[j]).0,
        ) && es[i].1 != es[j].1
}

/// The decisions of each example, with its label.
fn example_paths(examples: &[(Input, bool)], Ghost(n): Ghost<nat>, Ghost(k): Ghost<nat>) -> (paths:
    Vec<(Vec<usize>, bool)>)
    requires
        forall|i: int| 0 <= i < examples@.len() ==> input_ok((#[trigger] examples@[i]).0, n, k),
    ensures
        paths@.len() == examples@.len(),
        forall|i: int|
            0 <= i < paths@.len() ==> (#[trigger] paths@[i]).0@ == input_path(examples@[i].0)
                && paths@[i].1 == examples@[i].1,
        conflicting(paths@) <==> inputs_conflict(examples@),
{
    let ghost es = examples@;
    let mut paths: Vec<(Vec<usize>, bool)> = Vec::new();
    let mut i: usize = 0;
    while i < examples.len()
        invariant
            i <= es.len(),
            es == examples@,
            forall|j: int| 0 <= j < es.len() ==> input_ok((#[trigger] es[j]).0, n, k),
            paths@.len() == i,
            forall|j: int|
                0 <= j < i ==> (#[trigger] paths@[j]).0@ == input_path(es[j].0) && paths@[j].1
                    == es[j].1,
        decreases examples.len() - i,
    {
        let e = &examples[i].0;
        let mut path: Vec<usize> = Vec::new();
        assert(input_ok(es[i as int].0, n, k));
        push_branches(&mut path, &e.pkt_in, &e.pkt_start);
        let ghost p1 = path@;
        assert(p1 =~= branches(e.pkt_in@, e.pkt_start@));
        let mut j: usize = 0;
        assert(path@ =~= p1 + e.states@.take(0));
        while j < e.states.len()
            invariant
                j <= e.states@.len(),
                path@ == p1 + e.states@.take(j as int),
            decreases e.states.len() - j,
        {
            path.push(e.states[j]);
            assert(e.states@.take(j + 1) =~= e.states@.take(j as int).push(e.states@[j as int]));
            assert(path@ =~= p1 + e.states@.take(j + 1));
            j = j + 1;
        }
        assert(e.states@.take(j as int) =~= e.states@);
        push_branches(&mut path, &e.pkt_end, &e.pkt_out);
        assert(path@ =~= input_path(es[i as int].0));
        paths.push((path, examples[i].1));
        i = i + 1;
    }
    proof {
        if conflicting(paths@) {
            let (a, b) = choose|a: int, b: int|
                0 <= a < paths@.len() && 0 <= b < paths@.len() && (#[trigger] paths@[a]).0@ == (
                #[trigger] paths@[b]).0@ && paths@[a].1 != paths@[b].1;
            lemma_same_path(n, k, es[a].0, es[b].0);
            assert(same_input(es[a].0, es[b].0));
        }
        if inputs_conflict(es) {
            let (a, b) = choose|a: int, b: int|
                0 <= a < es.len() && 0 <= b < es.len() && same_input(
                    (#[trigger] es[a]).0,
                    (#[trigger] es[b]).0,
                ) && es[a].1 != es[b].1;
            lemma_same_path(n, k, es[a].0, es[b].0);
            assert(paths@[a].0@ == paths@[b].0@);
        }
    }
    paths
}

/// `n` times the same.
fn repeated(x: usize, n: usize) -> (v: Vec<usize>)
    ensures
        v@.len() == n,
        forall|i: int| 0 <= i < n ==> #[trigger] v@[i] == x,
{
    let mut v: Vec<usize> = Vec::new();
    let mut i: usize = 0;
    while i < n
        invariant
            i <= n,
            v@.len() == i,
            forall|j: int| 0 <= j < i ==> #[trigger] v@[j] == x,
        decreases n - i,
    {
        v.push(x);
        i = i + 1;
    }
    v
}

impl<'a> Cand<'a> {
    pub open spec fn tbl(&self) -> Seq<Choice> {
        self.nodes@.map_values(|c: CandNode| c@)
    }

    pub open spec fn top_node(&self) -> CandIdx {
        self.head
    }

    /// The number of states of the automaton.
    pub open spec fn width(&self) -> nat {
        self.dfa.transitions@.len()
    }

    /// The diagram is well formed over a store.
    pub open spec fn wf(&self, st: SPPstore) -> bool {
        &&& nodes_ok(st, self.tbl(), self.width())
        &&& shape(self.tbl(), self.top_node(), st.n(), self.width(), self.width())
    }

    /// What the candidate says.
    pub open spec fn accepts(
        &self,
        st: SPPstore,
        p: Pkt,
        q: Pkt,
        v: Seq<usize>,
        r: Pkt,
        s: Pkt,
    ) -> bool {
        says(st, self.tbl(), self.top_node(), p, q, v, r, s)
    }

    /// What the candidate says of an input.
    pub open spec fn takes(&self, st: SPPstore, x: Input) -> bool {
        self.accepts(st, x.pkt_in@, x.pkt_start@, x.states@, x.pkt_end@, x.pkt_out@)
    }

    /// The candidate says of every example what the example says.
    pub open spec fn consistent(&self, st: SPPstore, es: Seq<(Input, bool)>) -> bool {
        forall|i: int| 0 <= i < es.len() ==> self.takes(st, (#[trigger] es[i]).0) == es[i].1
    }

    /// The candidate that accepts everything.
    fn permissive(store: &SPPstore, dfa: &'a ExplicitDFA) -> (r: Cand<'a>)
        requires
            store.wf(),
        ensures
            r.dfa == dfa,
            r.wf(*store),
            forall|p: Pkt, q: Pkt, v: Seq<usize>, x: Pkt, y: Pkt|
                #![trigger r.accepts(*store, p, q, v, x, y)]
                readable(
                    *store,
                    r.width(),
                    store.n(),
                    r.width(),
                    p,
                    q,
                    v,
                    x,
                    y,
                ) ==> r.accepts(*store, p, q, v, x, y),
    {
        let ghost st = *store;
        let nv = store.num_vars();
        let ns = dfa.num_states();
        let ghost k = ns as nat;
        proof {
            st.lemma_wf();
        }
        let mut builder = Builder::new();
        let mut node = builder.mk_root(store.top, Ghost(st), Ghost(k));
        let mut i: usize = 0;
        while i < ns
            invariant
                st.wf(),
                st.consts(),
                st.extends(&st),
                k == ns,
                i <= ns,
                nodes_ok(st, builder@, k),
                shape(builder@, node, 0, i as nat, k),
                forall|p: Pkt, q: Pkt, v: Seq<usize>, x: Pkt, y: Pkt|
                    #![trigger says(st, builder@, node, p, q, v, x, y)]
                    readable(st, k, 0, i as nat, p, q, v, x, y) ==> says(
                        st,
                        builder@,
                        node,
                        p,
                        q,
                        v,
                        x,
                        y,
                    ),
            decreases ns - i,
        {
            let ghost b1 = builder@;
            let ghost node1 = node;
            let row = repeated(node, ns);
            let ghost row1 = row@;
            proof {
                assert forall|j: int| 0 <= j < k implies shape(
                    b1,
                    #[trigger] row1[j],
                    0,
                    i as nat,
                    k,
                ) by {}
            }
            node = builder.mk_state(row, Ghost(st), Ghost(k), Ghost(i as nat));
            proof {
                let b2 = builder@;
                assert forall|p: Pkt, q: Pkt, v: Seq<usize>, x: Pkt, y: Pkt|
                    #![trigger says(st, b2, node, p, q, v, x, y)]
                    readable(st, k, 0, (i + 1) as nat, p, q, v, x, y) implies says(
                    st,
                    b2,
                    node,
                    p,
                    q,
                    v,
                    x,
                    y,
                ) by {
                    let u = v.skip(1);
                    assert(v[0] < k);
                    assert(row1[v[0] as int] == node1);
                    assert(state_child(b2[node as int], v[0]) == node1);
                    assert(field_at(b2, node, p, q) == node);
                    assert(field_at(b2, node1, p, q) == node1);
                    assert forall|j: int| 0 <= j < u.len() implies #[trigger] u[j] < k by {
                        assert(u[j] == v[j + 1]);
                    }
                    assert(readable(st, k, 0, i as nat, p, q, u, x, y));
                    assert(says(st, b1, node1, p, q, u, x, y));
                    lemma_says_ext(st, st, b1, b2, node1, k, p, q, u, x, y);
                }
            }
            i = i + 1;
        }
        let mut f: u32 = 0;
        while f < nv
            invariant
                st.wf(),
                st.consts(),
                st.extends(&st),
                k == ns,
                f <= nv,
                nodes_ok(st, builder@, k),
                shape(builder@, node, f as nat, k, k),
                forall|p: Pkt, q: Pkt, v: Seq<usize>, x: Pkt, y: Pkt|
                    #![trigger says(st, builder@, node, p, q, v, x, y)]
                    readable(st, k, f as nat, k, p, q, v, x, y) ==> says(
                        st,
                        builder@,
                        node,
                        p,
                        q,
                        v,
                        x,
                        y,
                    ),
            decreases nv - f,
        {
            let ghost b1 = builder@;
            let ghost node1 = node;
            node =
            builder.mk_field(
                node,
                node,
                node,
                node,
                Ghost(st),
                Ghost(k),
                Ghost(f as nat),
                Ghost(k),
            );
            proof {
                let b2 = builder@;
                assert forall|p: Pkt, q: Pkt, v: Seq<usize>, x: Pkt, y: Pkt|
                    #![trigger says(st, b2, node, p, q, v, x, y)]
                    readable(st, k, (f + 1) as nat, k, p, q, v, x, y) implies says(
                    st,
                    b2,
                    node,
                    p,
                    q,
                    v,
                    x,
                    y,
                ) by {
                    let p1 = p.drop_first();
                    let q1 = q.drop_first();
                    assert(field_child(b2[node as int], p[0], q[0]) == node1);
                    assert(readable(st, k, f as nat, k, p1, q1, v, x, y));
                    assert(says(st, b1, node1, p1, q1, v, x, y));
                    lemma_says_ext(st, st, b1, b2, node1, k, p1, q1, v, x, y);
                }
            }
            f = f + 1;
        }
        let ghost b = builder@;
        let r = Cand { nodes: builder.nodes, head: node, dfa };
        assert(r.tbl() =~= b);
        r
    }

    /// A candidate that generalises the examples: it says of every example what
    /// the example says.  Of other inputs it says what merging prefixes of the examples
    /// gives that go together.  Without examples it accepts everything.
    pub fn from_examples(
        store: &mut SPPstore,
        dfa: &'a ExplicitDFA,
        examples: &[(Input, bool)],
    ) -> (r: Result<Cand<'a>, ConflictError>)
        requires
            old(store).wf(),
            forall|i: int|
                0 <= i < examples@.len() ==> input_ok(
                    (#[trigger] examples@[i]).0,
                    old(store).n(),
                    dfa.transitions@.len(),
                ),
        ensures
            final(store).wf(),
            final(store).extends(old(store)),
            final(store).sp == old(store).sp,
            r is Err <==> inputs_conflict(examples@),
            r matches Ok(c) ==> c.dfa == dfa && c.wf(*final(store)) && c.consistent(
                *final(store),
                examples@,
            ),
            r matches Ok(c) ==> examples@.len() > 0 ==> forall|x: Input|
                input_ok(x, old(store).n(), dfa.transitions@.len()) ==> #[trigger] c.takes(
                    *final(store),
                    x,
                ) == merged(
                    seq![inputs_told(examples@)],
                    0,
                    input_widths(old(store).n(), dfa.transitions@.len()),
                    input_path(x),
                ),
            r matches Ok(c) ==> examples@.len() == 0 ==> forall|
                p: Pkt,
                q: Pkt,
                v: Seq<usize>,
                x: Pkt,
                y: Pkt,
            |
                #![trigger c.accepts(*final(store), p, q, v, x, y)]
                readable(
                    *final(store),
                    c.width(),
                    final(store).n(),
                    c.width(),
                    p,
                    q,
                    v,
                    x,
                    y,
                ) ==> c.accepts(*final(store), p, q, v, x, y),
    {
        let ghost o = *store;
        let ghost n = o.n();
        let ghost es = examples@;
        proof {
            o.lemma_wf();
        }
        if examples.len() == 0 {
            return Ok(Cand::permissive(store, dfa));
        }
        let nv = store.num_vars();
        let ns = dfa.num_states();
        let ghost k = ns as nat;
        let mut ws: Vec<usize> = Vec::new();
        let mut i: u32 = 0;
        while i < nv
            invariant
                i <= nv,
                ws@.len() == i,
                forall|j: int| 0 <= j < i ==> #[trigger] ws@[j] == 4,
            decreases nv - i,
        {
            ws.push(4);
            i = i + 1;
        }
        let fields = ws.len();
        let mut j: usize = 0;
        while j < ns
            invariant
                fields == nv,
                k == ns,
                j <= ns,
                ws@.len() == fields + j,
                forall|x: int| 0 <= x < fields ==> #[trigger] ws@[x] == 4,
                forall|x: int| fields <= x < ws@.len() ==> #[trigger] ws@[x] == k,
            decreases ns - j,
        {
            ws.push(ns);
            j = j + 1;
        }
        let base = ws.len();
        let mut i: u32 = 0;
        while i < nv
            invariant
                fields == nv,
                base == fields + k,
                i <= nv,
                ws@.len() == base + i,
                forall|x: int| 0 <= x < fields ==> #[trigger] ws@[x] == 4,
                forall|x: int| fields <= x < base ==> #[trigger] ws@[x] == k,
                forall|x: int| base <= x < ws@.len() ==> #[trigger] ws@[x] == 4,
            decreases nv - i,
        {
            ws.push(4);
            i = i + 1;
        }
        let paths = example_paths(examples, Ghost(n), Ghost(k));
        proof {
            assert forall|x: int| 0 <= x < paths@.len() implies path_ok(
                (#[trigger] paths@[x]).0@,
                ws@,
            ) by {
                let e = es[x].0;
                assert(input_ok(e, n, k));
                let q = paths@[x].0@;
                assert forall|y: int| 0 <= y < q.len() implies #[trigger] q[y] < ws@[y] by {
                    if y < n {
                        assert(q[y] == branches(e.pkt_in@, e.pkt_start@)[y]);
                    } else if y < n + k {
                        assert(q[y] == e.states@[y - n]);
                    } else {
                        assert(q[y] == branches(e.pkt_end@, e.pkt_out@)[y - n - k]);
                    }
                }
            }
        }
        let l = match generalize(&ws, &paths) {
            None => {
                return Err(ConflictError);
            },
            Some(l) => l,
        };
        let spps = fold_relations(store, &l, base, Ghost(ws@));
        let ghost st = *store;
        let mut builder = Builder::new();
        let mut cur = fold_roots(
            &mut builder,
            &l,
            &spps,
            Ghost(st),
            Ghost(k),
            Ghost(base as int),
        );
        let mut d: usize = base;
        while d > fields
            invariant
                st.wf(),
                l.wf(ws@),
                fields == n,
                base == fields + k,
                fields <= d <= base,
                base <= ws@.len(),
                forall|x: int| fields <= x < base ==> #[trigger] ws@[x] == k,
                nodes_ok(st, builder@, k),
                stands_for(st, builder@, k, l, d as int, 0, (base - d) as nat, cur@),
            decreases d,
        {
            d = d - 1;
            let next = fold_states(
                &mut builder,
                &l,
                d,
                &cur,
                Ghost(st),
                Ghost(k),
                Ghost((base - d - 1) as nat),
                Ghost(ws@),
            );
            cur = next;
        }
        while d > 0
            invariant
                st.wf(),
                l.wf(ws@),
                fields == n,
                d <= fields <= base,
                base <= ws@.len(),
                forall|x: int| 0 <= x < fields ==> #[trigger] ws@[x] == 4,
                nodes_ok(st, builder@, k),
                stands_for(st, builder@, k, l, d as int, (fields - d) as nat, k, cur@),
            decreases d,
        {
            d = d - 1;
            let next = fold_fields(
                &mut builder,
                &l,
                d,
                &cur,
                Ghost(st),
                Ghost(k),
                Ghost((fields - d - 1) as nat),
                Ghost(ws@),
            );
            cur = next;
        }
        let head = cur[0];
        let ghost b = builder@;
        let r = Cand { nodes: builder.nodes, head, dfa };
        proof {
            assert(r.tbl() =~= b);
            assert(shape(b, cur@[0], n, k, k));
            assert(ws@ =~= input_widths(n, k));
            assert(told(paths@) =~= inputs_told(es)) by {
                assert forall|z: Seq<usize>, a: bool| #[trigger]
                    exampled(paths@, paths@.len() as int, z, a) == input_shown(es, z, a) by {
                    if exampled(paths@, paths@.len() as int, z, a) {
                        let j = choose|j: int|
                            0 <= j < paths@.len() && (#[trigger] paths@[j]).0@ == z && paths@[j].1
                                == a;
                        assert(input_path(es[j].0) == z);
                    }
                    if input_shown(es, z, a) {
                        let j = choose|j: int|
                            0 <= j < es.len() && input_path((#[trigger] es[j]).0) == z && es[j].1
                                == a;
                        assert(paths@[j].0@ == z);
                    }
                }
            }
            assert forall|e: Input| input_ok(e, n, k) implies #[trigger] r.takes(st, e) == merged(
                seq![inputs_told(es)],
                0,
                input_widths(n, k),
                input_path(e),
            ) by {
                let q = input_path(e);
                assert(readable(
                    st,
                    k,
                    n,
                    k,
                    e.pkt_in@,
                    e.pkt_start@,
                    e.states@,
                    e.pkt_end@,
                    e.pkt_out@,
                ));
                assert(path_ok(q, ws@)) by {
                    assert forall|y: int| 0 <= y < q.len() implies #[trigger] q[y] < ws@[y] by {
                        if y < n {
                            assert(q[y] == branches(e.pkt_in@, e.pkt_start@)[y]);
                        } else if y < n + k {
                            assert(q[y] == e.states@[y - n]);
                        } else {
                            assert(q[y] == branches(e.pkt_end@, e.pkt_out@)[y - n - k]);
                        }
                    }
                }
                assert(says(
                    st,
                    b,
                    cur@[0],
                    e.pkt_in@,
                    e.pkt_start@,
                    e.states@,
                    e.pkt_end@,
                    e.pkt_out@,
                ) == l.label(0, 0, q));
            }
            assert forall|x: int| 0 <= x < es.len() implies r.takes(st, (#[trigger] es[x]).0)
                == es[x].1 by {
                let e = es[x].0;
                assert(input_ok(e, n, k));
                assert(readable(
                    st,
                    k,
                    n,
                    k,
                    e.pkt_in@,
                    e.pkt_start@,
                    e.states@,
                    e.pkt_end@,
                    e.pkt_out@,
                ));
                assert(paths@[x].0@ == input_path(e));
                assert(says(
                    st,
                    b,
                    cur@[0],
                    e.pkt_in@,
                    e.pkt_start@,
                    e.states@,
                    e.pkt_end@,
                    e.pkt_out@,
                ) == l.label(0, 0, input_path(e)));
            }
        }
        Ok(r)
    }

    /// The number of states of the automaton.
    pub fn num_states(&self) -> (n: usize)
        ensures
            n == self.width(),
    {
        self.dfa.num_states()
    }

    /// The same candidate.
    pub fn copy(&self) -> (r: Cand<'a>)
        ensures
            r.tbl() == self.tbl(),
            r.top_node() == self.top_node(),
            r.dfa == self.dfa,
    {
        let mut nodes: Vec<CandNode> = Vec::new();
        let mut i: usize = 0;
        while i < self.nodes.len()
            invariant
                i <= self.nodes@.len(),
                nodes@.len() == i,
                forall|j: int| 0 <= j < i ==> (#[trigger] nodes@[j])@ == self.nodes@[j]@,
            decreases self.nodes.len() - i,
        {
            nodes.push(self.nodes[i].copy());
            i = i + 1;
        }
        let r = Cand { nodes, head: self.head, dfa: self.dfa };
        assert(r.tbl() =~= self.tbl());
        r
    }

    fn get_node(&self, idx: CandIdx) -> (r: &CandNode)
        requires
            idx < self.tbl().len(),
        ensures
            r@ == self.tbl()[idx as int],
    {
        &self.nodes[idx]
    }

    /// The node that the states lead to.
    fn follow_states(&self, node: CandIdx, states: &Vec<usize>, Ghost(st): Ghost<SPPstore>) -> (r:
        CandIdx)
        requires
            nodes_ok(st, self.tbl(), self.width()),
            shape(self.tbl(), node, 0, states@.len(), self.width()),
            forall|j: int| 0 <= j < states@.len() ==> #[trigger] states@[j] < self.width(),
        ensures
            r == state_at(self.tbl(), node, states@),
            shape(self.tbl(), r, 0, 0, self.width()),
    {
        let ghost ns = self.tbl();
        let ghost k = self.width();
        let mut cur = node;
        let mut i: usize = 0;
        assert(states@.skip(0) =~= states@);
        while i < states.len()
            invariant
                ns == self.tbl(),
                k == self.width(),
                i <= states@.len(),
                forall|j: int| 0 <= j < states@.len() ==> #[trigger] states@[j] < k,
                shape(ns, cur, 0, (states@.len() - i) as nat, k),
                state_at(ns, cur, states@.skip(i as int)) == state_at(ns, node, states@),
            decreases states.len() - i,
        {
            let ghost v = states@.skip(i as int);
            assert(v[0] == states@[i as int]);
            assert(v.skip(1) =~= states@.skip(i + 1));
            match self.get_node(cur) {
                CandNode::NextState(ch) => {
                    assert(shape(ns, ch@[states@[i as int] as int], 0, (v.len() - 1) as nat, k));
                    cur = ch[states[i]];
                },
                _ => {
                    assert(false);
                },
            }
            i = i + 1;
        }
        cur
    }

    /// Whether the candidate accepts the input.
    pub fn accepts_input(&self, store: &SPPstore, input: &Input) -> (b: bool)
        requires
            store.wf(),
            self.wf(*store),
            input_ok(*input, store.n(), self.width()),
        ensures
            b == self.takes(*store, *input),
    {
        let ghost ns = self.tbl();
        let ghost k = self.width();
        let ghost p = input.pkt_in@;
        let ghost q = input.pkt_start@;
        let mut cur = self.head;
        let mut i: usize = 0;
        assert(p.skip(0) =~= p);
        assert(q.skip(0) =~= q);
        while i < input.pkt_in.len()
            invariant
                ns == self.tbl(),
                k == self.width(),
                p == input.pkt_in@,
                q == input.pkt_start@,
                p.len() == q.len(),
                i <= p.len(),
                shape(ns, cur, (p.len() - i) as nat, k, k),
                field_at(ns, cur, p.skip(i as int), q.skip(i as int)) == field_at(
                    ns,
                    self.top_node(),
                    p,
                    q,
                ),
            decreases input.pkt_in.len() - i,
        {
            proof {
                let u = p.skip(i as int);
                let v = q.skip(i as int);
                assert(u[0] == p[i as int] && v[0] == q[i as int]);
                assert(u.drop_first() =~= p.skip(i + 1));
                assert(v.drop_first() =~= q.skip(i + 1));
            }
            match self.get_node(cur) {
                CandNode::NextField { b00, b01, b10, b11 } => {
                    cur =
                    if input.pkt_in[i] {
                        if input.pkt_start[i] {
                            *b11
                        } else {
                            *b10
                        }
                    } else {
                        if input.pkt_start[i] {
                            *b01
                        } else {
                            *b00
                        }
                    };
                },
                _ => {
                    assert(false);
                },
            }
            i = i + 1;
        }
        let z = self.follow_states(cur, &input.states, Ghost(*store));
        match self.get_node(z) {
            CandNode::Root(s) => {
                proof {
                    assert(node_ok(*store, ns, z as int));
                }
                store.accepts(*s, input.pkt_end.as_slice(), input.pkt_out.as_slice())
            },
            _ => {
                assert(false);
                false
            },
        }
    }
}


// ---- the automaton of a candidate -----------------------------------------------------------

/// A state of a candidate: before the first recorded packet, or after it with the
/// node that was reached and the states that the automaton is in.
#[derive(Debug, Clone, PartialEq, Eq, PartialOrd, Ord, Hash)]
pub enum State {
    Start,
    Middle(CandIdx, Vec<usize>),
}

/// A state as a mathematical value.
pub enum CandState {
    Start,
    Middle(CandIdx, Seq<usize>),
}

impl StateKey for State {
    type M = CandState;

    open spec fn model(&self) -> CandState {
        match *self {
            State::Start => CandState::Start,
            State::Middle(n, v) => CandState::Middle(n, v@),
        }
    }

    fn same(&self, o: &Self) -> (r: bool) {
        match (self, o) {
            (State::Start, State::Start) => true,
            (State::Middle(n, v), State::Middle(m, u)) => *n == *m && same_states(v, u),
            _ => false,
        }
    }

    fn dup(&self) -> (r: Self) {
        match self {
            State::Start => State::Start,
            State::Middle(n, v) => State::Middle(*n, copy_states(v)),
        }
    }
}

/// The states in order.
pub open spec fn identity(k: nat) -> Seq<usize> {
    Seq::new(k, |i: int| i as usize)
}

/// Component `i` takes a step.
pub open spec fn one_step(
    dfa: ExplicitDFA,
    st: SPPstore,
    v: Seq<usize>,
    p: Pkt,
    u: Seq<usize>,
    x: Pkt,
    i: int,
) -> bool {
    dfa.step(st, v[i], p, u[i], x)
}

/// Every component takes a step.
pub open spec fn all_step(
    dfa: ExplicitDFA,
    st: SPPstore,
    v: Seq<usize>,
    p: Pkt,
    u: Seq<usize>,
    x: Pkt,
) -> bool {
    u.len() == v.len() && forall|i: int|
        0 <= i < v.len() ==> #[trigger] one_step(dfa, st, v, p, u, x, i)
}

/// Whether the tuple of states is one of the automaton.
pub open spec fn tuple_ok(v: Seq<usize>, k: nat) -> bool {
    v.len() == k && forall|i: int| 0 <= i < v.len() ==> #[trigger] v[i] < k
}

/// The tuple `v` goes to `u` along the packets.
pub open spec fn evolves(
    dfa: ExplicitDFA,
    st: SPPstore,
    v: Seq<usize>,
    t: Seq<Pkt>,
    u: Seq<usize>,
) -> bool
    decreases t.len(),
{
    if t.len() <= 1 {
        u == v
    } else {
        exists|y: Seq<usize>| #[trigger]
            all_step(dfa, st, v, t[0], y, t[1]) && evolves(dfa, st, y, t.skip(1), u)
    }
}

/// The states in order.
fn all_states(k: usize) -> (v: Vec<usize>)
    ensures
        v@ == identity(k as nat),
{
    let mut v: Vec<usize> = Vec::new();
    let mut i: usize = 0;
    while i < k
        invariant
            i <= k,
            v@.len() == i,
            forall|j: int| 0 <= j < i ==> #[trigger] v@[j] == j,
        decreases k - i,
    {
        v.push(i);
        i = i + 1;
    }
    assert(v@ =~= identity(k as nat));
    v
}

/// Reading one more field.
proof fn lemma_field_push(ns: Seq<Choice>, i: CandIdx, p: Pkt, q: Pkt, x: bool, y: bool)
    requires
        p.len() == q.len(),
    ensures
        field_at(ns, i, p.push(x), q.push(y)) == field_child(
            ns[field_at(ns, i, p, q) as int],
            x,
            y,
        ),
    decreases p.len(),
{
    if p.len() == 0 {
        let a = p.push(x);
        let b = q.push(y);
        assert(a.drop_first() =~= Seq::<bool>::empty());
        assert(b.drop_first() =~= Seq::<bool>::empty());
        assert(a[0] == x && b[0] == y);
        assert(field_at(ns, field_child(ns[i as int], x, y), a.drop_first(), b.drop_first())
            == field_child(ns[i as int], x, y));
    } else {
        let a = p.push(x);
        let b = q.push(y);
        assert(a[0] == p[0] && b[0] == q[0]);
        assert(a.drop_first() =~= p.drop_first().push(x));
        assert(b.drop_first() =~= q.drop_first().push(y));
        lemma_field_push(
            ns,
            field_child(ns[i as int], p[0], q[0]),
            p.drop_first(),
            q.drop_first(),
            x,
            y,
        );
    }
}

impl<'a> Cand<'a> {
    /// Every pair of packets with `f` fields leads to a node of the list.
    spec fn covers(&self, nodes: Seq<CandIdx>, f: nat) -> bool {
        forall|p: Pkt, q: Pkt|
            p.len() == f && q.len() == f ==> nodes.contains(
                #[trigger] field_at(self.tbl(), self.top_node(), p, q),
            )
    }

    /// The nodes that the fields lead to.
    fn bottom_nodes(&self, store: &SPPstore) -> (nodes: Vec<CandIdx>)
        requires
            store.wf(),
            self.wf(*store),
        ensures
            self.covers(nodes@, store.n()),
            forall|i: int|
                0 <= i < nodes@.len() ==> shape(
                    self.tbl(),
                    #[trigger] nodes@[i],
                    0,
                    self.width(),
                    self.width(),
                ),
            forall|i: int, j: int|
                #![trigger nodes@[i], nodes@[j]]
                0 <= i < j < nodes@.len() ==> nodes@[i] < nodes@[j],
    {
        let ghost n = store.n();
        let ghost ns = self.tbl();
        let ghost k = self.width();
        let nv = store.num_vars();
        let mut nodes: Vec<CandIdx> = Vec::new();
        nodes.push(self.head);
        let mut f: u32 = 0;
        proof {
            assert forall|p: Pkt, q: Pkt| p.len() == 0 && q.len() == 0 implies nodes@.contains(
                #[trigger] field_at(ns, self.top_node(), p, q),
            ) by {
                assert(nodes@[0] == self.head);
            }
        }
        while f < nv
            invariant
                n == nv,
                n == store.n(),
                ns == self.tbl(),
                k == self.width(),
                self.wf(*store),
                f <= nv,
                self.covers(nodes@, f as nat),
                forall|i: int|
                    0 <= i < nodes@.len() ==> shape(
                        ns,
                        #[trigger] nodes@[i],
                        (n - f) as nat,
                        k,
                        k,
                    ),
                forall|i: int, j: int|
                    #![trigger nodes@[i], nodes@[j]]
                    0 <= i < j < nodes@.len() ==> nodes@[i] < nodes@[j],
            decreases nv - f,
        {
            let ghost nodes1 = nodes@;
            let mut next: Vec<CandIdx> = Vec::new();
            let mut i: usize = 0;
            while i < nodes.len()
                invariant
                    n == nv,
                    f < nv,
                    ns == self.tbl(),
                    k == self.width(),
                    i <= nodes@.len(),
                    nodes@ == nodes1,
                    forall|j: int|
                        0 <= j < nodes1.len() ==> shape(
                            ns,
                            #[trigger] nodes1[j],
                            (n - f) as nat,
                            k,
                            k,
                        ),
                    forall|j: int|
                        0 <= j < next@.len() ==> shape(
                            ns,
                            #[trigger] next@[j],
                            (n - f - 1) as nat,
                            k,
                            k,
                        ),
                    forall|j: int, x: bool, y: bool|
                        0 <= j < i ==> next@.contains(
                            #[trigger] field_child(ns[nodes1[j] as int], x, y),
                        ),
                decreases nodes.len() - i,
            {
                let ghost next1 = next@;
                assert(shape(ns, nodes1[i as int], (n - f) as nat, k, k));
                match self.get_node(nodes[i]) {
                    CandNode::NextField { b00, b01, b10, b11 } => {
                        next.push(*b00);
                        next.push(*b01);
                        next.push(*b10);
                        next.push(*b11);
                        proof {
                            let m = next1.len() as int;
                            assert(next@[m] == *b00 && next@[m + 1] == *b01 && next@[m + 2]
                                == *b10 && next@[m + 3] == *b11);
                            assert forall|j: int, x: bool, y: bool|
                                0 <= j < i + 1 implies next@.contains(
                                #[trigger] field_child(ns[nodes1[j] as int], x, y),
                            ) by {
                                if j < i {
                                    let z = field_child(ns[nodes1[j] as int], x, y);
                                    assert(next1.contains(z));
                                    let h = choose|h: int| 0 <= h < next1.len() && next1[h] == z;
                                    assert(next@[h] == z);
                                }
                            }
                        }
                    },
                    _ => {
                        assert(false);
                    },
                }
                i = i + 1;
            }
            nodes = sorted_states(&next);
            proof {
                assert forall|p: Pkt, q: Pkt|
                    p.len() == f + 1 && q.len() == f + 1 implies nodes@.contains(
                    #[trigger] field_at(ns, self.top_node(), p, q),
                ) by {
                    let p0 = p.drop_last();
                    let q0 = q.drop_last();
                    assert(p =~= p0.push(p.last()));
                    assert(q =~= q0.push(q.last()));
                    lemma_field_push(ns, self.top_node(), p0, q0, p.last(), q.last());
                    let z = field_at(ns, self.top_node(), p0, q0);
                    assert(nodes1.contains(z));
                    let h = choose|h: int| 0 <= h < nodes1.len() && nodes1[h] == z;
                    assert(next@.contains(field_child(ns[nodes1[h] as int], p.last(), q.last())));
                }
                assert forall|j: int| 0 <= j < nodes@.len() implies shape(
                    ns,
                    #[trigger] nodes@[j],
                    (n - f - 1) as nat,
                    k,
                    k,
                ) by {
                    assert(nodes@.contains(nodes@[j]));
                    let h = choose|h: int| 0 <= h < next@.len() && next@[h] == nodes@[j];
                    assert(shape(ns, next@[h], (n - f - 1) as nat, k, k));
                }
            }
            f = f + 1;
        }
        nodes
    }

    /// The relation of the packets that lead to node `target`.
    fn spp_to(&self, store: &mut SPPstore, target: CandIdx) -> (r: SPP)
        requires
            old(store).wf(),
            self.wf(*old(store)),
        ensures
            final(store).wf(),
            final(store).extends(old(store)),
            final(store).sp == old(store).sp,
            final(store).has(r),
            forall|p: Pkt, q: Pkt|
                #![trigger final(store).rel(r, p, q)]
                p.len() == old(store).n() && q.len() == old(store).n() ==> final(store).rel(
                    r,
                    p,
                    q,
                ) == (field_at(self.tbl(), self.top_node(), p, q) == target),
    {
        let ghost o = *store;
        let ghost ns = self.tbl();
        let ghost k = self.width();
        let mut done: Vec<SPP> = Vec::new();
        let mut i: usize = 0;
        proof {
            o.lemma_grows();
        }
        while i < self.nodes.len()
            invariant
                o.wf(),
                store.wf(),
                store.grows(&o),
                store.sp == o.sp,
                self.wf(o),
                ns == self.tbl(),
                k == self.width(),
                i <= ns.len(),
                ns.len() == self.nodes@.len(),
                done@.len() == i,
                forall|j: CandIdx, f: nat, s: nat|
                    #![trigger shape(ns, j, f, s, k)]
                    j < i && shape(ns, j, f, s, k) ==> store.has_at(f, done@[j as int]),
                forall|j: CandIdx, f: nat, s: nat, p: Pkt, q: Pkt|
                    #![trigger shape(ns, j, f, s, k), store.rel_at(done@[j as int], p, q)]
                    j < i && shape(ns, j, f, s, k) && p.len() == f && q.len() == f
                        ==> store.rel_at(done@[j as int], p, q) == (field_at(ns, j, p, q)
                        == target),
            decreases self.nodes.len() - i,
        {
            let ghost s1 = *store;
            let ghost done1 = done@;
            proof {
                assert(node_ok(o, ns, i as int));
                assert(shaped(ns, i, k));
            }
            match self.get_node(i) {
                CandNode::NextField { b00, b01, b10, b11 } => {
                    let ghost (f, s) = choose|f: nat, s: nat| #[trigger] shape(ns, i, f, s, k);
                    let ghost f1 = (f - 1) as nat;
                    proof {
                        assert(shape(ns, *b00, f1, s, k));
                        assert(shape(ns, *b01, f1, s, k));
                        assert(shape(ns, *b10, f1, s, k));
                        assert(shape(ns, *b11, f1, s, k));
                    }
                    let x = store.mk_at(
                        done[*b00],
                        done[*b01],
                        done[*b10],
                        done[*b11],
                        Ghost(f1),
                    );
                    done.push(x);
                    proof {
                        assert forall|g: nat, t: nat| #[trigger] shape(ns, i, g, t, k) implies g
                            == f by {
                            lemma_same_depth(ns, i, f, s, g, t, k);
                        }
                        assert forall|g: nat, t: nat, p: Pkt, q: Pkt|
                            #![trigger shape(ns, i, g, t, k), store.rel_at(x, p, q)]
                            shape(ns, i, g, t, k) && p.len() == g && q.len() == g
                            implies store.rel_at(x, p, q) == (field_at(ns, i, p, q)
                            == target) by {
                            let c = field_child(ns[i as int], p[0], q[0]);
                            let p1 = p.drop_first();
                            let q1 = q.drop_first();
                            assert(shape(ns, c, f1, s, k));
                            assert(s1.rel_at(done1[c as int], p1, q1) == (field_at(
                                ns,
                                c,
                                p1,
                                q1,
                            ) == target));
                            assert(chosen(
                                done1[*b00 as int],
                                done1[*b01 as int],
                                done1[*b10 as int],
                                done1[*b11 as int],
                                p[0],
                                q[0],
                            ) == done1[c as int]);
                        }
                    }
                },
                _ => {
                    let x = store.leaf(i == target);
                    done.push(x);
                    proof {
                        s1.lemma_grows();
                    }
                },
            }
            proof {
                assert forall|j: CandIdx, f: nat, s: nat|
                    #![trigger shape(ns, j, f, s, k)]
                    j < i + 1 && shape(ns, j, f, s, k) implies store.has_at(
                    f,
                    done@[j as int],
                ) by {
                    if j < i {
                        assert(done@[j as int] == done1[j as int]);
                        assert(s1.has_at(f, done1[j as int]));
                    }
                }
                assert forall|j: CandIdx, f: nat, s: nat, p: Pkt, q: Pkt|
                    #![trigger shape(ns, j, f, s, k), store.rel_at(done@[j as int], p, q)]
                    j < i + 1 && shape(ns, j, f, s, k) && p.len() == f && q.len() == f
                    implies store.rel_at(done@[j as int], p, q) == (field_at(ns, j, p, q)
                    == target) by {
                    if j < i {
                        assert(done@[j as int] == done1[j as int]);
                        assert(s1.has_at(f, done1[j as int]));
                        assert(s1.rel_at(done1[j as int], p, q) == store.rel_at(
                            done1[j as int],
                            p,
                            q,
                        ));
                    }
                }
            }
            i = i + 1;
        }
        let r = done[self.head];
        proof {
            store.lemma_at(r);
            assert(shape(ns, self.head, o.n(), k, k));
            assert forall|p: Pkt, q: Pkt|
                #![trigger store.rel(r, p, q)]
                p.len() == o.n() && q.len() == o.n() implies store.rel(r, p, q) == (field_at(
                ns,
                self.top_node(),
                p,
                q,
            ) == target) by {
                assert(shape(ns, self.head, o.n(), k, k));
                assert(store.rel_at(done@[self.head as int], p, q) == (field_at(
                    ns,
                    self.head,
                    p,
                    q,
                ) == target));
            }
        }
        r
    }

    /// The steps from the start: the packets lead to a node.
    fn first_steps(&self, store: &mut SPPstore) -> (ts: Vec<(SPP, State)>)
        requires
            old(store).wf(),
            self.wf(*old(store)),
        ensures
            final(store).wf(),
            final(store).extends(old(store)),
            forall|i: int|
                0 <= i < ts@.len() ==> final(store).has((#[trigger] ts@[i]).0) && self.is_state(
                    ts@[i].1.model(),
                ),
            forall|p: Pkt, r: CandState, x: Pkt|
                #![trigger listed(*final(store), ts@, p, r, x)]
                p.len() == old(store).n() && x.len() == old(store).n() ==> (listed(
                    *final(store),
                    ts@,
                    p,
                    r,
                    x,
                ) <==> r == CandState::Middle(
                    field_at(self.tbl(), self.top_node(), p, x),
                    identity(self.width()),
                )),
    {
        let ghost o = *store;
        let ghost n = o.n();
        let ghost ns = self.tbl();
        let ghost k = self.width();
        let nodes = self.bottom_nodes(store);
        let init = all_states(self.dfa.num_states());
        let mut ts: Vec<(SPP, State)> = Vec::new();
        let mut i: usize = 0;
        proof {
            o.lemma_wf();
        }
        while i < nodes.len()
            invariant
                o.wf(),
                store.wf(),
                store.extends(&o),
                self.wf(o),
                n == o.n(),
                ns == self.tbl(),
                k == self.width(),
                init@ == identity(k),
                i <= nodes@.len(),
                ts@.len() == i,
                forall|j: int|
                    0 <= j < i ==> store.has((#[trigger] ts@[j]).0) && ts@[j].1.model()
                        == CandState::Middle(nodes@[j], identity(k)),
                forall|j: int, p: Pkt, x: Pkt|
                    #![trigger store.rel(ts@[j].0, p, x)]
                    0 <= j < i && p.len() == n && x.len() == n ==> store.rel(ts@[j].0, p, x) == (
                    field_at(ns, self.top_node(), p, x) == nodes@[j]),
            decreases nodes.len() - i,
        {
            let ghost s1 = *store;
            let ghost ts1 = ts@;
            proof {
                self.lemma_wf_store(s1, o);
            }
            let y = self.spp_to(store, nodes[i]);
            ts.push((y, State::Middle(nodes[i], copy_states(&init))));
            proof {
                assert forall|j: int| 0 <= j < i + 1 implies store.has((#[trigger] ts@[j]).0)
                    && ts@[j].1.model() == CandState::Middle(nodes@[j], identity(k)) by {
                    if j < i {
                        assert(ts@[j] == ts1[j]);
                        assert(s1.has(ts1[j].0));
                    }
                }
                assert forall|j: int, p: Pkt, x: Pkt|
                    #![trigger store.rel(ts@[j].0, p, x)]
                    0 <= j < i + 1 && p.len() == n && x.len() == n implies store.rel(
                    ts@[j].0,
                    p,
                    x,
                ) == (field_at(ns, self.top_node(), p, x) == nodes@[j]) by {
                    if j < i {
                        assert(ts@[j] == ts1[j]);
                        assert(s1.has(ts1[j].0));
                        assert(s1.rel(ts1[j].0, p, x) == store.rel(ts1[j].0, p, x));
                    }
                }
            }
            i = i + 1;
        }
        proof {
            assert forall|p: Pkt, r: CandState, x: Pkt|
                #![trigger listed(*store, ts@, p, r, x)]
                p.len() == n && x.len() == n implies (listed(*store, ts@, p, r, x) <==> r
                == CandState::Middle(field_at(ns, self.top_node(), p, x), identity(k))) by {
                let z = field_at(ns, self.top_node(), p, x);
                if listed(*store, ts@, p, r, x) {
                    let j = choose|j: int|
                        0 <= j < ts@.len() && store.rel((#[trigger] ts@[j]).0, p, x)
                            && ts@[j].1.model() == r;
                    assert(nodes@[j] == z);
                }
                if r == CandState::Middle(z, identity(k)) {
                    assert(nodes@.contains(z));
                    let j = choose|j: int| 0 <= j < nodes@.len() && nodes@[j] == z;
                    assert(store.rel(ts@[j].0, p, x));
                    assert(ts@[j].1.model() == r);
                }
            }
            assert forall|j: int| 0 <= j < ts@.len() implies store.has((#[trigger] ts@[j]).0)
                && self.is_state(ts@[j].1.model()) by {
                assert(shape(ns, nodes@[j], 0, k, k));
            }
        }
        ts
    }

    /// A store that grows keeps the diagram.
    pub proof fn lemma_wf_store(&self, st: SPPstore, o: SPPstore)
        requires
            self.wf(o),
            st.extends(&o),
        ensures
            self.wf(st),
    {
        assert forall|i: int| 0 <= i < self.tbl().len() implies #[trigger] node_ok(
            st,
            self.tbl(),
            i,
        ) by {
            assert(node_ok(o, self.tbl(), i));
        }
    }

    /// What the candidate says is kept when the store grows.
    pub proof fn lemma_accepts_store(
        &self,
        st: SPPstore,
        o: SPPstore,
        p: Pkt,
        q: Pkt,
        v: Seq<usize>,
        r: Pkt,
        s: Pkt,
    )
        requires
            self.wf(o),
            st.extends(&o),
            readable(o, self.width(), o.n(), self.width(), p, q, v, r, s),
        ensures
            self.accepts(st, p, q, v, r, s) == self.accepts(o, p, q, v, r, s),
    {
        lemma_says_ext(
            o,
            st,
            self.tbl(),
            self.tbl(),
            self.top_node(),
            self.width(),
            p,
            q,
            v,
            r,
            s,
        );
    }

    /// What the candidate says of an input is kept when the store grows.
    pub proof fn lemma_takes_store(&self, st: SPPstore, o: SPPstore, x: Input)
        requires
            self.wf(o),
            st.extends(&o),
            input_ok(x, o.n(), self.width()),
        ensures
            self.takes(st, x) == self.takes(o, x),
    {
        self.lemma_accepts_store(
            st,
            o,
            x.pkt_in@,
            x.pkt_start@,
            x.states@,
            x.pkt_end@,
            x.pkt_out@,
        );
    }

    /// The steps after the first: every component takes one.
    fn next_steps(&self, store: &mut SPPstore, node: CandIdx, states: &Vec<usize>) -> (ts: Vec<
        (SPP, State),
    >)
        requires
            old(store).wf(),
            self.wf(*old(store)),
            self.dfa.valid(*old(store)),
            tuple_ok(states@, self.width()),
            shape(self.tbl(), node, 0, self.width(), self.width()),
        ensures
            final(store).wf(),
            final(store).extends(old(store)),
            forall|i: int|
                0 <= i < ts@.len() ==> final(store).has((#[trigger] ts@[i]).0) && self.is_state(
                    ts@[i].1.model(),
                ),
            forall|p: Pkt, r: CandState, x: Pkt|
                #![trigger listed(*final(store), ts@, p, r, x)]
                p.len() == old(store).n() && x.len() == old(store).n() ==> (listed(
                    *final(store),
                    ts@,
                    p,
                    r,
                    x,
                ) <==> (r matches CandState::Middle(m, u) && m == node && all_step(
                    *self.dfa,
                    *old(store),
                    states@,
                    p,
                    u,
                    x,
                ))),
    {
        let ghost o = *store;
        let ghost n = o.n();
        let ghost k = self.width();
        let exp = Exponential { inner: self.dfa };
        proof {
            assert(models(states@) =~= states@);
            assert forall|i: int| 0 <= i < states@.len() implies exp.inner.is_state(
                (#[trigger] states@[i]).model(),
            ) by {
                assert(states@[i] < k);
            }
        }
        let us = exp.transitions(store, states.as_slice());
        let ghost s1 = *store;
        proof {
            assert forall|p: Pkt, m: Seq<usize>, x: Pkt|
                p.len() == n && x.len() == n implies (#[trigger] listed(s1, us@, p, m, x)
                <==> all_step(*self.dfa, o, states@, p, m, x)) by {
                if listed(s1, us@, p, m, x) {
                    assert forall|i: int| 0 <= i < states@.len() implies #[trigger] one_step(
                        *self.dfa,
                        o,
                        states@,
                        p,
                        m,
                        x,
                        i,
                    ) by {
                        assert(part_steps(exp.inner, o, models(states@), p, m, x, i));
                    }
                }
                if all_step(*self.dfa, o, states@, p, m, x) {
                    assert forall|i: int| 0 <= i < states@.len() implies #[trigger] part_steps(
                        exp.inner,
                        o,
                        models(states@),
                        p,
                        m,
                        x,
                        i,
                    ) by {
                        assert(one_step(*self.dfa, o, states@, p, m, x, i));
                    }
                }
            }
        }
        let mut ts: Vec<(SPP, State)> = Vec::new();
        let mut i: usize = 0;
        while i < us.len()
            invariant
                o.wf(),
                s1 == *store,
                s1.wf(),
                s1.extends(&o),
                n == o.n(),
                k == self.width(),
                self.dfa.valid(o),
                tuple_ok(states@, k),
                shape(self.tbl(), node, 0, k, k),
                i <= us@.len(),
                forall|j: int| 0 <= j < us@.len() ==> s1.has((#[trigger] us@[j]).0),
                forall|p: Pkt, m: Seq<usize>, x: Pkt|
                    p.len() == n && x.len() == n ==> (#[trigger] listed(s1, us@, p, m, x)
                        <==> all_step(*self.dfa, o, states@, p, m, x)),
                forall|j: int|
                    0 <= j < ts@.len() ==> s1.has((#[trigger] ts@[j]).0) && self.is_state(
                        ts@[j].1.model(),
                    ),
                forall|p: Pkt, r: CandState, x: Pkt|
                    #![trigger listed(s1, ts@, p, r, x)]
                    p.len() == n && x.len() == n ==> (listed(s1, ts@, p, r, x) <==> (
                    r matches CandState::Middle(m, u) && m == node && listed(
                        s1,
                        us@.take(i as int),
                        p,
                        u,
                        x,
                    ))),
            decreases us.len() - i,
        {
            let ghost ts1 = ts@;
            let ghost e = us@[i as int];
            let ghost em = e.1@;
            proof {
                assert(s1.has(us@[i as int].0));
                s1.lemma_nonzero(e.0);
                assert(models(e.1@) =~= e.1@);
                assert(us@.take(i + 1) =~= us@.take(i as int).push(e));
            }
            if !store.is_zero(us[i].0) {
                ts.push((us[i].0, State::Middle(node, copy_states(&us[i].1))));
                proof {
                    let (p, x) = choose|p: Pkt, x: Pkt|
                        p.len() == n && x.len() == n && s1.rel(e.0, p, x);
                    assert(listed(s1, us@, p, em, x)) by {
                        assert(s1.rel(us@[i as int].0, p, x) && us@[i as int].1.model() == em);
                    }
                    assert(all_step(*self.dfa, o, states@, p, em, x));
                    self.dfa.lemma_states(o);
                    assert forall|j: int| 0 <= j < em.len() implies #[trigger] em[j] < k by {
                        assert(one_step(*self.dfa, o, states@, p, em, x, j));
                        assert(states@[j] < k);
                        assert(self.dfa.is_state(em[j]));
                    }
                    let t = ts@[ts1.len() as int];
                    assert(t.1.model() == CandState::Middle(node, em));
                    assert(self.is_state(t.1.model()));
                    assert forall|j: int| 0 <= j < ts@.len() implies s1.has((#[trigger] ts@[j]).0)
                        && self.is_state(ts@[j].1.model()) by {
                        if j < ts1.len() {
                            assert(ts@[j] == ts1[j]);
                        }
                    }
                }
            }
            proof {
                assert forall|p: Pkt, r: CandState, x: Pkt|
                    #![trigger listed(s1, ts@, p, r, x)]
                    p.len() == n && x.len() == n implies (listed(s1, ts@, p, r, x) <==> (
                r matches CandState::Middle(m, u) && m == node && listed(
                    s1,
                    us@.take(i + 1),
                    p,
                    u,
                    x,
                ))) by {
                    assert(listed(s1, ts1, p, r, x) <==> (r matches CandState::Middle(m, u) && m
                        == node && listed(s1, us@.take(i as int), p, u, x)));
                    if r is Middle {
                        let u = r->Middle_1;
                        lemma_listed_push(s1, us@.take(i as int), e, p, u, x);
                    }
                    if ts@.len() > ts1.len() {
                        let t = ts@[ts1.len() as int];
                        assert(ts@ =~= ts1.push(t));
                        lemma_listed_push(s1, ts1, t, p, r, x);
                        assert(t.1.model() == CandState::Middle(node, em));
                    } else {
                        assert(ts@ =~= ts1);
                        assert(!s1.rel(e.0, p, x));
                    }
                }
            }
            i = i + 1;
        }
        proof {
            assert(us@.take(i as int) =~= us@);
        }
        ts
    }
}

proof fn lemma_same_depth(ns: Seq<Choice>, i: CandIdx, f: nat, s: nat, g: nat, t: nat, k: nat)
    requires
        shape(ns, i, f, s, k),
        shape(ns, i, g, t, k),
    ensures
        f == g,
    decreases f,
{
    if f > 0 && g > 0 {
        let c = field_child(ns[i as int], false, false);
        lemma_same_depth(ns, c, (f - 1) as nat, s, (g - 1) as nat, t, k);
    }
}

impl<'a> ENFA for Cand<'a> {
    type State = State;

    open spec fn valid(&self, st: SPPstore) -> bool {
        &&& self.wf(st)
        &&& self.dfa.valid(st)
    }

    open spec fn is_state(&self, q: CandState) -> bool {
        match q {
            CandState::Start => true,
            CandState::Middle(m, v) => shape(self.tbl(), m, 0, self.width(), self.width())
                && tuple_ok(v, self.width()),
        }
    }

    open spec fn init(&self) -> CandState {
        CandState::Start
    }

    open spec fn vis(&self, q: CandState) -> bool {
        true
    }

    open spec fn step(&self, st: SPPstore, q: CandState, p: Pkt, r: CandState, x: Pkt) -> bool {
        match q {
            CandState::Start => r == CandState::Middle(
                field_at(self.tbl(), self.top_node(), p, x),
                identity(self.width()),
            ),
            CandState::Middle(m, v) => r matches CandState::Middle(l, u) && l == m && all_step(
                *self.dfa,
                st,
                v,
                p,
                u,
                x,
            ),
        }
    }

    open spec fn out(&self, st: SPPstore, q: CandState, p: Pkt, x: Pkt) -> bool {
        match q {
            CandState::Start => false,
            CandState::Middle(m, v) => st.rel(
                root_at(self.tbl(), state_at(self.tbl(), m, v)),
                p,
                x,
            ),
        }
    }

    proof fn lemma_valid(&self, st: SPPstore, o: SPPstore) {
        self.lemma_wf_store(st, o);
        self.dfa.lemma_valid(st, o);
        let k = self.width();
        assert forall|q: CandState, p: Pkt, r: CandState, x: Pkt|
            #![trigger self.step(st, q, p, r, x)]
            #![trigger self.step(o, q, p, r, x)]
            self.is_state(q) && p.len() == o.n() && x.len() == o.n() implies self.step(
            st,
            q,
            p,
            r,
            x,
        ) == self.step(o, q, p, r, x) by {
            if q is Middle && r is Middle {
                let v = q->Middle_1;
                let u = r->Middle_1;
                assert forall|i: int| 0 <= i < v.len() implies #[trigger] one_step(
                    *self.dfa,
                    st,
                    v,
                    p,
                    u,
                    x,
                    i,
                ) == one_step(*self.dfa, o, v, p, u, x, i) by {
                    assert(v[i] < k);
                    assert(self.dfa.step(st, v[i], p, u[i], x) == self.dfa.step(
                        o,
                        v[i],
                        p,
                        u[i],
                        x,
                    ));
                }
                if all_step(*self.dfa, st, v, p, u, x) {
                    assert forall|i: int| 0 <= i < v.len() implies #[trigger] one_step(
                        *self.dfa,
                        o,
                        v,
                        p,
                        u,
                        x,
                        i,
                    ) by {
                        assert(one_step(*self.dfa, st, v, p, u, x, i));
                    }
                }
                if all_step(*self.dfa, o, v, p, u, x) {
                    assert forall|i: int| 0 <= i < v.len() implies #[trigger] one_step(
                        *self.dfa,
                        st,
                        v,
                        p,
                        u,
                        x,
                        i,
                    ) by {
                        assert(one_step(*self.dfa, o, v, p, u, x, i));
                    }
                }
            }
        }
        assert forall|q: CandState, p: Pkt, x: Pkt|
            #![trigger self.out(st, q, p, x)]
            #![trigger self.out(o, q, p, x)]
            self.is_state(q) && p.len() == o.n() && x.len() == o.n() implies self.out(st, q, p, x)
            == self.out(o, q, p, x) by {
            if q is Middle {
                let m = q->Middle_0;
                let v = q->Middle_1;
                lemma_state_at(self.tbl(), m, k, v);
                let z = state_at(self.tbl(), m, v);
                assert(node_ok(o, self.tbl(), z as int));
                assert(o.has(root_at(self.tbl(), z)));
            }
        }
    }

    proof fn lemma_states(&self, st: SPPstore) {
        let k = self.width();
        self.dfa.lemma_states(st);
        assert forall|q: CandState, p: Pkt, r: CandState, x: Pkt| #[trigger]
            self.step(st, q, p, r, x) && self.is_state(q) && p.len() == st.n() && x.len()
                == st.n() implies self.is_state(r) by {
            match q {
                CandState::Start => {
                    lemma_field_at(self.tbl(), self.top_node(), k, k, p, x);
                    let v = identity(k);
                    assert forall|i: int| 0 <= i < v.len() implies #[trigger] v[i] < k by {
                        assert(k == self.dfa.transitions.len());
                    }
                },
                CandState::Middle(m, v) => {
                    let u = r->Middle_1;
                    assert forall|i: int| 0 <= i < u.len() implies #[trigger] u[i] < k by {
                        assert(one_step(*self.dfa, st, v, p, u, x, i));
                        assert(v[i] < k);
                        assert(self.dfa.is_state(u[i]));
                    }
                },
            }
        }
    }

    fn start(&self, store: &mut SPPstore) -> (q: State) {
        proof {
            store.lemma_wf();
        }
        let q = State::Start;
        assert(q.model() == CandState::Start);
        q
    }

    fn is_visible(&self, store: &mut SPPstore, q: &State) -> (b: bool) {
        proof {
            store.lemma_wf();
        }
        true
    }

    fn transitions(&self, store: &mut SPPstore, q: &State) -> (ts: Vec<(SPP, State)>) {
        match q {
            State::Start => self.first_steps(store),
            State::Middle(m, v) => {
                assert(q.model() == CandState::Middle(*m, v@));
                self.next_steps(store, *m, v)
            },
        }
    }

    fn output(&self, store: &mut SPPstore, q: &State) -> (y: SPP) {
        proof {
            store.lemma_wf();
        }
        match q {
            State::Start => store.zero,
            State::Middle(m, v) => {
                assert(q.model() == CandState::Middle(*m, v@));
                let z = self.follow_states(*m, v, Ghost(*store));
                match self.get_node(z) {
                    CandNode::Root(s) => {
                        proof {
                            assert(node_ok(*store, self.tbl(), z as int));
                        }
                        *s
                    },
                    _ => {
                        assert(false);
                        store.zero
                    },
                }
            },
        }
    }
}

impl<'a> NFA for Cand<'a> {
    proof fn lemma_visible(&self) {
    }
}

/// A tuple goes to one tuple only.
pub proof fn lemma_step_unique(
    dfa: ExplicitDFA,
    st: SPPstore,
    v: Seq<usize>,
    p: Pkt,
    u: Seq<usize>,
    y: Seq<usize>,
    x: Pkt,
)
    requires
        st.wf(),
        dfa.valid(st),
        tuple_ok(v, dfa.transitions@.len()),
        p.len() == st.n(),
        x.len() == st.n(),
        all_step(dfa, st, v, p, u, x),
        all_step(dfa, st, v, p, y, x),
    ensures
        u == y,
{
    dfa.lemma_deterministic(st);
    assert forall|i: int| 0 <= i < v.len() implies u[i] == y[i] by {
        assert(v[i] < dfa.transitions@.len());
        assert(one_step(dfa, st, v, p, u, x, i));
        assert(one_step(dfa, st, v, p, y, x, i));
        assert(dfa.step(st, v[i], p, u[i], x) && dfa.step(st, v[i], p, y[i], x));
    }
    assert(u =~= y);
}

impl<'a> DFA for Cand<'a> {
    proof fn lemma_deterministic(&self, st: SPPstore) {
        assert forall|q: CandState, p: Pkt, r: CandState, s: CandState, x: Pkt|
            #![trigger self.step(st, q, p, r, x), self.step(st, q, p, s, x)]
            self.is_state(q) && p.len() == st.n() && x.len() == st.n() && self.step(
                st,
                q,
                p,
                r,
                x,
            ) && self.step(st, q, p, s, x) implies r == s by {
            if q is Middle {
                lemma_step_unique(
                    *self.dfa,
                    st,
                    q->Middle_1,
                    p,
                    r->Middle_1,
                    s->Middle_1,
                    x,
                );
            }
        }
    }
}

impl<'a> Cand<'a> {
    proof fn lemma_middle(&self, st: SPPstore, m: CandIdx, v: Seq<usize>, w: Word)
        requires
            w.len() >= 2,
        ensures
            nfa_word(self, st, CandState::Middle(m, v), w) <==> exists|u: Seq<usize>| #[trigger]
                evolves(*self.dfa, st, v, w.drop_last(), u) && st.rel(
                    root_at(self.tbl(), state_at(self.tbl(), m, u)),
                    w[w.len() - 2],
                    w.last(),
                ),
        decreases w.len(),
    {
        let q = CandState::Middle(m, v);
        let t = w.drop_last();
        if w.len() == 2 {
            assert(t.len() == 1);
            assert(evolves(*self.dfa, st, v, t, v));
            assert(w.last() == w[1]);
        } else {
            let w1 = w.skip(1);
            let t1 = t.skip(1);
            assert(w1.drop_last() =~= t1);
            assert(w1[w1.len() - 2] == w[w.len() - 2] && w1.last() == w.last());
            assert(t[0] == w[0] && t[1] == w[1]);
            if nfa_word(self, st, q, w) {
                let r = choose|r: CandState| #[trigger]
                    self.step(st, q, w[0], r, w[1]) && nfa_word(self, st, r, w1);
                let y = r->Middle_1;
                self.lemma_middle(st, m, y, w1);
                let u = choose|u: Seq<usize>| #[trigger]
                    evolves(*self.dfa, st, y, t1, u) && st.rel(
                        root_at(self.tbl(), state_at(self.tbl(), m, u)),
                        w1[w1.len() - 2],
                        w1.last(),
                    );
                assert(all_step(*self.dfa, st, v, t[0], y, t[1]));
                assert(evolves(*self.dfa, st, v, t, u));
            }
            if exists|u: Seq<usize>| #[trigger]
                evolves(*self.dfa, st, v, t, u) && st.rel(
                    root_at(self.tbl(), state_at(self.tbl(), m, u)),
                    w[w.len() - 2],
                    w.last(),
                ) {
                let u = choose|u: Seq<usize>| #[trigger]
                    evolves(*self.dfa, st, v, t, u) && st.rel(
                        root_at(self.tbl(), state_at(self.tbl(), m, u)),
                        w[w.len() - 2],
                        w.last(),
                    );
                let y = choose|y: Seq<usize>| #[trigger]
                    all_step(*self.dfa, st, v, t[0], y, t[1]) && evolves(
                        *self.dfa,
                        st,
                        y,
                        t1,
                        u,
                    );
                self.lemma_middle(st, m, y, w1);
                assert(evolves(*self.dfa, st, y, t1, u));
                let r = CandState::Middle(m, y);
                assert(self.step(st, q, w[0], r, w[1]));
                assert(nfa_word(self, st, r, w1));
            }
        }
    }

    /// The words of a candidate: at least one packet is recorded, and the candidate
    /// accepts the packet that enters, the first recorded one, the states after all
    /// of them, the last of them and the packet that leaves.
    pub proof fn law_cand(&self, st: SPPstore, w: Word)
        requires
            is_word(st.n(), w),
        ensures
            enfa_lang(self, st)(w) <==> w.len() >= 3 && exists|u: Seq<usize>| #[trigger]
                evolves(
                    *self.dfa,
                    st,
                    identity(self.width()),
                    w.skip(1).drop_last(),
                    u,
                ) && self.accepts(st, w[0], w[1], u, w[w.len() - 2], w.last()),
    {
        self.lemma_visible();
        lemma_nfa_word(self, st, CandState::Start, w);
        let k = self.width();
        if w.len() >= 3 {
            let m = field_at(self.tbl(), self.top_node(), w[0], w[1]);
            let q = CandState::Middle(m, identity(k));
            let w1 = w.skip(1);
            self.lemma_middle(st, m, identity(k), w1);
            assert(w1[w1.len() - 2] == w[w.len() - 2] && w1.last() == w.last());
            if nfa_word(self, st, CandState::Start, w) {
                let r = choose|r: CandState| #[trigger]
                    self.step(st, CandState::Start, w[0], r, w[1]) && nfa_word(self, st, r, w1);
                assert(r == q);
                let u = choose|u: Seq<usize>| #[trigger]
                    evolves(*self.dfa, st, identity(k), w1.drop_last(), u) && st.rel(
                        root_at(self.tbl(), state_at(self.tbl(), m, u)),
                        w1[w1.len() - 2],
                        w1.last(),
                    );
                assert(self.accepts(st, w[0], w[1], u, w[w.len() - 2], w.last()));
            }
            if exists|u: Seq<usize>| #[trigger]
                evolves(*self.dfa, st, identity(k), w1.drop_last(), u) && self.accepts(
                    st,
                    w[0],
                    w[1],
                    u,
                    w[w.len() - 2],
                    w.last(),
                ) {
                let u = choose|u: Seq<usize>| #[trigger]
                    evolves(*self.dfa, st, identity(k), w1.drop_last(), u) && self.accepts(
                        st,
                        w[0],
                        w[1],
                        u,
                        w[w.len() - 2],
                        w.last(),
                    );
                assert(st.rel(
                    root_at(self.tbl(), state_at(self.tbl(), m, u)),
                    w1[w1.len() - 2],
                    w1.last(),
                ));
                assert(nfa_word(self, st, q, w1));
                assert(self.step(st, CandState::Start, w[0], q, w[1]));
            }
        }
    }
}

} // verus!
