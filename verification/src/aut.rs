//! Automata whose states are NetKAT expressions.
//!
//! A state is the index of a hash-consed expression.  Its language is read off
//! by derivatives: [`Aut::epsilon`] gives the single steps of a state, and
//! [`Aut::delta`] the states that it goes on in after a recorded packet.
use std::collections::{HashMap, HashSet};
use vstd::prelude::*;
use vstd::std_specs::iter::IteratorSpec;
use vstd::string::*;
use crate::expr::Expr;
use crate::kleene::{
    edges_of, exits_of, flows, hop, lemma_flows_exit, lemma_flows_same, lemma_flows_step, row_ok,
    rows_ok, solve, walk, Edges, Exits,
};
use crate::lang::{
    after, back, cat, closed_over, cons, cut, front, is_word, lang, lemma_cat_assoc, lemma_cat_cons,
    lemma_cat_same, lemma_cat_step, lemma_cat_unit, lemma_cons, lemma_next_same, lemma_parts,
    lemma_star_cons, lemma_star_same_lang, lemma_star_star, lemma_star_step, lemma_uncons,
    lemma_until_cons, lemma_until_same, lemma_until_step, next, once, packets, pair, pow, same,
    star, star_tail, steps_of, unit, until, Lang, Word,
};
use crate::sp::{Pkt, SP};
use crate::text::{decimal, join2, join3, join5, number};
use crate::spp::{lemma_star_same, random_bits, star_of, SPPstore, SPP};

verus! {

/// The index of an expression in the table of an [`Aut`].
pub type State = usize;

/// The expression of a state, whose parts are states again.
#[derive(Debug)]
pub enum AExpr {
    /// One step of a relation.
    SPP(SPP),
    Union(Vec<State>),
    Intersect(Vec<State>),
    Xor(State, State),
    Difference(State, State),
    Complement(State),
    Sequence(State, State),
    Star(State),
    Dup,
    LtlNext(State),
    LtlUntil(State, State),
    /// Every word.
    Top,
}

/// The expression of a state as a mathematical value.
pub enum Node {
    SPP(SPP),
    Union(Seq<State>),
    Intersect(Seq<State>),
    Xor(State, State),
    Difference(State, State),
    Complement(State),
    Sequence(State, State),
    Star(State),
    Dup,
    LtlNext(State),
    LtlUntil(State, State),
    Top,
}

impl View for AExpr {
    type V = Node;

    open spec fn view(&self) -> Node {
        match *self {
            AExpr::SPP(s) => Node::SPP(s),
            AExpr::Union(v) => Node::Union(v@),
            AExpr::Intersect(v) => Node::Intersect(v@),
            AExpr::Xor(a, b) => Node::Xor(a, b),
            AExpr::Difference(a, b) => Node::Difference(a, b),
            AExpr::Complement(a) => Node::Complement(a),
            AExpr::Sequence(a, b) => Node::Sequence(a, b),
            AExpr::Star(a) => Node::Star(a),
            AExpr::Dup => Node::Dup,
            AExpr::LtlNext(a) => Node::LtlNext(a),
            AExpr::LtlUntil(a, b) => Node::LtlUntil(a, b),
            AExpr::Top => Node::Top,
        }
    }
}

/// Whether two lists of states are the same.
pub(crate) fn same_states(a: &Vec<State>, b: &Vec<State>) -> (r: bool)
    ensures
        r == (a@ == b@),
{
    if a.len() != b.len() {
        return false;
    }
    let mut i: usize = 0;
    while i < a.len()
        invariant
            a@.len() == b@.len(),
            i <= a@.len(),
            forall|j: int| 0 <= j < i ==> a@[j] == b@[j],
        decreases a.len() - i,
    {
        if a[i] != b[i] {
            assert(a@[i as int] != b@[i as int]);
            return false;
        }
        i = i + 1;
    }
    assert(a@ =~= b@);
    true
}

/// The same states.
pub(crate) fn copy_states(v: &Vec<State>) -> (r: Vec<State>)
    ensures
        r@ == v@,
{
    let mut r: Vec<State> = Vec::new();
    let mut i: usize = 0;
    while i < v.len()
        invariant
            i <= v@.len(),
            r@ == v@.take(i as int),
        decreases v.len() - i,
    {
        r.push(v[i]);
        i = i + 1;
        assert(v@.take(i as int) =~= v@.take(i - 1).push(v@[i - 1]));
    }
    assert(v@.take(i as int) =~= v@);
    r
}

/// The states of a list in increasing order, each once.
pub(crate) fn sorted_states(v: &Vec<State>) -> (r: Vec<State>)
    ensures
        forall|i: int, j: int| #![trigger r@[i], r@[j]] 0 <= i < j < r@.len() ==> r@[i] < r@[j],
        forall|x: State| #[trigger] r@.contains(x) <==> v@.contains(x),
{
    let mut r: Vec<State> = Vec::new();
    let mut i: usize = 0;
    while i < v.len()
        invariant
            i <= v@.len(),
            forall|a: int, b: int| #![trigger r@[a], r@[b]] 0 <= a < b < r@.len() ==> r@[a] < r@[b],
            forall|x: State| #[trigger] r@.contains(x) <==> v@.take(i as int).contains(x),
        decreases v.len() - i,
    {
        let x = v[i];
        let mut j: usize = 0;
        while j < r.len() && r[j] < x
            invariant
                j <= r@.len(),
                forall|a: int| 0 <= a < j ==> r@[a] < x,
            decreases r.len() - j,
        {
            j = j + 1;
        }
        let ghost r0 = r@;
        proof {
            let t0 = v@.take(i as int);
            let t1 = v@.take(i + 1);
            assert(t1 =~= t0.push(x));
            assert forall|y: State| #[trigger] t1.contains(y) <==> t0.contains(y) || y == x by {
                if t0.contains(y) {
                    let k = choose|k: int| 0 <= k < t0.len() && t0[k] == y;
                    assert(t1[k] == y);
                }
                if y == x {
                    assert(t1[i as int] == x);
                }
                if t1.contains(y) && y != x {
                    let k = choose|k: int| 0 <= k < t1.len() && t1[k] == y;
                    assert(t0[k] == y);
                }
            }
        }
        if j < r.len() && r[j] == x {
            assert(r0.contains(x)) by {
                assert(r0[j as int] == x);
            }
        } else {
            r.insert(j, x);
            proof {
                assert forall|y: State| #[trigger] r@.contains(y) <==> r0.contains(y) || y == x by {
                    if r0.contains(y) {
                        let k = choose|k: int| 0 <= k < r0.len() && r0[k] == y;
                        if k < j {
                            assert(r@[k] == y);
                        } else {
                            assert(r@[k + 1] == y);
                        }
                    }
                    if y == x {
                        assert(r@[j as int] == x);
                    }
                    if r@.contains(y) && y != x {
                        let k = choose|k: int| 0 <= k < r@.len() && r@[k] == y;
                        if k < j {
                            assert(r0[k] == y);
                        } else {
                            assert(r0[k - 1] == y);
                        }
                    }
                }
            }
        }
        i = i + 1;
    }
    assert(v@.take(i as int) =~= v@);
    r
}

impl AExpr {
    fn is(&self, o: &AExpr) -> (r: bool)
        ensures
            r == (self@ == o@),
    {
        match (self, o) {
            (AExpr::SPP(a), AExpr::SPP(b)) => *a == *b,
            (AExpr::Union(a), AExpr::Union(b)) => same_states(a, b),
            (AExpr::Intersect(a), AExpr::Intersect(b)) => same_states(a, b),
            (AExpr::Xor(a, b), AExpr::Xor(c, d)) => *a == *c && *b == *d,
            (AExpr::Difference(a, b), AExpr::Difference(c, d)) => *a == *c && *b == *d,
            (AExpr::Complement(a), AExpr::Complement(b)) => *a == *b,
            (AExpr::Sequence(a, b), AExpr::Sequence(c, d)) => *a == *c && *b == *d,
            (AExpr::Star(a), AExpr::Star(b)) => *a == *b,
            (AExpr::Dup, AExpr::Dup) => true,
            (AExpr::LtlNext(a), AExpr::LtlNext(b)) => *a == *b,
            (AExpr::LtlUntil(a, b), AExpr::LtlUntil(c, d)) => *a == *c && *b == *d,
            (AExpr::Top, AExpr::Top) => true,
            _ => false,
        }
    }

    fn copy(&self) -> (r: AExpr)
        ensures
            r@ == self@,
    {
        match self {
            AExpr::SPP(a) => AExpr::SPP(*a),
            AExpr::Union(a) => AExpr::Union(copy_states(a)),
            AExpr::Intersect(a) => AExpr::Intersect(copy_states(a)),
            AExpr::Xor(a, b) => AExpr::Xor(*a, *b),
            AExpr::Difference(a, b) => AExpr::Difference(*a, *b),
            AExpr::Complement(a) => AExpr::Complement(*a),
            AExpr::Sequence(a, b) => AExpr::Sequence(*a, *b),
            AExpr::Star(a) => AExpr::Star(*a),
            AExpr::Dup => AExpr::Dup,
            AExpr::LtlNext(a) => AExpr::LtlNext(*a),
            AExpr::LtlUntil(a, b) => AExpr::LtlUntil(*a, *b),
            AExpr::Top => AExpr::Top,
        }
    }
}

// ---- languages of states ---------------------------------------------------------

/// The parts of a node are states below `s`.
pub open spec fn below(node: Node, s: int) -> bool {
    match node {
        Node::Union(v) => forall|i: int| 0 <= i < v.len() ==> #[trigger] v[i] < s,
        Node::Intersect(v) => forall|i: int| 0 <= i < v.len() ==> #[trigger] v[i] < s,
        Node::Xor(a, b) => a < s && b < s,
        Node::Difference(a, b) => a < s && b < s,
        Node::Complement(a) => a < s,
        Node::Sequence(a, b) => a < s && b < s,
        Node::Star(a) => a < s,
        Node::LtlNext(a) => a < s,
        Node::LtlUntil(a, b) => a < s && b < s,
        _ => true,
    }
}

/// Some language of the list has the word.
pub open spec fn any(ls: Seq<Lang>, w: Word) -> bool {
    exists|i: int| 0 <= i < ls.len() && (#[trigger] ls[i])(w)
}

/// Every language of the list has the word.
pub open spec fn every(ls: Seq<Lang>, w: Word) -> bool {
    forall|i: int| 0 <= i < ls.len() ==> (#[trigger] ls[i])(w)
}

/// The language of state `s` of a table.
pub open spec fn state_lang(tbl: Seq<Node>, st: SPPstore, s: State) -> Lang
    decreases s, 1nat,
{
    if s >= tbl.len() || !below(tbl[s as int], s as int) {
        |w: Word| false
    } else {
        match tbl[s as int] {
            Node::SPP(x) => once(st.fun(x)),
            Node::Union(v) => |w: Word| any(part_langs(tbl, st, s, v), w),
            Node::Intersect(v) => |w: Word| every(part_langs(tbl, st, s, v), w),
            Node::Xor(a, b) => |w: Word|
                state_lang(tbl, st, a)(w) != state_lang(tbl, st, b)(w),
            Node::Difference(a, b) => |w: Word|
                state_lang(tbl, st, a)(w) && !state_lang(tbl, st, b)(w),
            Node::Complement(a) => |w: Word| !state_lang(tbl, st, a)(w),
            Node::Sequence(a, b) => cat(
                st.n(),
                state_lang(tbl, st, a),
                state_lang(tbl, st, b),
            ),
            Node::Star(a) => star(st.n(), state_lang(tbl, st, a)),
            Node::Dup => |w: Word| w.len() == 3 && w[0] == w[1] && w[1] == w[2],
            Node::LtlNext(a) => next(state_lang(tbl, st, a)),
            Node::LtlUntil(a, b) => until(state_lang(tbl, st, a), state_lang(tbl, st, b)),
            Node::Top => |w: Word| true,
        }
    }
}

/// The languages of a list of states below `s`.
pub open spec fn part_langs(tbl: Seq<Node>, st: SPPstore, s: State, v: Seq<State>) -> Seq<Lang>
    decreases s, 0nat,
{
    Seq::new(
        v.len(),
        |i: int|
            if 0 <= i < v.len() && v[i] < s {
                state_lang(tbl, st, v[i])
            } else {
                |w: Word| false
            },
    )
}

/// A node that may stand in a table at `s`.
pub open spec fn node_ok(st: &SPPstore, node: Node, s: int) -> bool {
    &&& below(node, s)
    &&& node matches Node::SPP(x) ==> st.has(x)
}

/// Every part of a node comes before it, and no node occurs twice.
#[verifier::opaque]
pub open spec fn table_ok(tbl: Seq<Node>, st: &SPPstore) -> bool {
    &&& tbl.len() <= usize::MAX
    &&& forall|i: int| 0 <= i < tbl.len() ==> node_ok(st, #[trigger] tbl[i], i)
    &&& forall|i: int, j: int|
        #![trigger tbl[i], tbl[j]]
        0 <= i < tbl.len() && 0 <= j < tbl.len() && tbl[i] == tbl[j] ==> i == j
}

/// Table `b` is table `a` with nodes added at the end.
pub open spec fn table_ext(a: Seq<Node>, b: Seq<Node>) -> bool {
    &&& a.len() <= b.len()
    &&& forall|i: int| 0 <= i < a.len() ==> a[i] == #[trigger] b[i]
}

proof fn lemma_lang_ext(a: Seq<Node>, st: SPPstore, b: Seq<Node>, st2: SPPstore, s: State)
    requires
        table_ok(a, &st),
        table_ext(a, b),
        st2.extends(&st),
        s < a.len(),
    ensures
        same(st.n(), state_lang(a, st, s), state_lang(b, st2, s)),
    decreases s,
{
    reveal(table_ok);
    reveal_with_fuel(part_langs, 2);
    reveal_with_fuel(state_lang, 2);
    let n = st.n();
    assert(a[s as int] == b[s as int]);
    assert(node_ok(&st, a[s as int], s as int));
    let la = state_lang(a, st, s);
    let lb = state_lang(b, st2, s);
    match a[s as int] {
        Node::SPP(x) => {
            assert forall|w: Word| is_word(n, w) implies la(w) == lb(w) by {
                assert(st.fun(x)(w[0], w[1]) == st.rel(x, w[0], w[1]));
                assert(st2.fun(x)(w[0], w[1]) == st2.rel(x, w[0], w[1]));
            }
        },
        Node::Union(v) => {
            let fs = part_langs(a, st, s, v);
            let gs = part_langs(b, st2, s, v);
            assert forall|i: int| 0 <= i < v.len() implies same(n, #[trigger] fs[i], gs[i]) by {
                lemma_lang_ext(a, st, b, st2, v[i]);
            }
            assert forall|w: Word| is_word(n, w) implies any(fs, w) == any(gs, w) by {
                if any(fs, w) {
                    let i = choose|i: int| 0 <= i < fs.len() && (#[trigger] fs[i])(w);
                    assert(gs[i](w));
                }
                if any(gs, w) {
                    let i = choose|i: int| 0 <= i < gs.len() && (#[trigger] gs[i])(w);
                    assert(same(n, fs[i], gs[i]));
                    assert(fs[i](w));
                }
            }
        },
        Node::Intersect(v) => {
            let fs = part_langs(a, st, s, v);
            let gs = part_langs(b, st2, s, v);
            assert forall|i: int| 0 <= i < v.len() implies same(n, #[trigger] fs[i], gs[i]) by {
                lemma_lang_ext(a, st, b, st2, v[i]);
            }
            assert forall|w: Word| is_word(n, w) implies every(fs, w) == every(gs, w) by {
                if every(fs, w) {
                    assert forall|i: int| 0 <= i < gs.len() implies (#[trigger] gs[i])(w) by {
                        assert(same(n, fs[i], gs[i]));
                        assert(fs[i](w));
                    }
                }
                if every(gs, w) {
                    assert forall|i: int| 0 <= i < fs.len() implies (#[trigger] fs[i])(w) by {
                        assert(same(n, fs[i], gs[i]));
                        assert(gs[i](w));
                    }
                }
            }
        },
        Node::Xor(x, y) => {
            lemma_lang_ext(a, st, b, st2, x);
            lemma_lang_ext(a, st, b, st2, y);
        },
        Node::Difference(x, y) => {
            lemma_lang_ext(a, st, b, st2, x);
            lemma_lang_ext(a, st, b, st2, y);
        },
        Node::Complement(x) => {
            lemma_lang_ext(a, st, b, st2, x);
        },
        Node::Sequence(x, y) => {
            lemma_lang_ext(a, st, b, st2, x);
            lemma_lang_ext(a, st, b, st2, y);
            lemma_cat_same(
                n,
                state_lang(a, st, x),
                state_lang(a, st, y),
                state_lang(b, st2, x),
                state_lang(b, st2, y),
            );
        },
        Node::Star(x) => {
            lemma_lang_ext(a, st, b, st2, x);
            lemma_star_same_lang(n, state_lang(a, st, x), state_lang(b, st2, x));
        },
        Node::LtlNext(x) => {
            lemma_lang_ext(a, st, b, st2, x);
            lemma_next_same(n, state_lang(a, st, x), state_lang(b, st2, x));
        },
        Node::LtlUntil(x, y) => {
            lemma_lang_ext(a, st, b, st2, x);
            lemma_lang_ext(a, st, b, st2, y);
            lemma_until_same(
                n,
                state_lang(a, st, x),
                state_lang(a, st, y),
                state_lang(b, st2, x),
                state_lang(b, st2, y),
            );
        },
        _ => {},
    }
}

// ---- transitions -----------------------------------------------------------------

/// The list has exactly the entries of the map, each once.
pub open spec fn lists(es: Seq<(State, SPP)>, m: Map<State, SPP>) -> bool {
    &&& forall|i: int|
        0 <= i < es.len() ==> m.contains_key((#[trigger] es[i]).0) && m[es[i].0] == es[i].1
    &&& forall|k: State| #[trigger]
        m.contains_key(k) ==> exists|i: int| 0 <= i < es.len() && (#[trigger] es[i]).0 == k
    &&& forall|i: int, j: int|
        #![trigger es[i], es[j]]
        0 <= i < j < es.len() ==> es[i].0 != es[j].0
}

/// Symbolic transitions: for every state, the pairs of packets that lead to it.
#[derive(Debug)]
pub struct ST {
    transitions: HashMap<State, SPP>,
}

impl View for ST {
    type V = Map<State, SPP>;

    closed spec fn view(&self) -> Map<State, SPP> {
        self.transitions@
    }
}

impl ST {
    /// The given transitions.
    pub fn new(transitions: HashMap<State, SPP>) -> (st: ST)
        ensures
            st@ == transitions@,
    {
        ST { transitions }
    }

    /// No transitions.
    pub fn empty() -> (st: ST)
        ensures
            st@ == Map::<State, SPP>::empty(),
    {
        ST { transitions: HashMap::new() }
    }

    /// The transitions as a map.
    pub fn get_transitions(&self) -> (m: &HashMap<State, SPP>)
        ensures
            m@ == self@,
    {
        &self.transitions
    }

    /// The transitions as a list.
    pub fn entries(&self) -> (v: Vec<(State, SPP)>)
        ensures
            lists(v@, self@),
    {
        let mut v: Vec<(State, SPP)> = Vec::new();
        let iter = self.transitions.iter();
        let ghost rem = iter.remaining();
        let ghost m = self.transitions@;
        proof {
            assert(rem == self.transitions.iter().remaining());
            assert(rem.no_duplicates());
        }
        for kv in it: iter
            invariant
                it.seq() == rem,
                v@.len() == it.index(),
                forall|i: int| 0 <= i < v@.len() ==> (#[trigger] v@[i]) == (*rem[i].0, *rem[i].1),
        {
            v.push((*kv.0, *kv.1));
        }
        proof {
            assert forall|i: int| 0 <= i < v@.len() implies m.contains_key((#[trigger] v@[i]).0)
                && m[v@[i].0] == v@[i].1 by {
                assert(m.contains_key(*rem[i].0));
            }
            assert forall|k: State| #[trigger] m.contains_key(k) implies exists|i: int|
                0 <= i < v@.len() && (#[trigger] v@[i]).0 == k by {
                assert(rem.contains((&k, &m[k])));
                let i = choose|i: int| 0 <= i < rem.len() && rem[i] == (&k, &m[k]);
                assert(v@[i].0 == k);
            }
            assert forall|i: int, j: int|
                #![trigger v@[i], v@[j]]
                0 <= i < j < v@.len() implies v@[i].0 != v@[j].0 by {
                assert(m.contains_key(*rem[i].0));
                assert(m.contains_key(*rem[j].0));
                assert(rem[i] != rem[j]);
            }
        }
        v
    }

    /// The same transitions.
    pub fn copy(&self) -> (r: ST)
        ensures
            r@ == self@,
    {
        let es = self.entries();
        let mut m: HashMap<State, SPP> = HashMap::new();
        let mut i: usize = 0;
        while i < es.len()
            invariant
                lists(es@, self@),
                i <= es@.len(),
                forall|k: State| #[trigger]
                    m@.contains_key(k) <==> exists|j: int|
                        0 <= j < i && (#[trigger] es@[j]).0 == k,
                forall|k: State| #[trigger] m@.contains_key(k) ==> m@[k] == self@[k],
            decreases es.len() - i,
        {
            let (k, x) = es[i];
            let ghost m0 = m@;
            m.insert(k, x);
            proof {
                assert forall|y: State| #[trigger] m@.contains_key(y) <==> exists|j: int|
                    0 <= j < i + 1 && (#[trigger] es@[j]).0 == y by {
                    if m0.contains_key(y) {
                        let j = choose|j: int| 0 <= j < i && (#[trigger] es@[j]).0 == y;
                        assert(es@[j].0 == y);
                    }
                    if y == k {
                        assert(es@[i as int].0 == y);
                    }
                    if exists|j: int| 0 <= j < i + 1 && (#[trigger] es@[j]).0 == y {
                        let j = choose|j: int| 0 <= j < i + 1 && (#[trigger] es@[j]).0 == y;
                        if j < i {
                            assert(m0.contains_key(y));
                        }
                    }
                }
            }
            i = i + 1;
        }
        assert(m@ =~= self@);
        ST { transitions: m }
    }
}

/// The transitions lead from `p` to the first packet of `v`, and on along `v`.
pub open spec fn leads(tbl: Seq<Node>, st: SPPstore, m: Map<State, SPP>, p: Pkt, v: Word) -> bool {
    exists|k: State| #[trigger]
        m.contains_key(k) && st.rel(m[k], p, v[0]) && state_lang(tbl, st, k)(v)
}

/// The transitions are between states and relations that exist.
pub open spec fn st_ok(tbl: Seq<Node>, st: SPPstore, m: Map<State, SPP>) -> bool {
    forall|k: State| #[trigger] m.contains_key(k) ==> k < tbl.len() && st.has(m[k])
}

/// No pair of packets leads to two states.
pub open spec fn disjoint(st: SPPstore, m: Map<State, SPP>) -> bool {
    forall|k: State, l: State, p: Pkt, q: Pkt|
        #![trigger st.rel(m[k], p, q), st.rel(m[l], p, q)]
        m.contains_key(k) && m.contains_key(l) && p.len() == st.n() && q.len() == st.n()
            && st.rel(m[k], p, q) && st.rel(m[l], p, q) ==> k == l
}

/// The transitions take `p` to `q` and state `k`.
pub open spec fn goes_to(st: SPPstore, m: Map<State, SPP>, k: State, p: Pkt, q: Pkt) -> bool {
    m.contains_key(k) && st.rel(m[k], p, q)
}

/// No transition is by the empty relation, and none leads to the state of it.
pub open spec fn tidy(tbl: Seq<Node>, st: SPPstore, m: Map<State, SPP>) -> bool {
    forall|k: State| #[trigger]
        m.contains_key(k) ==> m[k] != st.zero && tbl[k as int] != Node::SPP(st.zero)
}

/// `m` are the transitions of the longer words of `a`.
pub open spec fn derives(tbl: Seq<Node>, st: SPPstore, m: Map<State, SPP>, a: Lang) -> bool {
    &&& st_ok(tbl, st, m)
    &&& disjoint(st, m)
    &&& tidy(tbl, st, m)
    &&& forall|p: Pkt, v: Word|
        #![trigger leads(tbl, st, m, p, v)]
        #![trigger a(cons(p, v))]
        p.len() == st.n() && is_word(st.n(), v) ==> (leads(tbl, st, m, p, v) <==> a(cons(p, v)))
}

/// `x` are the single steps of `a`.
pub open spec fn single(st: SPPstore, x: SPP, a: Lang) -> bool {
    &&& st.has(x)
    &&& forall|p: Pkt, q: Pkt|
        #![trigger st.rel(x, p, q)]
        p.len() == st.n() && q.len() == st.n() ==> (st.rel(x, p, q) <==> a(pair(p, q)))
}

/// Some word of `a` leads from `p` to `q`.
pub open spec fn reaches(n: nat, a: Lang, p: Pkt, q: Pkt) -> bool {
    exists|w: Word| is_word(n, w) && #[trigger] a(w) && w[0] == p && w.last() == q
}

/// `x` relates the first to the last packet of the words of `a`.
pub open spec fn overall(st: SPPstore, x: SPP, a: Lang) -> bool {
    &&& st.has(x)
    &&& forall|p: Pkt, q: Pkt|
        #![trigger st.rel(x, p, q)]
        p.len() == st.n() && q.len() == st.n() ==> (st.rel(x, p, q) <==> reaches(st.n(), a, p, q))
}

proof fn lemma_reaches_same(n: nat, a: Lang, b: Lang, p: Pkt, q: Pkt)
    requires
        same(n, a, b),
    ensures
        reaches(n, a, p, q) == reaches(n, b, p, q),
{
    if reaches(n, a, p, q) {
        let w = choose|w: Word| is_word(n, w) && #[trigger] a(w) && w[0] == p && w.last() == q;
        assert(b(w));
    }
    if reaches(n, b, p, q) {
        let w = choose|w: Word| is_word(n, w) && #[trigger] b(w) && w[0] == p && w.last() == q;
        assert(a(w));
    }
}

proof fn lemma_leads_ext(
    a: Seq<Node>,
    st: SPPstore,
    b: Seq<Node>,
    st2: SPPstore,
    m: Map<State, SPP>,
    p: Pkt,
    v: Word,
)
    requires
        table_ok(a, &st),
        table_ext(a, b),
        st2.extends(&st),
        st_ok(a, st, m),
        p.len() == st.n(),
        is_word(st.n(), v),
    ensures
        leads(a, st, m, p, v) == leads(b, st2, m, p, v),
{
    assert forall|k: State| #[trigger] m.contains_key(k) implies state_lang(a, st, k)(v)
        == state_lang(b, st2, k)(v) && st.rel(m[k], p, v[0]) == st2.rel(m[k], p, v[0]) by {
        lemma_lang_ext(a, st, b, st2, k);
    }
}

proof fn lemma_derives_ext(
    a: Seq<Node>,
    st: SPPstore,
    b: Seq<Node>,
    st2: SPPstore,
    m: Map<State, SPP>,
    x: Lang,
    y: Lang,
)
    requires
        table_ok(a, &st),
        table_ext(a, b),
        st2.extends(&st),
        derives(a, st, m, x),
        same(st.n(), x, y),
    ensures
        derives(b, st2, m, y),
{
    assert forall|k: State, l: State, p: Pkt, q: Pkt|
        #![trigger st2.rel(m[k], p, q), st2.rel(m[l], p, q)]
        m.contains_key(k) && m.contains_key(l) && p.len() == st2.n() && q.len() == st2.n()
            && st2.rel(m[k], p, q) && st2.rel(m[l], p, q) implies k == l by {
        assert(st.rel(m[k], p, q) && st.rel(m[l], p, q));
    }
    assert forall|p: Pkt, v: Word| p.len() == st2.n() && is_word(st2.n(), v) implies (leads(
        b,
        st2,
        m,
        p,
        v,
    ) <==> y(cons(p, v))) by {
        lemma_leads_ext(a, st, b, st2, m, p, v);
        lemma_cons(st.n(), p, v);
        assert(leads(a, st, m, p, v) <==> x(cons(p, v)));
    }
}

// ---- the automaton -----------------------------------------------------------------

/// A table of expressions, with the derivatives that were computed so far.
pub struct Aut {
    aexprs: Vec<AExpr>,
    delta_map: HashMap<State, ST>,
    epsilon_map: HashMap<State, SPP>,
    eliminate_dup_cache: HashMap<State, SPP>,
    spp: SPPstore,
}

impl Aut {
    /// The table.
    pub closed spec fn tbl(&self) -> Seq<Node> {
        self.aexprs@.map_values(|a: AExpr| a@)
    }

    /// The relations.
    pub closed spec fn store(&self) -> SPPstore {
        self.spp
    }

    /// The number of fields of a packet.
    pub open spec fn n(&self) -> nat {
        self.store().n()
    }

    /// `s` is a state.
    pub open spec fn has(&self, s: State) -> bool {
        s < self.tbl().len()
    }

    /// The language of state `s`.
    pub open spec fn lang(&self, s: State) -> Lang {
        state_lang(self.tbl(), self.store(), s)
    }

    /// The word `w` is in the language of state `s`.
    pub open spec fn accepts(&self, s: State, w: Word) -> bool {
        self.lang(s)(w)
    }

    /// The table is well formed and what was computed is right.
    pub closed spec fn wf(&self) -> bool {
        &&& self.spp.wf()
        &&& table_ok(self.tbl(), &self.spp)
        &&& self.caches_ok()
    }

    #[verifier::opaque]
    spec fn caches_ok(&self) -> bool {
        &&& forall|s: State| #[trigger]
            self.delta_map@.contains_key(s) ==> self.has(s) && derives(
                self.tbl(),
                self.store(),
                self.delta_map@[s]@,
                self.lang(s),
            )
        &&& forall|s: State| #[trigger]
            self.epsilon_map@.contains_key(s) ==> self.has(s) && single(
                self.store(),
                self.epsilon_map@[s],
                self.lang(s),
            )
        &&& forall|s: State| #[trigger]
            self.eliminate_dup_cache@.contains_key(s) ==> self.has(s) && overall(
                self.store(),
                self.eliminate_dup_cache@[s],
                self.lang(s),
            )
    }

    /// `self` is `o` with states and relations added: the states of `o` are
    /// kept, with the same languages.
    pub open spec fn extends(&self, o: &Aut) -> bool {
        &&& table_ext(o.tbl(), self.tbl())
        &&& self.store().extends(&o.store())
        &&& forall|s: State, w: Word|
            #![trigger self.accepts(s, w)]
            #![trigger o.accepts(s, w)]
            o.has(s) && is_word(o.n(), w) ==> self.accepts(s, w) == o.accepts(s, w)
        &&& forall|s: State| #[trigger]
            o.delta_known(s) is Some ==> self.delta_known(s) == o.delta_known(s)
    }

    /// The transitions of a state, if they were computed.
    pub closed spec fn delta_known(&self, s: State) -> Option<Map<State, SPP>> {
        if self.delta_map@.contains_key(s) {
            Some(self.delta_map@[s]@)
        } else {
            None
        }
    }

    proof fn lemma_grow(&self, o: &Aut)
        requires
            o.wf(),
            table_ext(o.tbl(), self.tbl()),
            self.spp.wf(),
            self.spp.extends(&o.spp),
            o.tbl() == self.tbl() || table_ok(self.tbl(), &self.spp),
            self.delta_map == o.delta_map,
            self.epsilon_map == o.epsilon_map,
            self.eliminate_dup_cache == o.eliminate_dup_cache,
        ensures
            self.wf(),
            self.extends(o),
    {
        if o.tbl() == self.tbl() {
            reveal(table_ok);
            assert(table_ok(self.tbl(), &self.spp));
        }
        assert forall|s: State, w: Word|
            #![trigger self.accepts(s, w)]
            o.has(s) && is_word(o.n(), w) implies self.accepts(s, w) == o.accepts(s, w) by {
            lemma_lang_ext(o.tbl(), o.spp, self.tbl(), self.spp, s);
        }
        reveal(Aut::caches_ok);
        assert forall|s: State| #[trigger] self.delta_map@.contains_key(s) implies self.has(s)
            && derives(self.tbl(), self.store(), self.delta_map@[s]@, self.lang(s)) by {
            assert(o.delta_map@.contains_key(s));
            lemma_lang_ext(o.tbl(), o.spp, self.tbl(), self.spp, s);
            lemma_derives_ext(
                o.tbl(),
                o.spp,
                self.tbl(),
                self.spp,
                o.delta_map@[s]@,
                o.lang(s),
                self.lang(s),
            );
        }
        assert forall|s: State| #[trigger] self.epsilon_map@.contains_key(s) implies self.has(s)
            && single(self.store(), self.epsilon_map@[s], self.lang(s)) by {
            assert(o.epsilon_map@.contains_key(s));
            lemma_lang_ext(o.tbl(), o.spp, self.tbl(), self.spp, s);
            let x = o.epsilon_map@[s];
            assert forall|p: Pkt, q: Pkt|
                #![trigger self.spp.rel(x, p, q)]
                p.len() == self.spp.n() && q.len() == self.spp.n() implies (self.spp.rel(x, p, q)
                <==> self.lang(s)(pair(p, q))) by {
                assert(is_word(o.n(), pair(p, q)));
                assert(o.spp.rel(x, p, q) == self.spp.rel(x, p, q));
            }
        }
        assert forall|s: State| #[trigger]
            self.eliminate_dup_cache@.contains_key(s) implies self.has(s) && overall(
            self.store(),
            self.eliminate_dup_cache@[s],
            self.lang(s),
        ) by {
            assert(o.eliminate_dup_cache@.contains_key(s));
            lemma_lang_ext(o.tbl(), o.spp, self.tbl(), self.spp, s);
            let x = o.eliminate_dup_cache@[s];
            assert forall|p: Pkt, q: Pkt|
                #![trigger self.spp.rel(x, p, q)]
                p.len() == self.spp.n() && q.len() == self.spp.n() implies (self.spp.rel(x, p, q)
                <==> reaches(self.spp.n(), self.lang(s), p, q)) by {
                lemma_reaches_same(o.n(), o.lang(s), self.lang(s), p, q);
                assert(o.spp.rel(x, p, q) == self.spp.rel(x, p, q));
            }
        }
    }

    /// What a well-formed automaton provides.
    pub proof fn lemma_wf(&self)
        requires
            self.wf(),
        ensures
            self.store().wf(),
            self.store().consts(),
            table_ok(self.tbl(), &self.store()),
    {
        self.spp.lemma_wf();
    }

    /// The automata with one expression each have it once.
    pub proof fn law_hash_consed(&self, s: State, t: State)
        requires
            self.wf(),
            self.has(s),
            self.has(t),
            self.tbl()[s as int] == self.tbl()[t as int],
        ensures
            s == t,
    {
        reveal(table_ok);
    }

    /// An automaton without states, over packets with `num_vars` fields.
    pub fn new(num_vars: u32) -> (a: Aut)
        ensures
            a.wf(),
            a.n() == num_vars,
            a.tbl().len() == 0,
    {
        Aut::from_spp_store(SPPstore::new(num_vars))
    }

    /// An automaton without states over the relations of a store.
    pub fn from_spp_store(spp: SPPstore) -> (a: Aut)
        requires
            spp.wf(),
        ensures
            a.wf(),
            a.store() == spp,
            a.tbl().len() == 0,
    {
        let a = Aut {
            aexprs: Vec::new(),
            delta_map: HashMap::new(),
            epsilon_map: HashMap::new(),
            eliminate_dup_cache: HashMap::new(),
            spp,
        };
        proof {
            reveal(table_ok);
            reveal(Aut::caches_ok);
        }
        a
    }

    /// The store of relations, for a caller that is done with the automaton.
    pub fn into_spp_store(self) -> (s: SPPstore)
        requires
            self.wf(),
        ensures
            s == self.store(),
            s.wf(),
    {
        self.spp
    }

    /// The relations.
    pub fn spp_store(&self) -> (s: &SPPstore)
        ensures
            *s == self.store(),
    {
        &self.spp
    }

    /// The relations, to be added to.
    pub fn spp_store_mut(&mut self) -> (s: &mut SPPstore)
        requires
            old(self).wf(),
        ensures
            *s == old(self).store(),
            final(self).tbl() == old(self).tbl(),
            final(self).store() == *final(s),
            final(s).wf() && final(s).extends(&old(self).store()) ==> final(self).wf()
                && final(self).extends(old(self)),
    {
        proof {
            assert forall|x: Aut|
                x.aexprs == self.aexprs && x.delta_map == self.delta_map && x.epsilon_map
                    == self.epsilon_map && x.eliminate_dup_cache == self.eliminate_dup_cache
                    && x.spp.wf() && #[trigger] x.spp.extends(&self.spp) implies x.wf()
                && x.extends(&*self) by {
                x.lemma_grow(&*self);
            }
        }
        &mut self.spp
    }

    fn get_expr(&self, id: State) -> (e: &AExpr)
        requires
            self.has(id),
        ensures
            e@ == self.tbl()[id as int],
    {
        &self.aexprs[id]
    }

    /// The state of an expression: the one that has it already, or a new one.
    fn intern(&mut self, expr: AExpr) -> (r: State)
        requires
            old(self).wf(),
            node_ok(&old(self).store(), expr@, old(self).tbl().len() as int),
        ensures
            final(self).wf(),
            final(self).extends(old(self)),
            final(self).store() == old(self).store(),
            final(self).has(r),
            final(self).tbl()[r as int] == expr@,
    {
        let mut i: usize = 0;
        while i < self.aexprs.len()
            invariant
                *self == *old(self),
                self.wf(),
                i <= self.aexprs@.len(),
                forall|j: int| 0 <= j < i ==> #[trigger] self.tbl()[j] != expr@,
            decreases self.aexprs.len() - i,
        {
            if self.aexprs[i].is(&expr) {
                assert(self.tbl()[i as int] == expr@);
                return i;
            }
            assert(self.tbl()[i as int] != expr@);
            i = i + 1;
        }
        let id: usize = self.aexprs.len();
        let ghost e = expr@;
        self.aexprs.push(expr);
        proof {
            let a = old(self).tbl();
            let b = self.tbl();
            assert(b =~= a.push(e));
            assert(b.len() == self.aexprs.len());
            reveal(table_ok);
            assert(table_ok(b, &self.spp)) by {
                assert forall|i: int| 0 <= i < b.len() implies node_ok(
                    &self.spp,
                    #[trigger] b[i],
                    i,
                ) by {
                    if i < a.len() {
                        assert(a[i] == b[i]);
                    }
                }
                assert forall|i: int, j: int|
                    #![trigger b[i], b[j]]
                    0 <= i < b.len() && 0 <= j < b.len() && b[i] == b[j] implies i == j by {
                    if i < a.len() {
                        assert(a[i] == b[i]);
                    }
                    if j < a.len() {
                        assert(a[j] == b[j]);
                    }
                }
            }
            assert forall|x: SPP| old(self).spp.has(x) implies self.spp.has(x) by {}
            self.lemma_grow(old(self));
        }
        id
    }

    fn spp_union(&mut self, a: SPP, b: SPP) -> (r: SPP)
        requires
            old(self).wf(),
            old(self).store().has(a),
            old(self).store().has(b),
        ensures
            final(self).wf(),
            final(self).extends(old(self)),
            final(self).tbl() == old(self).tbl(),
            final(self).store().has(r),
            forall|p: Pkt, q: Pkt|
                #![trigger final(self).store().rel(r, p, q)]
                p.len() == old(self).n() && q.len() == old(self).n() ==> (final(self).store().rel(
                    r,
                    p,
                    q,
                ) <==> (old(self).store().rel(a, p, q) || old(self).store().rel(b, p, q))),
    {
        let r = self.spp.union(a, b);
        proof {
            self.lemma_grow(old(self));
        }
        r
    }

    fn spp_intersect(&mut self, a: SPP, b: SPP) -> (r: SPP)
        requires
            old(self).wf(),
            old(self).store().has(a),
            old(self).store().has(b),
        ensures
            final(self).wf(),
            final(self).extends(old(self)),
            final(self).tbl() == old(self).tbl(),
            final(self).store().has(r),
            forall|p: Pkt, q: Pkt|
                #![trigger final(self).store().rel(r, p, q)]
                p.len() == old(self).n() && q.len() == old(self).n() ==> (final(self).store().rel(
                    r,
                    p,
                    q,
                ) <==> (old(self).store().rel(a, p, q) && old(self).store().rel(b, p, q))),
    {
        let r = self.spp.intersect(a, b);
        proof {
            self.lemma_grow(old(self));
        }
        r
    }

    fn spp_xor(&mut self, a: SPP, b: SPP) -> (r: SPP)
        requires
            old(self).wf(),
            old(self).store().has(a),
            old(self).store().has(b),
        ensures
            final(self).wf(),
            final(self).extends(old(self)),
            final(self).tbl() == old(self).tbl(),
            final(self).store().has(r),
            forall|p: Pkt, q: Pkt|
                #![trigger final(self).store().rel(r, p, q)]
                p.len() == old(self).n() && q.len() == old(self).n() ==> (final(self).store().rel(
                    r,
                    p,
                    q,
                ) <==> (old(self).store().rel(a, p, q) != old(self).store().rel(b, p, q))),
    {
        let r = self.spp.xor(a, b);
        proof {
            self.lemma_grow(old(self));
        }
        r
    }

    fn spp_difference(&mut self, a: SPP, b: SPP) -> (r: SPP)
        requires
            old(self).wf(),
            old(self).store().has(a),
            old(self).store().has(b),
        ensures
            final(self).wf(),
            final(self).extends(old(self)),
            final(self).tbl() == old(self).tbl(),
            final(self).store().has(r),
            forall|p: Pkt, q: Pkt|
                #![trigger final(self).store().rel(r, p, q)]
                p.len() == old(self).n() && q.len() == old(self).n() ==> (final(self).store().rel(
                    r,
                    p,
                    q,
                ) <==> (old(self).store().rel(a, p, q) && !old(self).store().rel(b, p, q))),
    {
        let r = self.spp.difference(a, b);
        proof {
            self.lemma_grow(old(self));
        }
        r
    }

    fn spp_complement(&mut self, a: SPP) -> (r: SPP)
        requires
            old(self).wf(),
            old(self).store().has(a),
        ensures
            final(self).wf(),
            final(self).extends(old(self)),
            final(self).tbl() == old(self).tbl(),
            final(self).store().has(r),
            forall|p: Pkt, q: Pkt|
                #![trigger final(self).store().rel(r, p, q)]
                p.len() == old(self).n() && q.len() == old(self).n() ==> (final(self).store().rel(
                    r,
                    p,
                    q,
                ) <==> !old(self).store().rel(a, p, q)),
    {
        let r = self.spp.complement(a);
        proof {
            self.lemma_grow(old(self));
        }
        r
    }

    fn spp_star(&mut self, a: SPP) -> (r: SPP)
        requires
            old(self).wf(),
            old(self).store().has(a),
        ensures
            final(self).wf(),
            final(self).extends(old(self)),
            final(self).tbl() == old(self).tbl(),
            final(self).store().has(r),
            forall|p: Pkt, q: Pkt|
                #![trigger final(self).store().rel(r, p, q)]
                p.len() == old(self).n() && q.len() == old(self).n() ==> (final(self).store().rel(
                    r,
                    p,
                    q,
                ) <==> star_of(old(self).store().fun(a), old(self).n(), p, q)),
    {
        let r = self.spp.star(a);
        proof {
            self.lemma_grow(old(self));
        }
        r
    }

    fn spp_sequence(&mut self, a: SPP, b: SPP) -> (r: SPP)
        requires
            old(self).wf(),
            old(self).store().has(a),
            old(self).store().has(b),
        ensures
            final(self).wf(),
            final(self).extends(old(self)),
            final(self).tbl() == old(self).tbl(),
            final(self).store().has(r),
            forall|p: Pkt, q: Pkt|
                #![trigger final(self).store().rel(r, p, q)]
                p.len() == old(self).n() && q.len() == old(self).n() ==> (final(self).store().rel(
                    r,
                    p,
                    q,
                ) <==> exists|m: Pkt|
                    #![trigger old(self).store().rel(a, p, m)]
                    #![trigger old(self).store().rel(b, m, q)]
                    m.len() == old(self).n() && old(self).store().rel(a, p, m)
                        && old(self).store().rel(b, m, q)),
    {
        let r = self.spp.sequence(a, b);
        proof {
            self.lemma_grow(old(self));
        }
        r
    }

    /// Some state of the list has the word.
    pub open spec fn some(&self, v: Seq<State>, w: Word) -> bool {
        exists|i: int| 0 <= i < v.len() && self.accepts(#[trigger] v[i], w)
    }

    /// Every state of the list has the word.
    pub open spec fn all(&self, v: Seq<State>, w: Word) -> bool {
        forall|i: int| 0 <= i < v.len() ==> self.accepts(#[trigger] v[i], w)
    }

    /// The list is of states.
    pub open spec fn have(&self, v: Seq<State>) -> bool {
        forall|i: int| 0 <= i < v.len() ==> self.has(#[trigger] v[i])
    }

    /// The parts of a state are states, with smaller indices.
    proof fn lemma_node(&self, s: State)
        requires
            self.wf(),
            self.has(s),
        ensures
            node_ok(&self.store(), self.tbl()[s as int], s as int),
    {
        reveal(table_ok);
    }

    /// The words of a union, and of an intersection.
    proof fn lemma_parts_of(&self, s: State, w: Word)
        requires
            self.wf(),
            self.has(s),
        ensures
            self.tbl()[s as int] matches Node::Union(v) ==> self.have(v) && (self.accepts(s, w)
                <==> self.some(v, w)),
            self.tbl()[s as int] matches Node::Intersect(v) ==> self.have(v) && (self.accepts(s, w)
                <==> self.all(v, w)),
    {
        self.lemma_node(s);
        let (tbl, st) = (self.tbl(), self.store());
        reveal_with_fuel(state_lang, 2);
        reveal_with_fuel(part_langs, 2);
        match tbl[s as int] {
            Node::Union(v) => {
                let ls = part_langs(tbl, st, s, v);
                if any(ls, w) {
                    let i = choose|i: int| 0 <= i < ls.len() && (#[trigger] ls[i])(w);
                    assert(self.accepts(v[i], w));
                }
                if self.some(v, w) {
                    let i = choose|i: int| 0 <= i < v.len() && self.accepts(#[trigger] v[i], w);
                    assert(ls[i](w));
                }
            },
            Node::Intersect(v) => {
                let ls = part_langs(tbl, st, s, v);
                if every(ls, w) {
                    assert forall|i: int| 0 <= i < v.len() implies self.accepts(
                        #[trigger] v[i],
                        w,
                    ) by {
                        assert(ls[i](w));
                    }
                }
                if self.all(v, w) {
                    assert forall|i: int| 0 <= i < ls.len() implies (#[trigger] ls[i])(w) by {
                        assert(self.accepts(v[i], w));
                    }
                }
            },
            _ => {},
        }
    }

    /// The words of a list are kept when states are added.
    proof fn lemma_lists_ext(&self, o: &Aut, v: Seq<State>, w: Word)
        requires
            self.extends(o),
            o.have(v),
            is_word(o.n(), w),
        ensures
            self.have(v),
            self.some(v, w) == o.some(v, w),
            self.all(v, w) == o.all(v, w),
    {
        assert forall|i: int| 0 <= i < v.len() implies self.has(#[trigger] v[i]) && self.accepts(
            v[i],
            w,
        ) == o.accepts(v[i], w) by {}
        if self.some(v, w) {
            let i = choose|i: int| 0 <= i < v.len() && self.accepts(#[trigger] v[i], w);
            assert(o.accepts(v[i], w));
        }
        if o.some(v, w) {
            let i = choose|i: int| 0 <= i < v.len() && o.accepts(#[trigger] v[i], w);
            assert(self.accepts(v[i], w));
        }
        if self.all(v, w) {
            assert forall|i: int| 0 <= i < v.len() implies o.accepts(#[trigger] v[i], w) by {
                assert(self.accepts(v[i], w));
            }
        }
        if o.all(v, w) {
            assert forall|i: int| 0 <= i < v.len() implies self.accepts(#[trigger] v[i], w) by {
                assert(o.accepts(v[i], w));
            }
        }
    }

    proof fn lemma_list_push(&self, v: Seq<State>, s: State, w: Word)
        ensures
            self.some(v.push(s), w) <==> self.some(v, w) || self.accepts(s, w),
            self.all(v.push(s), w) <==> self.all(v, w) && self.accepts(s, w),
    {
        let u = v.push(s);
        assert(u[v.len() as int] == s);
        if self.some(v, w) {
            let i = choose|i: int| 0 <= i < v.len() && self.accepts(#[trigger] v[i], w);
            assert(u[i] == v[i]);
        }
        if self.some(u, w) && !self.accepts(s, w) {
            let i = choose|i: int| 0 <= i < u.len() && self.accepts(#[trigger] u[i], w);
            assert(u[i] == v[i]);
        }
        if self.all(u, w) {
            assert forall|i: int| 0 <= i < v.len() implies self.accepts(#[trigger] v[i], w) by {
                assert(u[i] == v[i]);
            }
            assert(self.accepts(u[v.len() as int], w));
        }
    }

    proof fn lemma_list_add(&self, v: Seq<State>, u: Seq<State>, w: Word)
        ensures
            self.some(v + u, w) <==> self.some(v, w) || self.some(u, w),
            self.all(v + u, w) <==> self.all(v, w) && self.all(u, w),
        decreases u.len(),
    {
        if u.len() == 0 {
            assert(v + u =~= v);
        } else {
            let t = u.drop_last();
            self.lemma_list_add(v, t, w);
            assert(v + u =~= (v + t).push(u.last()));
            assert(u =~= t.push(u.last()));
            self.lemma_list_push(v + t, u.last(), w);
            self.lemma_list_push(t, u.last(), w);
        }
    }

    /// Lists with the same states have the same words.
    proof fn lemma_list_set(&self, v: Seq<State>, u: Seq<State>, w: Word)
        requires
            forall|x: State|
                #![trigger v.contains(x)]
                #![trigger u.contains(x)]
                v.contains(x) <==> u.contains(x),
        ensures
            self.some(v, w) == self.some(u, w),
            self.all(v, w) == self.all(u, w),
    {
        if self.some(v, w) {
            let i = choose|i: int| 0 <= i < v.len() && self.accepts(#[trigger] v[i], w);
            assert(v.contains(v[i]));
            let j = choose|j: int| 0 <= j < u.len() && u[j] == v[i];
            assert(self.accepts(u[j], w));
        }
        if self.some(u, w) {
            let i = choose|i: int| 0 <= i < u.len() && self.accepts(#[trigger] u[i], w);
            assert(u.contains(u[i]));
            let j = choose|j: int| 0 <= j < v.len() && v[j] == u[i];
            assert(self.accepts(v[j], w));
        }
        if self.all(v, w) {
            assert forall|i: int| 0 <= i < u.len() implies self.accepts(#[trigger] u[i], w) by {
                assert(u.contains(u[i]));
                let j = choose|j: int| 0 <= j < v.len() && v[j] == u[i];
                assert(self.accepts(v[j], w));
            }
        }
        if self.all(u, w) {
            assert forall|i: int| 0 <= i < v.len() implies self.accepts(#[trigger] v[i], w) by {
                assert(v.contains(v[i]));
                let j = choose|j: int| 0 <= j < u.len() && u[j] == v[i];
                assert(self.accepts(u[j], w));
            }
        }
    }

    // ---- constructors ------------------------------------------------------------

    /// The state of a single step.
    fn mk_spp(&mut self, spp: SPP) -> (r: State)
        requires
            old(self).wf(),
            old(self).store().has(spp),
        ensures
            final(self).wf(),
            final(self).extends(old(self)),
            final(self).store() == old(self).store(),
            final(self).has(r),
            final(self).tbl()[r as int] == Node::SPP(spp),
            forall|w: Word| #[trigger]
                final(self).accepts(r, w) <==> w.len() == 2 && old(self).store().rel(
                    spp,
                    w[0],
                    w[1],
                ),
    {
        let r = self.intern(AExpr::SPP(spp));
        proof {
            self.lemma_node(r);
        }
        r
    }

    /// The state without words.
    fn mk_zero(&mut self) -> (r: State)
        requires
            old(self).wf(),
        ensures
            final(self).wf(),
            final(self).extends(old(self)),
            final(self).store() == old(self).store(),
            final(self).has(r),
            final(self).tbl()[r as int] == Node::SPP(old(self).store().zero),
            forall|w: Word| is_word(old(self).n(), w) ==> !#[trigger] final(self).accepts(r, w),
    {
        proof {
            self.lemma_wf();
        }
        let zero = self.spp.zero;
        self.mk_spp(zero)
    }

    fn mk_dup(&mut self) -> (r: State)
        requires
            old(self).wf(),
        ensures
            final(self).wf(),
            final(self).extends(old(self)),
            final(self).store() == old(self).store(),
            final(self).has(r),
            forall|w: Word| #[trigger]
                final(self).accepts(r, w) <==> w.len() == 3 && w[0] == w[1] && w[1] == w[2],
    {
        let r = self.intern(AExpr::Dup);
        proof {
            self.lemma_node(r);
        }
        r
    }

    fn mk_top(&mut self) -> (r: State)
        requires
            old(self).wf(),
        ensures
            final(self).wf(),
            final(self).extends(old(self)),
            final(self).store() == old(self).store(),
            final(self).has(r),
            final(self).tbl()[r as int] == Node::Top,
            forall|w: Word| #[trigger] final(self).accepts(r, w),
    {
        let r = self.intern(AExpr::Top);
        proof {
            self.lemma_node(r);
        }
        r
    }

    fn mk_until(&mut self, e1: State, e2: State) -> (r: State)
        requires
            old(self).wf(),
            old(self).has(e1),
            old(self).has(e2),
        ensures
            final(self).wf(),
            final(self).extends(old(self)),
            final(self).has(r),
            final(self).tbl()[r as int] == Node::LtlUntil(e1, e2),
            forall|w: Word|
                is_word(old(self).n(), w) ==> (#[trigger] final(self).accepts(r, w) <==> until(
                    old(self).lang(e1),
                    old(self).lang(e2),
                )(w)),
    {
        let r = self.intern(AExpr::LtlUntil(e1, e2));
        proof {
            self.lemma_node(r);
            self.lemma_same(old(self), e1);
            self.lemma_same(old(self), e2);
            lemma_until_same(
                self.n(),
                self.lang(e1),
                self.lang(e2),
                old(self).lang(e1),
                old(self).lang(e2),
            );
        }
        r
    }

    fn mk_next(&mut self, e: State) -> (r: State)
        requires
            old(self).wf(),
            old(self).has(e),
        ensures
            final(self).wf(),
            final(self).extends(old(self)),
            final(self).has(r),
            forall|w: Word|
                is_word(old(self).n(), w) ==> (#[trigger] final(self).accepts(r, w) <==> next(
                    old(self).lang(e),
                )(w)),
    {
        let r = self.intern(AExpr::LtlNext(e));
        proof {
            self.lemma_node(r);
            self.lemma_same(old(self), e);
            lemma_next_same(self.n(), self.lang(e), old(self).lang(e));
        }
        r
    }

    /// The languages of old states are the same.
    proof fn lemma_same(&self, o: &Aut, s: State)
        requires
            self.extends(o),
            o.has(s),
        ensures
            same(o.n(), self.lang(s), o.lang(s)),
    {
        assert forall|w: Word| is_word(o.n(), w) implies self.lang(s)(w) == o.lang(s)(w) by {
            assert(self.accepts(s, w) == o.accepts(s, w));
        }
    }

    /// The union of states.  Unions in unions are flattened, single steps are
    /// joined, and the states are put in order.
    fn mk_union_n(&mut self, states: &Vec<State>) -> (r: State)
        requires
            old(self).wf(),
            old(self).have(states@),
        ensures
            final(self).wf(),
            final(self).extends(old(self)),
            final(self).has(r),
            forall|w: Word|
                is_word(old(self).n(), w) ==> (#[trigger] final(self).accepts(r, w)
                    <==> old(self).some(states@, w)),
    {
        let mut flat: Vec<State> = Vec::new();
        let mut i: usize = 0;
        while i < states.len()
            invariant
                *self == *old(self),
                self.wf(),
                self.have(states@),
                i <= states@.len(),
                self.have(flat@),
                forall|w: Word| #[trigger]
                    self.some(flat@, w) <==> self.some(states@.take(i as int), w),
            decreases states.len() - i,
        {
            let state = states[i];
            let ghost f0 = flat@;
            let ghost is_top = self.tbl()[state as int] is Top;
            proof {
                self.lemma_node(state);
            }
            match self.get_expr(state) {
                AExpr::Union(nested) => {
                    let mut j: usize = 0;
                    proof {
                        self.lemma_parts_of(state, Seq::empty());
                    }
                    while j < nested.len()
                        invariant
                            j <= nested@.len(),
                            self.have(nested@),
                            self.have(flat@),
                            flat@ == f0 + nested@.take(j as int),
                        decreases nested.len() - j,
                    {
                        flat.push(nested[j]);
                        j = j + 1;
                        assert(f0 + nested@.take(j as int) =~= (f0 + nested@.take(j - 1)).push(
                            nested@[j - 1],
                        ));
                    }
                    proof {
                        assert(nested@.take(j as int) =~= nested@);
                        assert forall|w: Word| #[trigger]
                            self.some(flat@, w) <==> self.some(f0, w) || self.accepts(
                            state,
                            w,
                        ) by {
                            self.lemma_parts_of(state, w);
                            self.lemma_list_add(f0, nested@, w);
                        }
                    }
                },
                AExpr::Top => {
                    let r = self.mk_top();
                    proof {
                        assert forall|w: Word| is_word(old(self).n(), w) implies (
                        #[trigger] self.accepts(r, w) <==> old(self).some(states@, w)) by {
                            assert(old(self).accepts(states@[i as int], w));
                        }
                    }
                    return r;
                },
                _ => {
                    flat.push(state);
                    assert forall|w: Word| #[trigger]
                        self.some(flat@, w) <==> self.some(f0, w) || self.accepts(state, w) by {
                        self.lemma_list_push(f0, state, w);
                    }
                },
            }
            proof {
                assert forall|w: Word| #[trigger] self.some(flat@, w) <==> self.some(
                    states@.take(i + 1),
                    w,
                ) by {
                    assert(self.some(f0, w) <==> self.some(states@.take(i as int), w));
                    assert(states@.take(i + 1) =~= states@.take(i as int).push(state));
                    self.lemma_list_push(states@.take(i as int), state, w);
                }
            }
            i = i + 1;
        }
        assert(states@.take(i as int) =~= states@);
        proof {
            self.lemma_wf();
        }
        let zero = self.spp.zero;
        let mut spp = zero;
        let mut rest: Vec<State> = Vec::new();
        let mut i: usize = 0;
        let ghost mut spps: Seq<State> = Seq::empty();
        while i < flat.len()
            invariant
                self.wf(),
                self.extends(old(self)),
                self.tbl() == old(self).tbl(),
                old(self).have(flat@),
                old(self).have(rest@),
                i <= flat@.len(),
                self.store().has(spp),
                zero == self.store().zero,
                forall|w: Word|
                    is_word(old(self).n(), w) ==> (#[trigger] old(self).some(
                        flat@.take(i as int),
                        w,
                    ) <==> old(self).some(rest@, w) || (w.len() == 2 && self.store().rel(
                        spp,
                        w[0],
                        w[1],
                    ))),
            decreases flat.len() - i,
        {
            let state = flat[i];
            let ghost pre = *self;
            let ghost rest0 = rest@;
            let ghost spp0 = spp;
            proof {
                self.lemma_node(state);
            }
            let joined: Option<SPP> = match self.get_expr(state) {
                AExpr::SPP(s) => Some(*s),
                _ => None,
            };
            match joined {
                Some(s) => {
                    spp = self.spp_union(spp, s);
                },
                None => {
                    rest.push(state);
                },
            }
            proof {
                assert forall|w: Word| is_word(old(self).n(), w) implies (
                #[trigger] old(self).some(flat@.take(i + 1), w) <==> old(self).some(rest@, w) || (
                w.len() == 2 && self.store().rel(spp, w[0], w[1]))) by {
                    assert(flat@.take(i + 1) =~= flat@.take(i as int).push(state));
                    old(self).lemma_list_push(flat@.take(i as int), state, w);
                    old(self).lemma_list_push(rest0, state, w);
                    assert(old(self).some(flat@.take(i as int), w) <==> old(self).some(rest0, w)
                        || (w.len() == 2 && pre.store().rel(spp0, w[0], w[1])));
                    assert(pre.accepts(state, w) == old(self).accepts(state, w));
                    if let Some(s) = joined {
                        assert(pre.accepts(state, w) <==> w.len() == 2 && pre.store().rel(
                            s,
                            w[0],
                            w[1],
                        ));
                    }
                }
            }
            i = i + 1;
        }
        assert(flat@.take(i as int) =~= flat@);
        let ghost mid = *self;
        let ghost rest1 = rest@;
        if spp != zero {
            let s = self.mk_spp(spp);
            rest.push(s);
        }
        proof {
            assert(self.have(rest@));
            assert forall|w: Word| is_word(old(self).n(), w) implies (#[trigger] self.some(rest@, w)
                <==> old(self).some(states@, w)) by {
                assert(old(self).some(flat@, w) <==> old(self).some(states@, w));
                self.lemma_lists_ext(old(self), rest1, w);
                if spp != zero {
                    self.lemma_list_push(rest1, rest@.last(), w);
                    assert(rest@ =~= rest1.push(rest@.last()));
                } else {
                    mid.lemma_wf();
                }
                assert(old(self).some(flat@.take(i as int), w) <==> old(self).some(rest1, w) || (
                w.len() == 2 && mid.store().rel(spp, w[0], w[1])));
            }
        }
        let sorted = sorted_states(&rest);
        proof {
            assert forall|k: int| 0 <= k < sorted@.len() implies self.has(#[trigger] sorted@[k]) by {
                assert(sorted@.contains(sorted@[k]));
                let j = choose|j: int| 0 <= j < rest@.len() && rest@[j] == sorted@[k];
                assert(self.has(rest@[j]));
            }
            assert forall|w: Word| is_word(old(self).n(), w) implies (#[trigger] self.some(
                sorted@,
                w,
            ) <==> old(self).some(states@, w)) by {
                self.lemma_list_set(sorted@, rest@, w);
                assert(self.some(rest@, w) <==> old(self).some(states@, w));
            }
        }
        let ghost last = *self;
        if sorted.len() == 1 {
            let r = sorted[0];
            proof {
                assert forall|w: Word| is_word(old(self).n(), w) implies (#[trigger] self.accepts(
                    r,
                    w,
                ) <==> old(self).some(states@, w)) by {
                    assert(self.some(sorted@, w) <==> old(self).some(states@, w));
                    assert(sorted@[0] == r);
                }
            }
            return r;
        }
        if sorted.len() == 0 {
            let r = self.mk_zero();
            proof {
                assert forall|w: Word| is_word(old(self).n(), w) implies (#[trigger] self.accepts(
                    r,
                    w,
                ) <==> old(self).some(states@, w)) by {
                    assert(last.some(sorted@, w) <==> old(self).some(states@, w));
                }
            }
            return r;
        }
        let ghost sv = sorted@;
        let r = self.intern(AExpr::Union(sorted));
        proof {
            assert forall|w: Word| is_word(old(self).n(), w) implies (#[trigger] self.accepts(r, w)
                <==> old(self).some(states@, w)) by {
                assert(last.some(sv, w) <==> old(self).some(states@, w));
                self.lemma_parts_of(r, w);
                self.lemma_lists_ext(&last, sv, w);
            }
        }
        r
    }

    fn mk_union(&mut self, e1: State, e2: State) -> (r: State)
        requires
            old(self).wf(),
            old(self).has(e1),
            old(self).has(e2),
        ensures
            final(self).wf(),
            final(self).extends(old(self)),
            final(self).has(r),
            forall|w: Word|
                is_word(old(self).n(), w) ==> (#[trigger] final(self).accepts(r, w) <==> (
                old(self).accepts(e1, w) || old(self).accepts(e2, w))),
    {
        let v: Vec<State> = vec![e1, e2];
        assert(v@ =~= seq![e1, e2]);
        let r = self.mk_union_n(&v);
        proof {
            assert forall|w: Word| is_word(old(self).n(), w) implies (#[trigger] self.accepts(r, w)
                <==> (old(self).accepts(e1, w) || old(self).accepts(e2, w))) by {
                assert(v@[0] == e1 && v@[1] == e2);
                assert(self.accepts(r, w) <==> old(self).some(v@, w));
            }
        }
        r
    }

    /// Some list of states has the word, all of them.
    spec fn dnf(&self, ds: Seq<Vec<State>>, w: Word) -> bool {
        exists|d: int| 0 <= d < ds.len() && self.all((#[trigger] ds[d])@, w)
    }

    spec fn have_all(&self, ds: Seq<Vec<State>>) -> bool {
        forall|d: int| 0 <= d < ds.len() ==> self.have((#[trigger] ds[d])@)
    }

    proof fn lemma_dnf_push(&self, ds: Seq<Vec<State>>, x: Vec<State>, w: Word)
        ensures
            self.dnf(ds.push(x), w) <==> self.dnf(ds, w) || self.all(x@, w),
    {
        let es = ds.push(x);
        assert(es[ds.len() as int] == x);
        if self.dnf(ds, w) {
            let d = choose|d: int| 0 <= d < ds.len() && self.all((#[trigger] ds[d])@, w);
            assert(es[d] == ds[d]);
        }
        if self.dnf(es, w) && !self.all(x@, w) {
            let d = choose|d: int| 0 <= d < es.len() && self.all((#[trigger] es[d])@, w);
            assert(es[d] == ds[d]);
        }
    }

    /// Every list with every one of the states added.
    fn cross(&self, ds: &Vec<Vec<State>>, nested: &Vec<State>) -> (r: Vec<Vec<State>>)
        requires
            self.have_all(ds@),
            self.have(nested@),
        ensures
            self.have_all(r@),
            forall|w: Word| #[trigger] self.dnf(r@, w) <==> self.dnf(ds@, w) && self.some(nested@, w),
    {
        let mut r: Vec<Vec<State>> = Vec::new();
        let mut j: usize = 0;
        while j < nested.len()
            invariant
                j <= nested@.len(),
                self.have_all(ds@),
                self.have(nested@),
                self.have_all(r@),
                forall|w: Word| #[trigger]
                    self.dnf(r@, w) <==> self.dnf(ds@, w) && self.some(nested@.take(j as int), w),
            decreases nested.len() - j,
        {
            let state = nested[j];
            let ghost r0 = r@;
            let mut i: usize = 0;
            assert(ds@.take(0) =~= Seq::<Vec<State>>::empty());
            while i < ds.len()
                invariant
                    i <= ds@.len(),
                    self.have_all(ds@),
                    self.has(state),
                    self.have_all(r@),
                    forall|w: Word| #[trigger]
                        self.dnf(r@, w) <==> self.dnf(r0, w) || (self.dnf(ds@.take(i as int), w)
                            && self.accepts(state, w)),
                decreases ds.len() - i,
            {
                let mut one = copy_states(&ds[i]);
                let ghost one0 = one@;
                one.push(state);
                let ghost r1 = r@;
                let ghost added = one;
                r.push(one);
                proof {
                    assert(self.have(added@));
                    assert forall|w: Word| #[trigger] self.dnf(r@, w) <==> self.dnf(r0, w) || (
                    self.dnf(ds@.take(i + 1), w) && self.accepts(state, w)) by {
                        self.lemma_dnf_push(r1, added, w);
                        self.lemma_list_push(one0, state, w);
                        assert(ds@.take(i + 1) =~= ds@.take(i as int).push(ds@[i as int]));
                        self.lemma_dnf_push(ds@.take(i as int), ds@[i as int], w);
                        assert(self.dnf(r1, w) <==> self.dnf(r0, w) || (self.dnf(
                            ds@.take(i as int),
                            w,
                        ) && self.accepts(state, w)));
                    }
                }
                i = i + 1;
            }
            proof {
                assert(ds@.take(i as int) =~= ds@);
                assert forall|w: Word| #[trigger] self.dnf(r@, w) <==> self.dnf(ds@, w)
                    && self.some(nested@.take(j + 1), w) by {
                    assert(nested@.take(j + 1) =~= nested@.take(j as int).push(state));
                    self.lemma_list_push(nested@.take(j as int), state, w);
                    assert(self.dnf(r0, w) <==> self.dnf(ds@, w) && self.some(
                        nested@.take(j as int),
                        w,
                    ));
                }
            }
            j = j + 1;
        }
        assert(nested@.take(j as int) =~= nested@);
        r
    }

    /// The states with the parts of intersections in their place.
    fn flatten_intersections(&self, states: &Vec<State>) -> (flat: Vec<State>)
        requires
            self.wf(),
            self.have(states@),
        ensures
            self.have(flat@),
            forall|w: Word| #[trigger] self.all(flat@, w) <==> self.all(states@, w),
    {
        let mut flat: Vec<State> = Vec::new();
        let mut i: usize = 0;
        while i < states.len()
            invariant
                self.wf(),
                self.have(states@),
                i <= states@.len(),
                self.have(flat@),
                forall|w: Word| #[trigger]
                    self.all(flat@, w) <==> self.all(states@.take(i as int), w),
            decreases states.len() - i,
        {
            let state = states[i];
            let ghost f0 = flat@;
            match self.get_expr(state) {
                AExpr::Intersect(nested) => {
                    let mut j: usize = 0;
                    proof {
                        self.lemma_parts_of(state, Seq::empty());
                    }
                    while j < nested.len()
                        invariant
                            j <= nested@.len(),
                            self.have(nested@),
                            self.have(flat@),
                            flat@ == f0 + nested@.take(j as int),
                        decreases nested.len() - j,
                    {
                        flat.push(nested[j]);
                        j = j + 1;
                        assert(f0 + nested@.take(j as int) =~= (f0 + nested@.take(j - 1)).push(
                            nested@[j - 1],
                        ));
                    }
                    proof {
                        assert(nested@.take(j as int) =~= nested@);
                        assert forall|w: Word| #[trigger]
                            self.all(flat@, w) <==> self.all(f0, w) && self.accepts(state, w) by {
                            self.lemma_parts_of(state, w);
                            self.lemma_list_add(f0, nested@, w);
                        }
                    }
                },
                _ => {
                    flat.push(state);
                    assert forall|w: Word| #[trigger]
                        self.all(flat@, w) <==> self.all(f0, w) && self.accepts(state, w) by {
                        self.lemma_list_push(f0, state, w);
                    }
                },
            }
            proof {
                assert forall|w: Word| #[trigger] self.all(flat@, w) <==> self.all(
                    states@.take(i + 1),
                    w,
                ) by {
                    assert(self.all(f0, w) <==> self.all(states@.take(i as int), w));
                    assert(states@.take(i + 1) =~= states@.take(i as int).push(state));
                    self.lemma_list_push(states@.take(i as int), state, w);
                }
            }
            i = i + 1;
        }
        assert(states@.take(i as int) =~= states@);
        flat
    }

    /// The intersection of states, distributed over the unions among them.
    fn mk_intersect_n(&mut self, states: &Vec<State>) -> (r: State)
        requires
            old(self).wf(),
            old(self).have(states@),
        ensures
            final(self).wf(),
            final(self).extends(old(self)),
            final(self).has(r),
            forall|w: Word|
                is_word(old(self).n(), w) ==> (#[trigger] final(self).accepts(r, w)
                    <==> old(self).all(states@, w)),
    {
        let flat = self.flatten_intersections(states);
        let mut ds: Vec<Vec<State>> = Vec::new();
        let first: Vec<State> = Vec::new();
        let ghost first0 = first;
        ds.push(first);
        proof {
            assert(ds@[0] == first0);
            assert(self.have_all(ds@));
        }
        let mut i: usize = 0;
        while i < flat.len()
            invariant
                *self == *old(self),
                self.wf(),
                self.have(flat@),
                self.have_all(ds@),
                i <= flat@.len(),
                forall|w: Word| #[trigger]
                    self.dnf(ds@, w) <==> self.all(flat@.take(i as int), w),
            decreases flat.len() - i,
        {
            let state = flat[i];
            let ghost ds0 = ds@;
            match self.get_expr(state) {
                AExpr::Union(nested) => {
                    proof {
                        self.lemma_parts_of(state, Seq::empty());
                    }
                    ds = self.cross(&ds, nested);
                    assert forall|w: Word| #[trigger] self.dnf(ds@, w) <==> self.dnf(ds0, w)
                        && self.accepts(state, w) by {
                        self.lemma_parts_of(state, w);
                    }
                },
                _ => {
                    let one: Vec<State> = vec![state];
                    assert(one@ =~= Seq::<State>::empty().push(state));
                    ds = self.cross(&ds, &one);
                    assert forall|w: Word| #[trigger] self.dnf(ds@, w) <==> self.dnf(ds0, w)
                        && self.accepts(state, w) by {
                        self.lemma_list_push(Seq::empty(), state, w);
                    }
                },
            }
            proof {
                assert forall|w: Word| #[trigger] self.dnf(ds@, w) <==> self.all(
                    flat@.take(i + 1),
                    w,
                ) by {
                    assert(flat@.take(i + 1) =~= flat@.take(i as int).push(state));
                    self.lemma_list_push(flat@.take(i as int), state, w);
                    assert(self.dnf(ds0, w) <==> self.all(flat@.take(i as int), w));
                }
            }
            i = i + 1;
        }
        assert(flat@.take(i as int) =~= flat@);
        let mut parts: Vec<State> = Vec::new();
        let mut j: usize = 0;
        while j < ds.len()
            invariant
                self.wf(),
                self.extends(old(self)),
                old(self).have_all(ds@),
                j <= ds@.len(),
                self.have(parts@),
                forall|w: Word|
                    is_word(old(self).n(), w) ==> (#[trigger] self.some(parts@, w)
                        <==> old(self).dnf(ds@.take(j as int), w)),
            decreases ds.len() - j,
        {
            let ghost pre = *self;
            let ghost parts0 = parts@;
            proof {
                assert(old(self).have(ds@[j as int]@));
                assert forall|k: int| 0 <= k < ds@[j as int]@.len() implies self.has(
                    #[trigger] ds@[j as int]@[k],
                ) by {
                    assert(old(self).has(ds@[j as int]@[k]));
                }
            }
            let p = self.mk_intersect_n_base(&ds[j]);
            parts.push(p);
            proof {
                assert forall|k: int| 0 <= k < parts@.len() implies self.has(
                    #[trigger] parts@[k],
                ) by {
                    if k < parts0.len() {
                        assert(pre.has(parts0[k]));
                    }
                }
                assert forall|w: Word| is_word(old(self).n(), w) implies (#[trigger] self.some(
                    parts@,
                    w,
                ) <==> old(self).dnf(ds@.take(j + 1), w)) by {
                    assert(ds@.take(j + 1) =~= ds@.take(j as int).push(ds@[j as int]));
                    old(self).lemma_dnf_push(ds@.take(j as int), ds@[j as int], w);
                    self.lemma_list_push(parts0, p, w);
                    self.lemma_lists_ext(&pre, parts0, w);
                    pre.lemma_lists_ext(old(self), ds@[j as int]@, w);
                    assert(pre.some(parts0, w) <==> old(self).dnf(ds@.take(j as int), w));
                    assert(self.accepts(p, w) <==> pre.all(ds@[j as int]@, w));
                }
            }
            j = j + 1;
        }
        assert(ds@.take(j as int) =~= ds@);
        let ghost mid = *self;
        let r = self.mk_union_n(&parts);
        proof {
            assert forall|w: Word| is_word(old(self).n(), w) implies (#[trigger] self.accepts(r, w)
                <==> old(self).all(states@, w)) by {
                assert(self.accepts(r, w) <==> mid.some(parts@, w));
                assert(old(self).dnf(ds@, w) <==> old(self).all(flat@, w));
                assert(old(self).all(flat@, w) <==> old(self).all(states@, w));
            }
        }
        r
    }

    /// The intersection of states, without distribution: `Top` is dropped and
    /// single steps are joined.
    fn mk_intersect_n_base(&mut self, states: &Vec<State>) -> (r: State)
        requires
            old(self).wf(),
            old(self).have(states@),
        ensures
            final(self).wf(),
            final(self).extends(old(self)),
            final(self).has(r),
            forall|w: Word|
                is_word(old(self).n(), w) ==> (#[trigger] final(self).accepts(r, w)
                    <==> old(self).all(states@, w)),
    {
        let flat = self.flatten_intersections(states);
        let mut joined: Option<SPP> = None;
        let mut rest: Vec<State> = Vec::new();
        let mut i: usize = 0;
        while i < flat.len()
            invariant
                self.wf(),
                self.extends(old(self)),
                self.tbl() == old(self).tbl(),
                old(self).have(flat@),
                old(self).have(rest@),
                i <= flat@.len(),
                joined matches Some(s) ==> self.store().has(s),
                forall|w: Word|
                    is_word(old(self).n(), w) ==> (#[trigger] old(self).all(
                        flat@.take(i as int),
                        w,
                    ) <==> old(self).all(rest@, w) && (joined matches Some(s) ==> w.len() == 2
                        && self.store().rel(s, w[0], w[1]))),
            decreases flat.len() - i,
        {
            let state = flat[i];
            let ghost pre = *self;
            let ghost rest0 = rest@;
            let ghost joined0 = joined;
            proof {
                self.lemma_wf();
                self.lemma_node(state);
            }
            // What kind of part it is: a single step, everything, or another.
            let (step, top): (Option<SPP>, bool) = match self.get_expr(state) {
                AExpr::SPP(s) => (Some(*s), false),
                AExpr::Top => (None, true),
                _ => (None, false),
            };
            match step {
                Some(s) => {
                    let before = match joined {
                        Some(b) => b,
                        None => self.spp.top,
                    };
                    joined = Some(self.spp_intersect(before, s));
                },
                None => {
                    if !top {
                        rest.push(state);
                    }
                },
            }
            proof {
                assert forall|w: Word| is_word(old(self).n(), w) implies (#[trigger] old(self).all(
                    flat@.take(i + 1),
                    w,
                ) <==> old(self).all(rest@, w) && (joined matches Some(s) ==> w.len() == 2
                    && self.store().rel(s, w[0], w[1]))) by {
                    assert(flat@.take(i + 1) =~= flat@.take(i as int).push(state));
                    old(self).lemma_list_push(flat@.take(i as int), state, w);
                    old(self).lemma_list_push(rest0, state, w);
                    assert(old(self).all(flat@.take(i as int), w) <==> old(self).all(rest0, w) && (
                    joined0 matches Some(s) ==> w.len() == 2 && pre.store().rel(s, w[0], w[1])));
                    assert(pre.accepts(state, w) == old(self).accepts(state, w));
                    if let Some(s) = step {
                        assert(pre.accepts(state, w) <==> w.len() == 2 && pre.store().rel(
                            s,
                            w[0],
                            w[1],
                        ));
                    }
                }
            }
            i = i + 1;
        }
        assert(flat@.take(i as int) =~= flat@);
        let ghost mid = *self;
        let mut sorted = sorted_states(&rest);
        let ghost sorted0 = sorted@;
        proof {
            self.lemma_wf();
            assert forall|k: int| 0 <= k < sorted@.len() implies self.has(#[trigger] sorted@[k]) by {
                assert(sorted@.contains(sorted@[k]));
                let j = choose|j: int| 0 <= j < rest@.len() && rest@[j] == sorted@[k];
                assert(old(self).has(rest@[j]));
            }
            assert forall|w: Word| is_word(old(self).n(), w) implies (#[trigger] old(self).all(
                states@,
                w,
            ) <==> mid.all(sorted0, w) && (joined matches Some(s) ==> w.len() == 2
                && mid.store().rel(s, w[0], w[1]))) by {
                assert(old(self).all(flat@, w) <==> old(self).all(states@, w));
                assert(old(self).all(flat@.take(i as int), w) <==> old(self).all(rest@, w) && (
                joined matches Some(s) ==> w.len() == 2 && mid.store().rel(s, w[0], w[1])));
                mid.lemma_lists_ext(old(self), rest@, w);
                mid.lemma_list_set(sorted0, rest@, w);
            }
        }
        if let Some(s) = joined {
            if s == self.spp.zero {
                let r = self.mk_zero();
                proof {
                    assert forall|w: Word| is_word(old(self).n(), w) implies (
                    #[trigger] self.accepts(r, w) <==> old(self).all(states@, w)) by {}
                }
                return r;
            }
        }
        if sorted.len() == 0 {
            match joined {
                Some(s) => {
                    let r = self.mk_spp(s);
                    proof {
                        assert forall|w: Word| is_word(old(self).n(), w) implies (
                        #[trigger] self.accepts(r, w) <==> old(self).all(states@, w)) by {
                            assert(mid.all(sorted0, w));
                        }
                    }
                    return r;
                },
                None => {
                    let r = self.mk_top();
                    proof {
                        assert forall|w: Word| is_word(old(self).n(), w) implies (
                        #[trigger] self.accepts(r, w) <==> old(self).all(states@, w)) by {
                            assert(mid.all(sorted0, w));
                        }
                    }
                    return r;
                },
            }
        }
        if let Some(s) = joined {
            let p = self.mk_spp(s);
            sorted.push(p);
        }
        let ghost late = *self;
        let ghost sv = sorted@;
        proof {
            assert forall|k: int| 0 <= k < sv.len() implies late.has(#[trigger] sv[k]) by {
                if k < sorted0.len() {
                    assert(mid.has(sorted0[k]));
                }
            }
            assert forall|w: Word| is_word(old(self).n(), w) implies (#[trigger] late.all(sv, w)
                <==> old(self).all(states@, w)) by {
                late.lemma_lists_ext(&mid, sorted0, w);
                if joined is Some {
                    assert(sv =~= sorted0.push(sv.last()));
                    late.lemma_list_push(sorted0, sv.last(), w);
                }
            }
        }
        let r = self.intern(AExpr::Intersect(sorted));
        proof {
            assert forall|w: Word| is_word(old(self).n(), w) implies (#[trigger] self.accepts(r, w)
                <==> old(self).all(states@, w)) by {
                self.lemma_parts_of(r, w);
                self.lemma_lists_ext(&late, sv, w);
                assert(late.all(sv, w) <==> old(self).all(states@, w));
            }
        }
        r
    }

    fn mk_intersect(&mut self, e1: State, e2: State) -> (r: State)
        requires
            old(self).wf(),
            old(self).has(e1),
            old(self).has(e2),
        ensures
            final(self).wf(),
            final(self).extends(old(self)),
            final(self).has(r),
            forall|w: Word|
                is_word(old(self).n(), w) ==> (#[trigger] final(self).accepts(r, w) <==> (
                old(self).accepts(e1, w) && old(self).accepts(e2, w))),
    {
        let v: Vec<State> = vec![e1, e2];
        assert(v@ =~= seq![e1, e2]);
        let r = self.mk_intersect_n(&v);
        proof {
            assert forall|w: Word| is_word(old(self).n(), w) implies (#[trigger] self.accepts(r, w)
                <==> (old(self).accepts(e1, w) && old(self).accepts(e2, w))) by {
                assert(v@[0] == e1 && v@[1] == e2);
                assert(self.accepts(r, w) <==> old(self).all(v@, w));
            }
        }
        r
    }

    /// The words of exactly one of the states.
    fn mk_xor(&mut self, e1: State, e2: State) -> (r: State)
        requires
            old(self).wf(),
            old(self).has(e1),
            old(self).has(e2),
        ensures
            final(self).wf(),
            final(self).extends(old(self)),
            final(self).has(r),
            forall|w: Word|
                is_word(old(self).n(), w) ==> (#[trigger] final(self).accepts(r, w) <==> (
                old(self).accepts(e1, w) != old(self).accepts(e2, w))),
    {
        if e1 == e2 {
            return self.mk_zero();
        }
        proof {
            self.lemma_node(e1);
            self.lemma_node(e2);
        }
        let steps: Option<(SPP, SPP)> = match (self.get_expr(e1), self.get_expr(e2)) {
            (AExpr::SPP(s1), AExpr::SPP(s2)) => Some((*s1, *s2)),
            _ => None,
        };
        if let Some((s1, s2)) = steps {
            let s = self.spp_xor(s1, s2);
            let ghost mid = *self;
            let r = self.mk_spp(s);
            proof {
                assert forall|w: Word| is_word(old(self).n(), w) implies (#[trigger] self.accepts(r, w)
                    <==> (old(self).accepts(e1, w) != old(self).accepts(e2, w))) by {
                    assert(old(self).accepts(e1, w) <==> w.len() == 2 && old(self).store().rel(s1, w[0], w[1]));
                    assert(old(self).accepts(e2, w) <==> w.len() == 2 && old(self).store().rel(s2, w[0], w[1]));
                    if w.len() == 2 {
                        assert(mid.store().rel(s, w[0], w[1]) == mid.store().rel(s, w[0], w[1]));
                    }
                }
            }
            return r;
        }
        let (a, b) = if e1 < e2 {
            (e1, e2)
        } else {
            (e2, e1)
        };
        let r = self.intern(AExpr::Xor(a, b));
        proof {
            self.lemma_node(r);
            assert forall|w: Word| is_word(old(self).n(), w) implies (#[trigger] self.accepts(r, w)
                <==> (old(self).accepts(e1, w) != old(self).accepts(e2, w))) by {
                assert(self.accepts(e1, w) == old(self).accepts(e1, w));
                assert(self.accepts(e2, w) == old(self).accepts(e2, w));
            }
        }
        r
    }

    /// The words of the first state that the second does not have.
    pub fn mk_difference(&mut self, e1: State, e2: State) -> (r: State)
        requires
            old(self).wf(),
            old(self).has(e1),
            old(self).has(e2),
        ensures
            final(self).wf(),
            final(self).extends(old(self)),
            final(self).has(r),
            forall|w: Word|
                is_word(old(self).n(), w) ==> (#[trigger] final(self).accepts(r, w) <==> (
                old(self).accepts(e1, w) && !old(self).accepts(e2, w))),
            e1 == e2 ==> final(self).tbl()[r as int] == Node::SPP(final(self).store().zero),
    {
        if e1 == e2 {
            return self.mk_zero();
        }
        proof {
            self.lemma_node(e1);
            self.lemma_node(e2);
        }
        let steps: Option<(SPP, SPP)> = match (self.get_expr(e1), self.get_expr(e2)) {
            (AExpr::SPP(s1), AExpr::SPP(s2)) => Some((*s1, *s2)),
            _ => None,
        };
        if let Some((s1, s2)) = steps {
            let s = self.spp_difference(s1, s2);
            let ghost mid = *self;
            let r = self.mk_spp(s);
            proof {
                assert forall|w: Word| is_word(old(self).n(), w) implies (#[trigger] self.accepts(r, w)
                    <==> (old(self).accepts(e1, w) && !old(self).accepts(e2, w))) by {
                    assert(old(self).accepts(e1, w) <==> w.len() == 2 && old(self).store().rel(s1, w[0], w[1]));
                    assert(old(self).accepts(e2, w) <==> w.len() == 2 && old(self).store().rel(s2, w[0], w[1]));
                    if w.len() == 2 {
                        assert(mid.store().rel(s, w[0], w[1]) == mid.store().rel(s, w[0], w[1]));
                    }
                }
            }
            return r;
        }
        let (a, b) = (e1, e2);
        let r = self.intern(AExpr::Difference(a, b));
        proof {
            self.lemma_node(r);
            assert forall|w: Word| is_word(old(self).n(), w) implies (#[trigger] self.accepts(r, w)
                <==> (old(self).accepts(e1, w) && !old(self).accepts(e2, w))) by {
                assert(self.accepts(e1, w) == old(self).accepts(e1, w));
                assert(self.accepts(e2, w) == old(self).accepts(e2, w));
            }
        }
        r
    }

    /// The words that the state does not have.
    fn mk_complement(&mut self, e: State) -> (r: State)
        requires
            old(self).wf(),
            old(self).has(e),
        ensures
            final(self).wf(),
            final(self).extends(old(self)),
            final(self).has(r),
            forall|w: Word|
                is_word(old(self).n(), w) ==> (#[trigger] final(self).accepts(r, w)
                    <==> !old(self).accepts(e, w)),
    {
        proof {
            self.lemma_node(e);
        }
        let (inner, top): (Option<State>, bool) = match self.get_expr(e) {
            AExpr::Complement(inner) => (Some(*inner), false),
            AExpr::Top => (None, true),
            _ => (None, false),
        };
        if let Some(inner) = inner {
            return inner;
        }
        if top {
            return self.mk_zero();
        }
        let r = self.intern(AExpr::Complement(e));
        proof {
            self.lemma_node(r);
            assert forall|w: Word| is_word(old(self).n(), w) implies (#[trigger] self.accepts(r, w)
                <==> !old(self).accepts(e, w)) by {
                assert(self.accepts(e, w) == old(self).accepts(e, w));
            }
        }
        r
    }

    /// One state after the other.
    fn mk_sequence(&mut self, e1: State, e2: State) -> (r: State)
        requires
            old(self).wf(),
            old(self).has(e1),
            old(self).has(e2),
        ensures
            final(self).wf(),
            final(self).extends(old(self)),
            final(self).has(r),
            forall|w: Word|
                is_word(old(self).n(), w) ==> (#[trigger] final(self).accepts(r, w) <==> cat(
                    old(self).n(),
                    old(self).lang(e1),
                    old(self).lang(e2),
                )(w)),
        decreases e1,
    {
        let ghost n = self.n();
        let ghost l1 = self.lang(e1);
        let ghost l2 = self.lang(e2);
        proof {
            self.lemma_wf();
            self.lemma_node(e1);
            self.lemma_node(e2);
        }
        let (step1, parts, top1): (Option<SPP>, Option<(State, State)>, bool) = match self.get_expr(
            e1,
        ) {
            AExpr::SPP(s1) => (Some(*s1), None, false),
            AExpr::Sequence(a, b) => (None, Some((*a, *b)), false),
            AExpr::Top => (None, None, true),
            _ => (None, None, false),
        };
        let (step2, top2): (Option<SPP>, bool) = match self.get_expr(e2) {
            AExpr::SPP(s2) => (Some(*s2), false),
            AExpr::Top => (None, true),
            _ => (None, false),
        };
        if let (Some(s1), Some(s2)) = (step1, step2) {
            let s = self.spp_sequence(s1, s2);
            let ghost mid = *self;
            let r = self.mk_spp(s);
            proof {
                assert forall|w: Word| is_word(n, w) implies (#[trigger] self.accepts(r, w) <==> cat(
                    n,
                    l1,
                    l2,
                )(w)) by {
                    lemma_cat_once(n, old(self).store().fun(s1), old(self).store().fun(s2), w);
                    if w.len() == 2 {
                        let (p, q) = (w[0], w[1]);
                        assert(mid.store().rel(s, p, q) <==> exists|m: Pkt|
                            #![trigger old(self).store().rel(s1, p, m)]
                            #![trigger old(self).store().rel(s2, m, q)]
                            m.len() == n && old(self).store().rel(s1, p, m) && old(self).store().rel(s2, m, q));
                        let (f, g) = (old(self).store().fun(s1), old(self).store().fun(s2));
                        if cat(n, l1, l2)(w) {
                            let m = choose|m: Pkt| m.len() == n && #[trigger] f(p, m) && g(m, q);
                            assert(old(self).store().rel(s1, p, m));
                        }
                        if mid.store().rel(s, p, q) {
                            let m = choose|m: Pkt|
                                #![trigger old(self).store().rel(s1, p, m)]
                                #![trigger old(self).store().rel(s2, m, q)]
                                m.len() == n && old(self).store().rel(s1, p, m) && old(self).store().rel(s2, m, q);
                            assert(f(p, m) && g(m, q));
                        }
                    }
                }
            }
            return r;
        }
        if let Some(s1) = step1 {
            if s1 == self.spp.one {
                proof {
                    assert forall|w: Word| is_word(n, w) implies l1(w) == unit()(w) by {}
                    lemma_cat_unit(n, l2);
                    lemma_cat_same(n, l1, l2, unit(), l2);
                    assert forall|w: Word| is_word(n, w) implies (#[trigger] self.accepts(e2, w)
                        <==> cat(n, l1, l2)(w)) by {
                        assert(cat(n, l1, l2)(w) == cat(n, unit(), l2)(w));
                    }
                }
                return e2;
            }
            if s1 == self.spp.zero {
                let r = self.mk_zero();
                proof {
                    assert forall|w: Word| is_word(n, w) implies !cat(n, l1, l2)(w) by {
                        if cat(n, l1, l2)(w) {
                            let (i, m) = choose|i: int, m: Pkt| #[trigger]
                                cut(n, l1, l2, w, i, m);
                            lemma_parts(n, w, i, m);
                        }
                    }
                }
                return r;
            }
        }
        if let Some(s2) = step2 {
            if s2 == self.spp.one {
                proof {
                    assert forall|w: Word| is_word(n, w) implies l2(w) == unit()(w) by {}
                    lemma_cat_unit(n, l1);
                    lemma_cat_same(n, l1, l2, l1, unit());
                    assert forall|w: Word| is_word(n, w) implies (#[trigger] self.accepts(e1, w)
                        <==> cat(n, l1, l2)(w)) by {
                        assert(cat(n, l1, l2)(w) == cat(n, l1, unit())(w));
                    }
                }
                return e1;
            }
            if s2 == self.spp.zero {
                let r = self.mk_zero();
                proof {
                    assert forall|w: Word| is_word(n, w) implies !cat(n, l1, l2)(w) by {
                        if cat(n, l1, l2)(w) {
                            let (i, m) = choose|i: int, m: Pkt| #[trigger]
                                cut(n, l1, l2, w, i, m);
                            lemma_parts(n, w, i, m);
                        }
                    }
                }
                return r;
            }
        }
        if let Some((e11, e12)) = parts {
            let ghost l11 = self.lang(e11);
            let ghost l12 = self.lang(e12);
            let tmp = self.mk_sequence(e12, e2);
            let ghost mid = *self;
            let r = self.mk_sequence(e11, tmp);
            proof {
                mid.lemma_same(old(self), e11);
                assert forall|w: Word| is_word(n, w) implies mid.lang(tmp)(w) == cat(
                    n,
                    l12,
                    l2,
                )(w) by {
                    assert(mid.accepts(tmp, w) <==> cat(n, l12, l2)(w));
                }
                lemma_cat_same(n, mid.lang(e11), mid.lang(tmp), l11, cat(n, l12, l2));
                lemma_cat_assoc(n, l11, l12, l2);
                assert forall|w: Word| is_word(n, w) implies (#[trigger] self.accepts(r, w) <==> cat(
                    n,
                    l1,
                    l2,
                )(w)) by {
                    assert(self.accepts(r, w) <==> cat(n, mid.lang(e11), mid.lang(tmp))(w));
                    assert(cat(n, mid.lang(e11), mid.lang(tmp))(w) == cat(
                        n,
                        l11,
                        cat(n, l12, l2),
                    )(w));
                    assert(l1 == cat(n, l11, l12));
                    assert(cat(n, cat(n, l11, l12), l2)(w) == cat(n, l11, cat(n, l12, l2))(w));
                }
            }
            return r;
        }
        if top1 && top2 {
            let r = self.mk_top();
            proof {
                assert forall|w: Word| is_word(n, w) implies cat(n, l1, l2)(w) by {
                    assert(cut(n, l1, l2, w, 0, w[0]));
                }
            }
            return r;
        }
        let r = self.intern(AExpr::Sequence(e1, e2));
        proof {
            self.lemma_node(r);
            self.lemma_same(old(self), e1);
            self.lemma_same(old(self), e2);
            lemma_cat_same(n, self.lang(e1), self.lang(e2), l1, l2);
            assert forall|w: Word| is_word(n, w) implies (#[trigger] self.accepts(r, w) <==> cat(
                n,
                l1,
                l2,
            )(w)) by {
                assert(cat(n, self.lang(e1), self.lang(e2))(w) == cat(n, l1, l2)(w));
            }
        }
        r
    }

    /// A state any number of times.
    fn mk_star(&mut self, e: State) -> (r: State)
        requires
            old(self).wf(),
            old(self).has(e),
        ensures
            final(self).wf(),
            final(self).extends(old(self)),
            final(self).has(r),
            forall|w: Word|
                is_word(old(self).n(), w) ==> (#[trigger] final(self).accepts(r, w) <==> star(
                    old(self).n(),
                    old(self).lang(e),
                )(w)),
    {
        let ghost n = self.n();
        let ghost l = self.lang(e);
        proof {
            self.lemma_wf();
            self.lemma_node(e);
        }
        let (again, step, top): (bool, Option<SPP>, bool) = match self.get_expr(e) {
            AExpr::Star(_) => (true, None, false),
            AExpr::SPP(s) => (false, Some(*s), false),
            AExpr::Top => (false, None, true),
            _ => (false, None, false),
        };
        if again {
            proof {
                if let Node::Star(x) = self.tbl()[e as int] {
                    lemma_star_star(n, self.lang(x));
                    assert forall|w: Word| is_word(n, w) implies (#[trigger] self.accepts(e, w)
                        <==> star(n, l)(w)) by {
                        assert(l == star(n, self.lang(x)));
                        assert(star(n, star(n, self.lang(x)))(w) == star(n, self.lang(x))(w));
                    }
                }
            }
            return e;
        }
        if let Some(s) = step {
            let x = self.spp_star(s);
            let ghost mid = *self;
            let r = self.mk_spp(x);
            proof {
                let f = old(self).store().fun(s);
                assert forall|w: Word| is_word(n, w) implies (#[trigger] self.accepts(r, w) <==> star(
                    n,
                    l,
                )(w)) by {
                    lemma_star_once(n, f, w);
                    if w.len() == 2 {
                        assert(mid.store().rel(x, w[0], w[1]) <==> star_of(f, n, w[0], w[1]));
                    }
                }
            }
            return r;
        }
        if top {
            let r = self.mk_top();
            proof {
                assert forall|w: Word| is_word(n, w) implies star(n, l)(w) by {
                    lemma_cat_unit(n, l);
                    assert(cat(n, l, unit())(w) == l(w));
                    assert(pow(n, l, 0) == unit());
                    assert(pow(n, l, 1)(w));
                }
            }
            return r;
        }
        let r = self.intern(AExpr::Star(e));
        proof {
            self.lemma_node(r);
            self.lemma_same(old(self), e);
            lemma_star_same_lang(n, self.lang(e), l);
            assert forall|w: Word| is_word(n, w) implies (#[trigger] self.accepts(r, w) <==> star(
                n,
                l,
            )(w)) by {
                assert(star(n, self.lang(e))(w) == star(n, l)(w));
            }
        }
        r
    }

    /// The state of a core expression without holes.
    #[verifier::rlimit(60)]
    #[verifier::spinoff_prover]
    pub fn expr_to_state(&mut self, expr: &Expr) -> (r: State)
        requires
            old(self).wf(),
            closed_over(expr@, old(self).n()),
        ensures
            final(self).wf(),
            final(self).extends(old(self)),
            final(self).has(r),
            forall|w: Word|
                is_word(old(self).n(), w) ==> (#[trigger] final(self).accepts(r, w) <==> lang(
                    expr@,
                    old(self).n(),
                )(w)),
        decreases expr,
    {
        proof {
            self.lemma_wf();
        }
        let ghost n = self.n();
        match expr {
            Expr::Zero => self.mk_zero(),
            Expr::One => {
                let one = self.spp.one;
                self.mk_spp(one)
            },
            Expr::Top => self.mk_top(),
            Expr::Assign(field, value) => {
                let spp = self.spp.assign(*field, *value);
                proof {
                    self.lemma_grow(old(self));
                }
                self.mk_spp(spp)
            },
            Expr::Test(field, value) => {
                let spp = self.spp.test(*field, *value);
                proof {
                    self.lemma_grow(old(self));
                }
                self.mk_spp(spp)
            },
            Expr::Union(e1, e2) => {
                let aexp1 = self.expr_to_state(e1);
                let ghost mid = *self;
                let aexp2 = self.expr_to_state(e2);
                let ghost late = *self;
                let r = self.mk_union(aexp1, aexp2);
                proof {
                    assert forall|w: Word| is_word(n, w) implies (#[trigger] self.accepts(r, w)
                        <==> lang(expr@, n)(w)) by {
                        assert(late.accepts(aexp1, w) == mid.accepts(aexp1, w));
                        assert(late.accepts(aexp2, w) == lang(e2@, n)(w));
                    }
                }
                r
            },
            Expr::Intersect(e1, e2) => {
                let aexp1 = self.expr_to_state(e1);
                let ghost mid = *self;
                let aexp2 = self.expr_to_state(e2);
                let ghost late = *self;
                let r = self.mk_intersect(aexp1, aexp2);
                proof {
                    assert forall|w: Word| is_word(n, w) implies (#[trigger] self.accepts(r, w)
                        <==> lang(expr@, n)(w)) by {
                        assert(late.accepts(aexp1, w) == mid.accepts(aexp1, w));
                        assert(late.accepts(aexp2, w) == lang(e2@, n)(w));
                    }
                }
                r
            },
            Expr::Xor(e1, e2) => {
                let aexp1 = self.expr_to_state(e1);
                let ghost mid = *self;
                let aexp2 = self.expr_to_state(e2);
                let ghost late = *self;
                let r = self.mk_xor(aexp1, aexp2);
                proof {
                    assert forall|w: Word| is_word(n, w) implies (#[trigger] self.accepts(r, w)
                        <==> lang(expr@, n)(w)) by {
                        assert(late.accepts(aexp1, w) == mid.accepts(aexp1, w));
                        assert(late.accepts(aexp2, w) == lang(e2@, n)(w));
                    }
                }
                r
            },
            Expr::Difference(e1, e2) => {
                let aexp1 = self.expr_to_state(e1);
                let ghost mid = *self;
                let aexp2 = self.expr_to_state(e2);
                let ghost late = *self;
                let r = self.mk_difference(aexp1, aexp2);
                proof {
                    assert forall|w: Word| is_word(n, w) implies (#[trigger] self.accepts(r, w)
                        <==> lang(expr@, n)(w)) by {
                        assert(late.accepts(aexp1, w) == mid.accepts(aexp1, w));
                        assert(late.accepts(aexp2, w) == lang(e2@, n)(w));
                    }
                }
                r
            },
            Expr::Complement(e) => {
                let aexp = self.expr_to_state(e);
                let ghost mid = *self;
                let r = self.mk_complement(aexp);
                proof {
                    assert forall|w: Word| is_word(n, w) implies (#[trigger] self.accepts(r, w)
                        <==> lang(expr@, n)(w)) by {
                        assert(mid.accepts(aexp, w) == lang(e@, n)(w));
                    }
                }
                r
            },
            Expr::Sequence(e1, e2) => {
                let aexp1 = self.expr_to_state(e1);
                let ghost mid = *self;
                let aexp2 = self.expr_to_state(e2);
                let ghost late = *self;
                let r = self.mk_sequence(aexp1, aexp2);
                proof {
                    assert forall|w: Word| is_word(n, w) implies late.lang(aexp1)(w) == lang(
                        e1@,
                        n,
                    )(w) && late.lang(aexp2)(w) == lang(e2@, n)(w) by {
                        assert(late.accepts(aexp1, w) == mid.accepts(aexp1, w));
                        assert(late.accepts(aexp2, w) == lang(e2@, n)(w));
                    }
                    lemma_cat_same(
                        n,
                        late.lang(aexp1),
                        late.lang(aexp2),
                        lang(e1@, n),
                        lang(e2@, n),
                    );
                }
                r
            },
            Expr::Star(e) => {
                let aexp = self.expr_to_state(e);
                let ghost mid = *self;
                let r = self.mk_star(aexp);
                proof {
                    assert forall|w: Word| is_word(n, w) implies mid.lang(aexp)(w) == lang(
                        e@,
                        n,
                    )(w) by {
                        assert(mid.accepts(aexp, w) == lang(e@, n)(w));
                    }
                    lemma_star_same_lang(n, mid.lang(aexp), lang(e@, n));
                }
                r
            },
            Expr::Dup => self.mk_dup(),
            Expr::LtlNext(e) => {
                let aexp = self.expr_to_state(e);
                let ghost mid = *self;
                let r = self.mk_next(aexp);
                proof {
                    assert forall|w: Word| is_word(n, w) implies mid.lang(aexp)(w) == lang(
                        e@,
                        n,
                    )(w) by {
                        assert(mid.accepts(aexp, w) == lang(e@, n)(w));
                    }
                    lemma_next_same(n, mid.lang(aexp), lang(e@, n));
                }
                r
            },
            Expr::LtlUntil(e1, e2) => {
                let aexp1 = self.expr_to_state(e1);
                let ghost mid = *self;
                let aexp2 = self.expr_to_state(e2);
                let ghost late = *self;
                let r = self.mk_until(aexp1, aexp2);
                proof {
                    assert forall|w: Word| is_word(n, w) implies late.lang(aexp1)(w) == lang(
                        e1@,
                        n,
                    )(w) && late.lang(aexp2)(w) == lang(e2@, n)(w) by {
                        assert(late.accepts(aexp1, w) == mid.accepts(aexp1, w));
                        assert(late.accepts(aexp2, w) == lang(e2@, n)(w));
                    }
                    lemma_until_same(
                        n,
                        late.lang(aexp1),
                        late.lang(aexp2),
                        lang(e1@, n),
                        lang(e2@, n),
                    );
                }
                r
            },
            _ => {
                // What is left but for `End` is sugar, or a hole.
                let top = self.spp.top;
                self.mk_spp(top)
            },
        }
    }
}

// ---- operations on transitions -----------------------------------------------------

impl Aut {
    /// The transitions are sound for this automaton: between its states,
    /// deterministic, and none of them empty.
    pub open spec fn st_wf(&self, m: Map<State, SPP>) -> bool {
        &&& st_ok(self.tbl(), self.store(), m)
        &&& disjoint(self.store(), m)
        &&& tidy(self.tbl(), self.store(), m)
    }

    /// The transitions lead from `p` along `v`.
    pub open spec fn leads(&self, m: Map<State, SPP>, p: Pkt, v: Word) -> bool {
        leads(self.tbl(), self.store(), m, p, v)
    }

    /// Some transition takes `p` to `q`.
    pub open spec fn covers(&self, m: Map<State, SPP>, p: Pkt, q: Pkt) -> bool {
        exists|k: State| #[trigger] m.contains_key(k) && self.store().rel(m[k], p, q)
    }

    spec fn list_ok(&self, es: Seq<(State, SPP)>) -> bool {
        forall|i: int|
            0 <= i < es.len() ==> self.has((#[trigger] es[i]).0) && self.store().has(es[i].1)
    }

    spec fn list_leads(&self, es: Seq<(State, SPP)>, p: Pkt, v: Word) -> bool {
        exists|i: int|
            0 <= i < es.len() && self.store().rel((#[trigger] es[i]).1, p, v[0]) && self.accepts(
                es[i].0,
                v,
            )
    }

    spec fn list_covers(&self, es: Seq<(State, SPP)>, p: Pkt, q: Pkt) -> bool {
        exists|i: int| 0 <= i < es.len() && self.store().rel((#[trigger] es[i]).1, p, q)
    }

    proof fn lemma_listed(&self, es: Seq<(State, SPP)>, m: Map<State, SPP>)
        requires
            lists(es, m),
            st_ok(self.tbl(), self.store(), m),
        ensures
            self.list_ok(es),
            forall|p: Pkt, v: Word| #[trigger] self.leads(m, p, v) == self.list_leads(es, p, v),
            forall|p: Pkt, q: Pkt| #[trigger] self.covers(m, p, q) == self.list_covers(es, p, q),
    {
        assert forall|p: Pkt, v: Word| #[trigger]
            self.leads(m, p, v) == self.list_leads(es, p, v) by {
            if self.leads(m, p, v) {
                let k = choose|k: State| #[trigger]
                    m.contains_key(k) && self.store().rel(m[k], p, v[0]) && state_lang(
                        self.tbl(),
                        self.store(),
                        k,
                    )(v);
                let i = choose|i: int| 0 <= i < es.len() && (#[trigger] es[i]).0 == k;
                assert(self.store().rel(es[i].1, p, v[0]) && self.accepts(es[i].0, v));
            }
            if self.list_leads(es, p, v) {
                let i = choose|i: int|
                    0 <= i < es.len() && self.store().rel((#[trigger] es[i]).1, p, v[0])
                        && self.accepts(es[i].0, v);
                assert(m.contains_key(es[i].0));
            }
        }
        assert forall|p: Pkt, q: Pkt| #[trigger]
            self.covers(m, p, q) == self.list_covers(es, p, q) by {
            if self.covers(m, p, q) {
                let k = choose|k: State| #[trigger]
                    m.contains_key(k) && self.store().rel(m[k], p, q);
                let i = choose|i: int| 0 <= i < es.len() && (#[trigger] es[i]).0 == k;
                assert(self.store().rel(es[i].1, p, q));
            }
            if self.list_covers(es, p, q) {
                let i = choose|i: int|
                    0 <= i < es.len() && self.store().rel((#[trigger] es[i]).1, p, q);
                assert(m.contains_key(es[i].0));
            }
        }
    }

    /// Transitions of old states are kept.
    proof fn lemma_st_ext(&self, o: &Aut, m: Map<State, SPP>)
        requires
            o.wf(),
            self.extends(o),
            o.st_wf(m),
        ensures
            self.st_wf(m),
            forall|p: Pkt, v: Word|
                #![trigger self.leads(m, p, v)]
                #![trigger o.leads(m, p, v)]
                p.len() == o.n() && is_word(o.n(), v) ==> self.leads(m, p, v) == o.leads(m, p, v),
            forall|p: Pkt, q: Pkt|
                #![trigger self.covers(m, p, q)]
                #![trigger o.covers(m, p, q)]
                p.len() == o.n() && q.len() == o.n() ==> self.covers(m, p, q) == o.covers(m, p, q),
    {
        assert forall|k: State, l: State, p: Pkt, q: Pkt|
            #![trigger self.store().rel(m[k], p, q), self.store().rel(m[l], p, q)]
            m.contains_key(k) && m.contains_key(l) && p.len() == self.store().n() && q.len()
                == self.store().n() && self.store().rel(m[k], p, q) && self.store().rel(
                m[l],
                p,
                q,
            ) implies k == l by {
            assert(o.store().rel(m[k], p, q) && o.store().rel(m[l], p, q));
        }
        o.lemma_wf();
        assert forall|p: Pkt, v: Word|
            #![trigger self.leads(m, p, v)]
            p.len() == o.n() && is_word(o.n(), v) implies self.leads(m, p, v) == o.leads(
            m,
            p,
            v,
        ) by {
            lemma_leads_ext(o.tbl(), o.store(), self.tbl(), self.store(), m, p, v);
        }
        assert forall|p: Pkt, q: Pkt|
            #![trigger self.covers(m, p, q)]
            p.len() == o.n() && q.len() == o.n() implies self.covers(m, p, q) == o.covers(
            m,
            p,
            q,
        ) by {
            assert forall|k: State| #[trigger] m.contains_key(k) implies self.store().rel(
                m[k],
                p,
                q,
            ) == o.store().rel(m[k], p, q) by {}
        }
    }

    /// No transitions.
    pub fn st_empty(&mut self) -> (r: ST)
        ensures
            *final(self) == *old(self),
            r@ == Map::<State, SPP>::empty(),
    {
        ST::empty()
    }

    /// The transition to `state` by `spp`; none if the relation or the state is empty.
    pub fn st_singleton(&mut self, spp: SPP, state: State) -> (r: ST)
        requires
            old(self).wf(),
            old(self).has(state),
            old(self).store().has(spp),
        ensures
            final(self).wf(),
            final(self).extends(old(self)),
            final(self).st_wf(r@),
            forall|p: Pkt, v: Word|
                p.len() == old(self).n() && is_word(old(self).n(), v) ==> (
                #[trigger] final(self).leads(r@, p, v) <==> old(self).store().rel(spp, p, v[0])
                    && old(self).accepts(state, v)),
            r@ == if spp == old(self).store().zero || old(self).tbl()[state as int] == Node::SPP(
                old(self).store().zero,
            ) {
                Map::<State, SPP>::empty()
            } else {
                Map::<State, SPP>::empty().insert(state, spp)
            },
    {
        let mut st = ST::empty();
        self.st_insert_helper(&mut st, state, spp);
        st
    }

    /// Adds a transition whose pairs no other transition has.
    fn st_insert_helper(&mut self, st: &mut ST, state: State, spp: SPP)
        requires
            old(self).wf(),
            old(self).st_wf(old(st)@),
            old(self).has(state),
            old(self).store().has(spp),
            forall|p: Pkt, q: Pkt|
                #![trigger old(self).store().rel(spp, p, q)]
                p.len() == old(self).n() && q.len() == old(self).n() && old(self).store().rel(
                    spp,
                    p,
                    q,
                ) ==> !old(self).covers(old(st)@, p, q),
        ensures
            final(self).wf(),
            final(self).extends(old(self)),
            final(self).st_wf(final(st)@),
            forall|p: Pkt, v: Word|
                p.len() == old(self).n() && is_word(old(self).n(), v) ==> (
                #[trigger] final(self).leads(final(st)@, p, v) <==> old(self).leads(old(st)@, p, v)
                    || (old(self).store().rel(spp, p, v[0]) && old(self).accepts(state, v))),
            forall|p: Pkt, q: Pkt|
                p.len() == old(self).n() && q.len() == old(self).n() && #[trigger] final(self).covers(final(st)@, p, q) ==> old(self).covers(old(st)@, p, q) || old(self).store().rel(spp, p, q),
            spp == old(self).store().zero || old(self).tbl()[state as int] == Node::SPP(
                old(self).store().zero,
            ) ==> final(st)@ == old(st)@,
            spp != old(self).store().zero && old(self).tbl()[state as int] != Node::SPP(
                old(self).store().zero,
            ) && !old(st)@.contains_key(state) ==> final(st)@ == old(st)@.insert(state, spp),
    {
        let ghost m0 = st@;
        let ghost n = self.n();
        proof {
            self.lemma_wf();
        }
        if spp == self.spp.zero {
            return;
        }
        let zero = self.mk_zero();
        proof {
            self.lemma_st_ext(old(self), m0);
            assert(self.tbl()[state as int] == old(self).tbl()[state as int]);
            if self.tbl()[state as int] == Node::SPP(self.store().zero) {
                self.lemma_wf();
                reveal(table_ok);
                assert(self.tbl()[state as int] == self.tbl()[zero as int]);
            }
        }
        if state == zero {
            proof {
                assert forall|p: Pkt, v: Word|
                    p.len() == n && is_word(n, v) implies (#[trigger] self.leads(st@, p, v)
                    <==> old(self).leads(m0, p, v) || (old(self).store().rel(spp, p, v[0]) && old(self).accepts(state, v))) by {
                    assert(!self.accepts(zero, v));
                    assert(self.accepts(state, v) == old(self).accepts(state, v));
                }
            }
            return;
        }
        let ghost mid = *self;
        let existing: Option<SPP> = match st.transitions.get(&state) {
            Some(x) => Some(*x),
            None => None,
        };
        match existing {
            Some(x) => {
                assert(m0.contains_key(state) && m0[state] == x);
                let y = self.spp_union(x, spp);
                st.transitions.insert(state, y);
                assert(st@ =~= m0.insert(state, y));
            },
            None => {
                st.transitions.insert(state, spp);
                assert(st@ =~= m0.insert(state, spp));
                assert(!m0.contains_key(state));
            },
        }
        proof {
            let m1 = st@;
            assert(self.extends(&mid));
            // The pairs of the changed entry are the old ones and those of `spp`.
            assert forall|p: Pkt, q: Pkt|
                #![trigger self.store().rel(m1[state], p, q)]
                p.len() == n && q.len() == n implies (self.store().rel(m1[state], p, q) <==> (
            m0.contains_key(state) && mid.store().rel(m0[state], p, q)) || old(self).store().rel(
                spp,
                p,
                q,
            )) by {
                assert(mid.store().rel(spp, p, q) == old(self).store().rel(spp, p, q));
                assert(self.store().rel(spp, p, q) == mid.store().rel(spp, p, q));
            }
            assert forall|k: State| #[trigger] m1.contains_key(k) implies k < self.tbl().len()
                && self.store().has(m1[k]) by {
                if k != state {
                    assert(m0.contains_key(k));
                }
            }
            assert forall|k: State| #[trigger] m1.contains_key(k) implies m1[k]
                != self.store().zero && self.tbl()[k as int] != Node::SPP(self.store().zero) by {
                assert(self.tbl()[k as int] == mid.tbl()[k as int]);
                if k != state {
                    assert(m0.contains_key(k));
                } else {
                    old(self).lemma_wf();
                    self.lemma_wf();
                    old(self).store().lemma_nonzero(spp);
                    let (p, q) = choose|p: Pkt, q: Pkt|
                        p.len() == n && q.len() == n && old(self).store().rel(spp, p, q);
                    assert(self.store().rel(m1[state], p, q));
                    self.store().lemma_nonzero(m1[state]);
                }
            }
            assert forall|k: State, l: State, p: Pkt, q: Pkt|
                #![trigger self.store().rel(m1[k], p, q), self.store().rel(m1[l], p, q)]
                m1.contains_key(k) && m1.contains_key(l) && p.len() == n && q.len() == n
                    && self.store().rel(m1[k], p, q) && self.store().rel(
                    m1[l],
                    p,
                    q,
                ) implies k == l by {
                if k != l {
                    if k == state {
                        assert(m0.contains_key(l) && m1[l] == m0[l]);
                        assert(mid.store().rel(m0[l], p, q));
                        assert(old(self).store().rel(m0[l], p, q));
                        assert(old(self).covers(m0, p, q));
                        if m0.contains_key(state) && mid.store().rel(m0[state], p, q) {
                            assert(old(self).store().rel(m0[state], p, q));
                        }
                    } else if l == state {
                        assert(m0.contains_key(k) && m1[k] == m0[k]);
                        assert(mid.store().rel(m0[k], p, q));
                        assert(old(self).store().rel(m0[k], p, q));
                        assert(old(self).covers(m0, p, q));
                        if m0.contains_key(state) && mid.store().rel(m0[state], p, q) {
                            assert(old(self).store().rel(m0[state], p, q));
                        }
                    } else {
                        assert(m0.contains_key(k) && m0.contains_key(l));
                        assert(mid.store().rel(m0[k], p, q) && mid.store().rel(m0[l], p, q));
                    }
                }
            }
            assert forall|p: Pkt, v: Word| p.len() == n && is_word(n, v) implies (
            #[trigger] self.leads(m1, p, v) <==> old(self).leads(m0, p, v) || (old(self).store().rel(spp, p, v[0]) && old(self).accepts(state, v))) by {
                assert(self.accepts(state, v) == old(self).accepts(state, v));
                assert(m1.contains_key(state));
                if self.leads(m1, p, v) {
                    let k = choose|k: State| #[trigger]
                        m1.contains_key(k) && self.store().rel(m1[k], p, v[0]) && state_lang(
                            self.tbl(),
                            self.store(),
                            k,
                        )(v);
                    assert(self.accepts(k, v));
                    if k != state {
                        assert(m0.contains_key(k) && m0[k] == m1[k]);
                        assert(mid.store().rel(m0[k], p, v[0]));
                        assert(old(self).store().rel(m0[k], p, v[0]));
                        assert(old(self).accepts(k, v));
                        assert(old(self).leads(m0, p, v));
                    } else {
                        if m0.contains_key(state) && mid.store().rel(m0[state], p, v[0]) {
                            assert(old(self).store().rel(m0[state], p, v[0]));
                            assert(old(self).accepts(state, v));
                            assert(old(self).leads(m0, p, v));
                        }
                    }
                }
                if old(self).leads(m0, p, v) {
                    let k = choose|k: State| #[trigger]
                        m0.contains_key(k) && old(self).store().rel(m0[k], p, v[0]) && state_lang(
                            old(self).tbl(),
                            old(self).store(),
                            k,
                        )(v);
                    assert(old(self).accepts(k, v));
                    assert(self.accepts(k, v));
                    assert(mid.store().rel(m0[k], p, v[0]));
                    assert(m1.contains_key(k));
                    assert(self.store().rel(m1[k], p, v[0]));
                }
            }
            assert forall|p: Pkt, q: Pkt|
                p.len() == n && q.len() == n && #[trigger] self.covers(m1, p, q) implies old(self).covers(m0, p, q) || old(self).store().rel(spp, p, q) by {
                let k = choose|k: State| #[trigger]
                    m1.contains_key(k) && self.store().rel(m1[k], p, q);
                if k != state {
                    assert(m0.contains_key(k) && m0[k] == m1[k]);
                    assert(mid.store().rel(m0[k], p, q));
                    assert(old(self).store().rel(m0[k], p, q));
                } else if m0.contains_key(state) && mid.store().rel(m0[state], p, q) {
                    assert(old(self).store().rel(m0[state], p, q));
                }
            }
        }
    }

    /// The entries before `i` of the list, each also with `state` where `spp`
    /// has the pair.
    spec fn merged(
        &self,
        es: Seq<(State, SPP)>,
        i: int,
        state: State,
        spp: SPP,
        p: Pkt,
        v: Word,
    ) -> bool {
        exists|j: int|
            0 <= j < i && self.store().rel((#[trigger] es[j]).1, p, v[0]) && (self.accepts(
                es[j].0,
                v,
            ) || (self.store().rel(spp, p, v[0]) && self.accepts(state, v)))
    }

    /// Adds a transition.  Pairs that lead to another state already lead to the
    /// union of both from now on, so that the transitions stay deterministic.
    pub fn st_insert(&mut self, st: &mut ST, state: State, spp: SPP)
        requires
            old(self).wf(),
            st_ok(old(self).tbl(), old(self).store(), old(st)@),
            disjoint(old(self).store(), old(st)@),
            old(self).has(state),
            old(self).store().has(spp),
        ensures
            final(self).wf(),
            final(self).extends(old(self)),
            final(self).st_wf(final(st)@),
            forall|p: Pkt, v: Word|
                p.len() == old(self).n() && is_word(old(self).n(), v) ==> (
                #[trigger] final(self).leads(final(st)@, p, v) <==> old(self).leads(old(st)@, p, v)
                    || (old(self).store().rel(spp, p, v[0]) && old(self).accepts(state, v))),
            forall|p: Pkt, q: Pkt|
                p.len() == old(self).n() && q.len() == old(self).n() && #[trigger] final(self).covers(final(st)@, p, q) ==> old(self).covers(old(st)@, p, q) || old(self).store().rel(spp, p, q),
    {
        let ghost n = self.n();
        let ghost o = *old(self);
        proof {
            self.lemma_wf();
        }
        let es = st.entries();
        proof {
            o.lemma_listed(es@, st@);
        }
        let mut result = ST::empty();
        let mut total = self.spp.zero;
        let mut i: usize = 0;
        while i < es.len()
            invariant
                self.wf(),
                self.extends(&o),
                o.wf(),
                st_ok(o.tbl(), o.store(), st@),
                disjoint(o.store(), st@),
                lists(es@, st@),
                o.list_ok(es@),
                o.has(state),
                o.store().has(spp),
                n == o.n(),
                i <= es@.len(),
                self.st_wf(result@),
                self.store().has(total),
                forall|p: Pkt, q: Pkt|
                    #![trigger self.store().rel(total, p, q)]
                    p.len() == n && q.len() == n ==> (self.store().rel(total, p, q)
                        <==> o.store().rel(spp, p, q) && o.list_covers(
                        es@.take(i as int),
                        p,
                        q,
                    )),
                forall|p: Pkt, q: Pkt|
                    p.len() == n && q.len() == n && #[trigger] self.covers(result@, p, q)
                        ==> o.list_covers(es@.take(i as int), p, q),
                forall|p: Pkt, v: Word|
                    p.len() == n && is_word(n, v) ==> (#[trigger] self.leads(result@, p, v)
                        <==> o.merged(es@, i as int, state, spp, p, v)),
            decreases es.len() - i,
        {
            let (state2, spp2) = es[i];
            let ghost a0 = *self;
            let ghost r0 = result@;
            let ghost total0 = total;
            proof {
                assert(es@[i as int] == (state2, spp2));
            }
            let both = self.spp_intersect(spp, spp2);
            let ghost a1 = *self;
            let union_state = self.mk_union(state, state2);
            let ghost a2 = *self;
            proof {
                a1.lemma_st_ext(&a0, r0);
                a2.lemma_st_ext(&a1, r0);
                assert forall|p: Pkt, q: Pkt|
                    #![trigger a2.store().rel(both, p, q)]
                    p.len() == n && q.len() == n && a2.store().rel(both, p, q) implies !a2.covers(
                    r0,
                    p,
                    q,
                ) by {
                    assert(a1.store().rel(both, p, q));
                    assert(o.store().rel(spp2, p, q));
                    o.lemma_fresh_pair(es@, st@, i as int, p, q);
                    assert(!a0.covers(r0, p, q));
                }
            }
            self.st_insert_helper(&mut result, union_state, both);
            let ghost a3 = *self;
            let ghost r1 = result@;
            total = self.spp_union(total, both);
            let ghost a4 = *self;
            let rest = self.spp_difference(spp2, both);
            let ghost a5 = *self;
            proof {
                a4.lemma_st_ext(&a3, r1);
                a5.lemma_st_ext(&a4, r1);
                assert forall|p: Pkt, q: Pkt|
                    #![trigger a5.store().rel(rest, p, q)]
                    p.len() == n && q.len() == n && a5.store().rel(rest, p, q) implies !a5.covers(
                    r1,
                    p,
                    q,
                ) by {
                    assert(a4.store().rel(spp2, p, q) && !a4.store().rel(both, p, q));
                    assert(o.store().rel(spp2, p, q));
                    assert(!a1.store().rel(both, p, q));
                    assert(!a2.store().rel(both, p, q));
                    o.lemma_fresh_pair(es@, st@, i as int, p, q);
                    assert(!a0.covers(r0, p, q));
                    assert(!a2.covers(r0, p, q));
                    assert(!a3.covers(r1, p, q));
                }
            }
            self.st_insert_helper(&mut result, state2, rest);
            let ghost a6 = *self;
            proof {
                let t0 = es@.take(i as int);
                let t1 = es@.take(i + 1);
                assert(t1 =~= t0.push((state2, spp2)));
                assert forall|p: Pkt, q: Pkt| p.len() == n && q.len() == n implies (
                #[trigger] o.list_covers(t1, p, q) <==> o.list_covers(t0, p, q) || o.store().rel(
                    spp2,
                    p,
                    q,
                )) by {
                    o.lemma_covers_push(t0, (state2, spp2), p, q);
                }
                assert forall|p: Pkt, q: Pkt|
                    #![trigger a6.store().rel(total, p, q)]
                    p.len() == n && q.len() == n implies (a6.store().rel(total, p, q)
                    <==> o.store().rel(spp, p, q) && o.list_covers(t1, p, q)) by {
                    assert(a6.store().rel(total, p, q) == a4.store().rel(total, p, q));
                    assert(a3.store().rel(both, p, q) == a1.store().rel(both, p, q));
                    assert(a3.store().rel(total0, p, q) == a0.store().rel(total0, p, q));
                    assert(a0.store().rel(spp, p, q) == o.store().rel(spp, p, q));
                    assert(a0.store().rel(spp2, p, q) == o.store().rel(spp2, p, q));
                }
                assert forall|p: Pkt, q: Pkt|
                    p.len() == n && q.len() == n && #[trigger] a6.covers(
                        result@,
                        p,
                        q,
                    ) implies o.list_covers(t1, p, q) by {
                    assert(a5.covers(r1, p, q) || a5.store().rel(rest, p, q));
                    if a5.store().rel(rest, p, q) {
                        assert(a4.store().rel(spp2, p, q));
                        assert(o.store().rel(spp2, p, q));
                    } else {
                        assert(a3.covers(r1, p, q));
                        if a2.store().rel(both, p, q) {
                            assert(a1.store().rel(both, p, q));
                            assert(o.store().rel(spp2, p, q));
                        } else {
                            assert(a2.covers(r0, p, q));
                            assert(a0.covers(r0, p, q));
                        }
                    }
                }
                assert forall|p: Pkt, v: Word| p.len() == n && is_word(n, v) implies (
                #[trigger] a6.leads(result@, p, v) <==> o.merged(
                    es@,
                    i + 1,
                    state,
                    spp,
                    p,
                    v,
                )) by {
                    let q = v[0];
                    assert(a6.leads(result@, p, v) <==> a5.leads(r1, p, v) || (a5.store().rel(
                        rest,
                        p,
                        q,
                    ) && a5.accepts(state2, v)));
                    assert(a5.leads(r1, p, v) == a3.leads(r1, p, v));
                    assert(a3.leads(r1, p, v) <==> a2.leads(r0, p, v) || (a2.store().rel(
                        both,
                        p,
                        q,
                    ) && a2.accepts(union_state, v)));
                    assert(a2.leads(r0, p, v) == a0.leads(r0, p, v));
                    assert(a0.leads(r0, p, v) <==> o.merged(es@, i as int, state, spp, p, v));
                    assert(a2.accepts(union_state, v) <==> a1.accepts(state, v) || a1.accepts(
                        state2,
                        v,
                    ));
                    assert(a1.accepts(state, v) == o.accepts(state, v));
                    assert(a1.accepts(state2, v) == o.accepts(state2, v));
                    assert(a5.accepts(state2, v) == o.accepts(state2, v));
                    assert(a1.store().rel(both, p, q) <==> o.store().rel(spp, p, q)
                        && o.store().rel(spp2, p, q));
                    assert(a2.store().rel(both, p, q) == a1.store().rel(both, p, q));
                    assert(a4.store().rel(both, p, q) == a1.store().rel(both, p, q));
                    assert(a4.store().rel(spp2, p, q) == o.store().rel(spp2, p, q));
                    o.lemma_merged_step(es@, i as int, state, spp, p, v);
                }
            }
            i = i + 1;
        }
        let ghost b0 = *self;
        let ghost r2 = result@;
        let remaining = self.spp_difference(spp, total);
        let ghost b1 = *self;
        proof {
            assert(es@.take(i as int) =~= es@);
            b1.lemma_st_ext(&b0, r2);
            assert forall|p: Pkt, q: Pkt|
                #![trigger b1.store().rel(remaining, p, q)]
                p.len() == n && q.len() == n && b1.store().rel(remaining, p, q) implies !b1.covers(
                r2,
                p,
                q,
            ) by {
                assert(o.store().rel(spp, p, q) && !b0.store().rel(total, p, q));
                assert(!o.list_covers(es@, p, q));
                assert(!b0.covers(r2, p, q));
            }
        }
        self.st_insert_helper(&mut result, state, remaining);
        proof {
            let m0 = st@;
            let m1 = result@;
            assert forall|p: Pkt, v: Word| p.len() == n && is_word(n, v) implies (
            #[trigger] self.leads(m1, p, v) <==> o.leads(m0, p, v) || (o.store().rel(spp, p, v[0])
                && o.accepts(state, v))) by {
                let q = v[0];
                assert(self.leads(m1, p, v) <==> b1.leads(r2, p, v) || (b1.store().rel(
                    remaining,
                    p,
                    q,
                ) && b1.accepts(state, v)));
                assert(b1.leads(r2, p, v) == b0.leads(r2, p, v));
                assert(b0.leads(r2, p, v) <==> o.merged(es@, es@.len() as int, state, spp, p, v));
                assert(b1.accepts(state, v) == o.accepts(state, v));
                assert(b0.store().rel(spp, p, q) == o.store().rel(spp, p, q));
                assert(b1.store().rel(remaining, p, q) <==> o.store().rel(spp, p, q)
                    && !o.list_covers(es@, p, q));
                assert(o.leads(m0, p, v) == o.list_leads(es@, p, v));
                o.lemma_merged_all(es@, state, spp, p, v);
            }
            assert forall|p: Pkt, q: Pkt|
                p.len() == n && q.len() == n && #[trigger] self.covers(m1, p, q) implies o.covers(
                m0,
                p,
                q,
            ) || o.store().rel(spp, p, q) by {
                assert(b1.covers(r2, p, q) || b1.store().rel(remaining, p, q));
                if b1.covers(r2, p, q) {
                    assert(b0.covers(r2, p, q));
                    assert(o.list_covers(es@, p, q));
                    assert(o.covers(m0, p, q));
                } else {
                    assert(b0.store().rel(spp, p, q));
                }
            }
        }
        *st = result;
    }

    /// No earlier entry has a pair of entry `i`.
    proof fn lemma_fresh_pair(
        &self,
        es: Seq<(State, SPP)>,
        m: Map<State, SPP>,
        i: int,
        p: Pkt,
        q: Pkt,
    )
        requires
            lists(es, m),
            st_ok(self.tbl(), self.store(), m),
            disjoint(self.store(), m),
            0 <= i < es.len(),
            p.len() == self.n(),
            q.len() == self.n(),
            self.store().rel(es[i].1, p, q),
        ensures
            !self.list_covers(es.take(i), p, q),
    {
        let t = es.take(i);
        if self.list_covers(t, p, q) {
            let j = choose|j: int| 0 <= j < t.len() && self.store().rel((#[trigger] t[j]).1, p, q);
            assert(t[j] == es[j]);
            assert(es[i].0 != es[j].0);
            assert(m.contains_key(es[i].0) && m.contains_key(es[j].0));
            assert(self.store().rel(m[es[i].0], p, q) && self.store().rel(m[es[j].0], p, q));
        }
    }

    proof fn lemma_covers_push(
        &self,
        es: Seq<(State, SPP)>,
        e: (State, SPP),
        p: Pkt,
        q: Pkt,
    )
        ensures
            self.list_covers(es.push(e), p, q) <==> self.list_covers(es, p, q) || self.store().rel(
                e.1,
                p,
                q,
            ),
    {
        let fs = es.push(e);
        assert(fs[es.len() as int] == e);
        if self.list_covers(es, p, q) {
            let j = choose|j: int| 0 <= j < es.len() && self.store().rel((#[trigger] es[j]).1, p, q);
            assert(fs[j] == es[j]);
        }
        if self.list_covers(fs, p, q) && !self.store().rel(e.1, p, q) {
            let j = choose|j: int| 0 <= j < fs.len() && self.store().rel((#[trigger] fs[j]).1, p, q);
            assert(fs[j] == es[j]);
        }
    }

    proof fn lemma_merged_step(
        &self,
        es: Seq<(State, SPP)>,
        i: int,
        state: State,
        spp: SPP,
        p: Pkt,
        v: Word,
    )
        requires
            0 <= i < es.len(),
        ensures
            self.merged(es, i + 1, state, spp, p, v) <==> self.merged(es, i, state, spp, p, v) || (
            self.store().rel(es[i].1, p, v[0]) && (self.accepts(es[i].0, v) || (self.store().rel(
                spp,
                p,
                v[0],
            ) && self.accepts(state, v)))),
    {
        if self.merged(es, i + 1, state, spp, p, v) {
            let j = choose|j: int|
                0 <= j < i + 1 && self.store().rel((#[trigger] es[j]).1, p, v[0]) && (self.accepts(
                    es[j].0,
                    v,
                ) || (self.store().rel(spp, p, v[0]) && self.accepts(state, v)));
            if j < i {
                assert(self.store().rel(es[j].1, p, v[0]));
            }
        }
        if self.merged(es, i, state, spp, p, v) {
            let j = choose|j: int|
                0 <= j < i && self.store().rel((#[trigger] es[j]).1, p, v[0]) && (self.accepts(
                    es[j].0,
                    v,
                ) || (self.store().rel(spp, p, v[0]) && self.accepts(state, v)));
            assert(self.store().rel(es[j].1, p, v[0]));
        }
    }

    proof fn lemma_merged_all(
        &self,
        es: Seq<(State, SPP)>,
        state: State,
        spp: SPP,
        p: Pkt,
        v: Word,
    )
        ensures
            self.merged(es, es.len() as int, state, spp, p, v) <==> self.list_leads(es, p, v) || (
            self.list_covers(es, p, v[0]) && self.store().rel(spp, p, v[0]) && self.accepts(
                state,
                v,
            )),
    {
        if self.merged(es, es.len() as int, state, spp, p, v) {
            let j = choose|j: int|
                0 <= j < es.len() && self.store().rel((#[trigger] es[j]).1, p, v[0]) && (
                self.accepts(es[j].0, v) || (self.store().rel(spp, p, v[0]) && self.accepts(
                    state,
                    v,
                )));
            assert(self.store().rel(es[j].1, p, v[0]));
        }
        if self.list_leads(es, p, v) {
            let j = choose|j: int|
                0 <= j < es.len() && self.store().rel((#[trigger] es[j]).1, p, v[0])
                    && self.accepts(es[j].0, v);
            assert(self.store().rel(es[j].1, p, v[0]));
        }
        if self.list_covers(es, p, v[0]) && self.store().rel(spp, p, v[0]) && self.accepts(
            state,
            v,
        ) {
            let j = choose|j: int|
                0 <= j < es.len() && self.store().rel((#[trigger] es[j]).1, p, v[0]);
            assert(self.store().rel(es[j].1, p, v[0]));
        }
    }

    proof fn lemma_leads_push(&self, es: Seq<(State, SPP)>, e: (State, SPP), p: Pkt, v: Word)
        ensures
            self.list_leads(es.push(e), p, v) <==> self.list_leads(es, p, v) || (
            self.store().rel(e.1, p, v[0]) && self.accepts(e.0, v)),
    {
        let fs = es.push(e);
        assert(fs[es.len() as int] == e);
        if self.list_leads(es, p, v) {
            let j = choose|j: int|
                0 <= j < es.len() && self.store().rel((#[trigger] es[j]).1, p, v[0])
                    && self.accepts(es[j].0, v);
            assert(fs[j] == es[j]);
        }
        if self.list_leads(fs, p, v) && !(self.store().rel(e.1, p, v[0]) && self.accepts(e.0, v)) {
            let j = choose|j: int|
                0 <= j < fs.len() && self.store().rel((#[trigger] fs[j]).1, p, v[0])
                    && self.accepts(fs[j].0, v);
            assert(fs[j] == es[j]);
        }
    }

    /// Adds a list of transitions.
    fn st_add(&mut self, st: &mut ST, es: &Vec<(State, SPP)>)
        requires
            old(self).wf(),
            old(self).st_wf(old(st)@),
            old(self).list_ok(es@),
        ensures
            final(self).wf(),
            final(self).extends(old(self)),
            final(self).st_wf(final(st)@),
            forall|p: Pkt, v: Word|
                p.len() == old(self).n() && is_word(old(self).n(), v) ==> (
                #[trigger] final(self).leads(final(st)@, p, v) <==> old(self).leads(old(st)@, p, v)
                    || old(self).list_leads(es@, p, v)),
    {
        let ghost n = self.n();
        let ghost o = *old(self);
        let ghost m0 = st@;
        proof {
            assert(es@.take(0) =~= Seq::<(State, SPP)>::empty());
        }
        let mut i: usize = 0;
        while i < es.len()
            invariant
                self.wf(),
                self.extends(&o),
                o.wf(),
                o.list_ok(es@),
                n == o.n(),
                i <= es@.len(),
                self.st_wf(st@),
                forall|p: Pkt, v: Word|
                    p.len() == n && is_word(n, v) ==> (#[trigger] self.leads(st@, p, v) <==> o.leads(
                        m0,
                        p,
                        v,
                    ) || o.list_leads(es@.take(i as int), p, v)),
            decreases es.len() - i,
        {
            let (state, spp) = es[i];
            let ghost a = *self;
            let ghost m = st@;
            proof {
                assert(es@[i as int] == (state, spp));
            }
            self.st_insert(st, state, spp);
            proof {
                let t = es@.take(i as int);
                assert(es@.take(i + 1) =~= t.push((state, spp)));
                assert forall|p: Pkt, v: Word| p.len() == n && is_word(n, v) implies (
                #[trigger] self.leads(st@, p, v) <==> o.leads(m0, p, v) || o.list_leads(
                    es@.take(i + 1),
                    p,
                    v,
                )) by {
                    o.lemma_leads_push(t, (state, spp), p, v);
                    assert(a.leads(m, p, v) <==> o.leads(m0, p, v) || o.list_leads(t, p, v));
                    assert(a.store().rel(spp, p, v[0]) == o.store().rel(spp, p, v[0]));
                    assert(a.accepts(state, v) == o.accepts(state, v));
                }
            }
            i = i + 1;
        }
        proof {
            assert(es@.take(i as int) =~= es@);
        }
    }

    /// The transitions of both.
    pub fn st_union(&mut self, st1: ST, st2: ST) -> (r: ST)
        requires
            old(self).wf(),
            st_ok(old(self).tbl(), old(self).store(), st1@),
            st_ok(old(self).tbl(), old(self).store(), st2@),
        ensures
            final(self).wf(),
            final(self).extends(old(self)),
            final(self).st_wf(r@),
            forall|p: Pkt, v: Word|
                p.len() == old(self).n() && is_word(old(self).n(), v) ==> (
                #[trigger] final(self).leads(r@, p, v) <==> old(self).leads(st1@, p, v) || old(self).leads(st2@, p, v)),
    {
        let ghost n = self.n();
        let ghost o = *old(self);
        let mut result = ST::empty();
        let es1 = st1.entries();
        let es2 = st2.entries();
        proof {
            o.lemma_listed(es1@, st1@);
            o.lemma_listed(es2@, st2@);
        }
        self.st_add(&mut result, &es1);
        let ghost a = *self;
        let ghost m = result@;
        self.st_add(&mut result, &es2);
        proof {
            assert forall|p: Pkt, v: Word| p.len() == n && is_word(n, v) implies (
            #[trigger] self.leads(result@, p, v) <==> o.leads(st1@, p, v) || o.leads(
                st2@,
                p,
                v,
            )) by {
                assert(a.leads(m, p, v) <==> o.list_leads(es1@, p, v));
                assert(o.leads(st1@, p, v) == o.list_leads(es1@, p, v));
                assert(o.leads(st2@, p, v) == o.list_leads(es2@, p, v));
                a.lemma_list_leads_ext(&o, es2@, p, v);
            }
        }
        result
    }

    proof fn lemma_list_leads_ext(&self, o: &Aut, es: Seq<(State, SPP)>, p: Pkt, v: Word)
        requires
            self.extends(o),
            o.list_ok(es),
            p.len() == o.n(),
            is_word(o.n(), v),
        ensures
            self.list_leads(es, p, v) == o.list_leads(es, p, v),
    {
        assert forall|j: int| 0 <= j < es.len() implies self.store().rel(
            (#[trigger] es[j]).1,
            p,
            v[0],
        ) == o.store().rel(es[j].1, p, v[0]) && self.accepts(es[j].0, v) == o.accepts(
            es[j].0,
            v,
        ) by {}
        if self.list_leads(es, p, v) {
            let j = choose|j: int|
                0 <= j < es.len() && self.store().rel((#[trigger] es[j]).1, p, v[0])
                    && self.accepts(es[j].0, v);
            assert(o.store().rel(es[j].1, p, v[0]));
        }
        if o.list_leads(es, p, v) {
            let j = choose|j: int|
                0 <= j < es.len() && o.store().rel((#[trigger] es[j]).1, p, v[0]) && o.accepts(
                    es[j].0,
                    v,
                );
            assert(self.store().rel(es[j].1, p, v[0]));
        }
    }

    /// The transitions along which both lead.
    fn st_intersect(&mut self, st1: ST, st2: ST) -> (r: ST)
        requires
            old(self).wf(),
            old(self).st_wf(st1@),
            old(self).st_wf(st2@),
        ensures
            final(self).wf(),
            final(self).extends(old(self)),
            final(self).st_wf(r@),
            forall|p: Pkt, v: Word|
                p.len() == old(self).n() && is_word(old(self).n(), v) ==> (
                #[trigger] final(self).leads(r@, p, v) <==> old(self).leads(st1@, p, v) && old(self).leads(st2@, p, v)),
    {
        let ghost n = self.n();
        let ghost o = *old(self);
        let es1 = st1.entries();
        let es2 = st2.entries();
        proof {
            o.lemma_listed(es1@, st1@);
            o.lemma_listed(es2@, st2@);
        }
        let mut result = ST::empty();
        let mut i: usize = 0;
        while i < es1.len()
            invariant
                self.wf(),
                self.extends(&o),
                o.wf(),
                o.list_ok(es1@),
                o.list_ok(es2@),
                n == o.n(),
                i <= es1@.len(),
                self.st_wf(result@),
                forall|p: Pkt, v: Word|
                    p.len() == n && is_word(n, v) ==> (#[trigger] self.leads(result@, p, v)
                        <==> o.list_leads(es1@.take(i as int), p, v) && o.list_leads(es2@, p, v)),
            decreases es1.len() - i,
        {
            let (state1, spp1) = es1[i];
            let ghost t1 = es1@.take(i as int);
            proof {
                assert(es1@[i as int] == (state1, spp1));
            }
            let ghost a0 = *self;
            let ghost m0 = result@;
            let mut j: usize = 0;
            while j < es2.len()
                invariant
                    self.wf(),
                    self.extends(&o),
                    o.wf(),
                    o.list_ok(es2@),
                    o.has(state1),
                    o.store().has(spp1),
                    n == o.n(),
                    j <= es2@.len(),
                    self.st_wf(result@),
                    forall|p: Pkt, v: Word|
                        p.len() == n && is_word(n, v) ==> (#[trigger] self.leads(result@, p, v) <==> (
                        a0.leads(m0, p, v) || (o.store().rel(spp1, p, v[0]) && o.accepts(state1, v)
                            && o.list_leads(es2@.take(j as int), p, v)))),
                decreases es2.len() - j,
            {
                let (state2, spp2) = es2[j];
                let ghost t2 = es2@.take(j as int);
                let ghost a1 = *self;
                let ghost m1 = result@;
                proof {
                    assert(es2@[j as int] == (state2, spp2));
                }
                let intersect_state = self.mk_intersect(state1, state2);
                let ghost a2 = *self;
                let spp = self.spp_intersect(spp1, spp2);
                let ghost a3 = *self;
                proof {
                    a2.lemma_st_ext(&a1, m1);
                    a3.lemma_st_ext(&a2, m1);
                }
                self.st_insert(&mut result, intersect_state, spp);
                proof {
                    assert(es2@.take(j + 1) =~= t2.push((state2, spp2)));
                    assert forall|p: Pkt, v: Word| p.len() == n && is_word(n, v) implies (
                    #[trigger] self.leads(result@, p, v) <==> (a0.leads(m0, p, v) || (o.store().rel(
                        spp1,
                        p,
                        v[0],
                    ) && o.accepts(state1, v) && o.list_leads(es2@.take(j + 1), p, v)))) by {
                        let q = v[0];
                        o.lemma_leads_push(t2, (state2, spp2), p, v);
                        assert(self.leads(result@, p, v) <==> a3.leads(m1, p, v) || (
                        a3.store().rel(spp, p, q) && a3.accepts(intersect_state, v)));
                        assert(a3.leads(m1, p, v) == a2.leads(m1, p, v));
                        assert(a2.leads(m1, p, v) == a1.leads(m1, p, v));
                        assert(a3.accepts(intersect_state, v) == a2.accepts(intersect_state, v));
                        assert(a2.accepts(intersect_state, v) <==> a1.accepts(state1, v)
                            && a1.accepts(state2, v));
                        assert(a1.accepts(state1, v) == o.accepts(state1, v));
                        assert(a1.accepts(state2, v) == o.accepts(state2, v));
                        assert(a2.store().rel(spp1, p, q) == o.store().rel(spp1, p, q));
                        assert(a2.store().rel(spp2, p, q) == o.store().rel(spp2, p, q));
                    }
                }
                j = j + 1;
            }
            proof {
                assert(es2@.take(j as int) =~= es2@);
                assert(es1@.take(i + 1) =~= t1.push((state1, spp1)));
                assert forall|p: Pkt, v: Word| p.len() == n && is_word(n, v) implies (
                #[trigger] self.leads(result@, p, v) <==> o.list_leads(es1@.take(i + 1), p, v)
                    && o.list_leads(es2@, p, v)) by {
                    o.lemma_leads_push(t1, (state1, spp1), p, v);
                    assert(a0.leads(m0, p, v) <==> o.list_leads(t1, p, v) && o.list_leads(
                        es2@,
                        p,
                        v,
                    ));
                }
            }
            i = i + 1;
        }
        proof {
            assert(es1@.take(i as int) =~= es1@);
            assert forall|p: Pkt, v: Word| p.len() == n && is_word(n, v) implies (
            #[trigger] self.leads(result@, p, v) <==> o.leads(st1@, p, v) && o.leads(
                st2@,
                p,
                v,
            )) by {
                assert(o.leads(st1@, p, v) == o.list_leads(es1@, p, v));
                assert(o.leads(st2@, p, v) == o.list_leads(es2@, p, v));
            }
        }
        result
    }

    proof fn lemma_leads_covers(&self, es: Seq<(State, SPP)>, p: Pkt, v: Word)
        requires
            self.list_leads(es, p, v),
        ensures
            self.list_covers(es, p, v[0]),
    {
        let j = choose|j: int|
            0 <= j < es.len() && self.store().rel((#[trigger] es[j]).1, p, v[0]) && self.accepts(
                es[j].0,
                v,
            );
        assert(self.store().rel(es[j].1, p, v[0]));
    }

    /// The entries have one step for a pair of packets, and not along `v`.
    spec fn misses(&self, es: Seq<(State, SPP)>, p: Pkt, v: Word) -> bool {
        self.list_covers(es, p, v[0]) && !self.list_leads(es, p, v)
    }

    proof fn lemma_misses_step(
        &self,
        es: Seq<(State, SPP)>,
        m: Map<State, SPP>,
        i: int,
        p: Pkt,
        v: Word,
    )
        requires
            lists(es, m),
            self.st_wf(m),
            0 <= i < es.len(),
            p.len() == self.n(),
            is_word(self.n(), v),
        ensures
            self.misses(es.take(i + 1), p, v) <==> self.misses(es.take(i), p, v) || (
            self.store().rel(es[i].1, p, v[0]) && !self.accepts(es[i].0, v)),
    {
        let t = es.take(i);
        assert(es.take(i + 1) =~= t.push(es[i]));
        self.lemma_covers_push(t, es[i], p, v[0]);
        self.lemma_leads_push(t, es[i], p, v);
        if self.store().rel(es[i].1, p, v[0]) {
            self.lemma_fresh_pair(es, m, i, p, v[0]);
            if self.list_leads(t, p, v) {
                self.lemma_leads_covers(t, p, v);
            }
        }
    }

    /// The transitions along which the first leads and the second does not.
    fn st_difference(&mut self, st1: ST, st2: ST) -> (r: ST)
        requires
            old(self).wf(),
            old(self).st_wf(st1@),
            old(self).st_wf(st2@),
        ensures
            final(self).wf(),
            final(self).extends(old(self)),
            final(self).st_wf(r@),
            forall|p: Pkt, v: Word|
                p.len() == old(self).n() && is_word(old(self).n(), v) ==> (
                #[trigger] final(self).leads(r@, p, v) <==> old(self).leads(st1@, p, v) && !old(self).leads(st2@, p, v)),
    {
        let ghost n = self.n();
        let ghost o = *old(self);
        let es1 = st1.entries();
        let es2 = st2.entries();
        proof {
            self.lemma_wf();
            o.lemma_listed(es1@, st1@);
            o.lemma_listed(es2@, st2@);
        }
        let mut result = ST::empty();
        let mut spp_sum = self.spp.zero;
        let mut i: usize = 0;
        while i < es1.len()
            invariant
                self.wf(),
                self.extends(&o),
                o.wf(),
                o.list_ok(es1@),
                o.list_ok(es2@),
                lists(es2@, st2@),
                o.st_wf(st2@),
                n == o.n(),
                i <= es1@.len(),
                self.st_wf(result@),
                self.store().has(spp_sum),
                forall|p: Pkt, q: Pkt|
                    #![trigger self.store().rel(spp_sum, p, q)]
                    p.len() == n && q.len() == n ==> (self.store().rel(spp_sum, p, q)
                        <==> o.list_covers(es1@.take(i as int), p, q) && o.list_covers(es2@, p, q)),
                forall|p: Pkt, v: Word|
                    p.len() == n && is_word(n, v) ==> (#[trigger] self.leads(result@, p, v)
                        <==> o.list_leads(es1@.take(i as int), p, v) && o.misses(es2@, p, v)),
            decreases es1.len() - i,
        {
            let (state1, spp1) = es1[i];
            let ghost t1 = es1@.take(i as int);
            proof {
                assert(es1@[i as int] == (state1, spp1));
                assert(es2@.take(0) =~= Seq::<(State, SPP)>::empty());
            }
            let ghost a0 = *self;
            let ghost m0 = result@;
            let ghost sum0 = spp_sum;
            let mut j: usize = 0;
            while j < es2.len()
                invariant
                    self.wf(),
                    self.extends(&o),
                    o.wf(),
                    o.list_ok(es2@),
                    lists(es2@, st2@),
                    o.st_wf(st2@),
                    o.has(state1),
                    o.store().has(spp1),
                    n == o.n(),
                    j <= es2@.len(),
                    self.st_wf(result@),
                    self.store().has(spp_sum),
                    forall|p: Pkt, q: Pkt|
                        #![trigger self.store().rel(spp_sum, p, q)]
                        p.len() == n && q.len() == n ==> (self.store().rel(spp_sum, p, q) <==> (
                        a0.store().rel(sum0, p, q) || (o.store().rel(spp1, p, q) && o.list_covers(
                            es2@.take(j as int),
                            p,
                            q,
                        )))),
                    forall|p: Pkt, v: Word|
                        p.len() == n && is_word(n, v) ==> (#[trigger] self.leads(result@, p, v) <==> (
                        a0.leads(m0, p, v) || (o.store().rel(spp1, p, v[0]) && o.accepts(state1, v)
                            && o.misses(es2@.take(j as int), p, v)))),
                decreases es2.len() - j,
            {
                let (state2, spp2) = es2[j];
                let ghost t2 = es2@.take(j as int);
                let ghost a1 = *self;
                let ghost m1 = result@;
                let ghost sum1 = spp_sum;
                proof {
                    assert(es2@[j as int] == (state2, spp2));
                }
                let diff_state = self.mk_difference(state1, state2);
                let ghost a2 = *self;
                let inter_spp = self.spp_intersect(spp1, spp2);
                let ghost a3 = *self;
                spp_sum = self.spp_union(spp_sum, inter_spp);
                let ghost a4 = *self;
                proof {
                    a2.lemma_st_ext(&a1, m1);
                    a3.lemma_st_ext(&a2, m1);
                    a4.lemma_st_ext(&a3, m1);
                }
                self.st_insert(&mut result, diff_state, inter_spp);
                proof {
                    assert(es2@.take(j + 1) =~= t2.push((state2, spp2)));
                    assert forall|p: Pkt, q: Pkt|
                        #![trigger self.store().rel(spp_sum, p, q)]
                        p.len() == n && q.len() == n implies (self.store().rel(spp_sum, p, q) <==> (
                    a0.store().rel(sum0, p, q) || (o.store().rel(spp1, p, q) && o.list_covers(
                        es2@.take(j + 1),
                        p,
                        q,
                    )))) by {
                        o.lemma_covers_push(t2, (state2, spp2), p, q);
                        assert(self.store().rel(spp_sum, p, q) == a4.store().rel(spp_sum, p, q));
                        assert(a3.store().rel(sum1, p, q) == a1.store().rel(sum1, p, q));
                        assert(a2.store().rel(spp1, p, q) == o.store().rel(spp1, p, q));
                        assert(a2.store().rel(spp2, p, q) == o.store().rel(spp2, p, q));
                    }
                    assert forall|p: Pkt, v: Word| p.len() == n && is_word(n, v) implies (
                    #[trigger] self.leads(result@, p, v) <==> (a0.leads(m0, p, v) || (o.store().rel(
                        spp1,
                        p,
                        v[0],
                    ) && o.accepts(state1, v) && o.misses(es2@.take(j + 1), p, v)))) by {
                        let q = v[0];
                        o.lemma_misses_step(es2@, st2@, j as int, p, v);
                        assert(self.leads(result@, p, v) <==> a4.leads(m1, p, v) || (
                        a4.store().rel(inter_spp, p, q) && a4.accepts(diff_state, v)));
                        assert(a4.leads(m1, p, v) == a3.leads(m1, p, v));
                        assert(a3.leads(m1, p, v) == a2.leads(m1, p, v));
                        assert(a2.leads(m1, p, v) == a1.leads(m1, p, v));
                        assert(a4.accepts(diff_state, v) == a2.accepts(diff_state, v));
                        assert(a2.accepts(diff_state, v) <==> a1.accepts(state1, v)
                            && !a1.accepts(state2, v));
                        assert(a1.accepts(state1, v) == o.accepts(state1, v));
                        assert(a1.accepts(state2, v) == o.accepts(state2, v));
                        assert(a4.store().rel(inter_spp, p, q) == a3.store().rel(inter_spp, p, q));
                        assert(a2.store().rel(spp1, p, q) == o.store().rel(spp1, p, q));
                        assert(a2.store().rel(spp2, p, q) == o.store().rel(spp2, p, q));
                    }
                }
                j = j + 1;
            }
            proof {
                assert(es2@.take(j as int) =~= es2@);
                assert(es1@.take(i + 1) =~= t1.push((state1, spp1)));
                assert forall|p: Pkt, q: Pkt|
                    #![trigger self.store().rel(spp_sum, p, q)]
                    p.len() == n && q.len() == n implies (self.store().rel(spp_sum, p, q)
                    <==> o.list_covers(es1@.take(i + 1), p, q) && o.list_covers(es2@, p, q)) by {
                    o.lemma_covers_push(t1, (state1, spp1), p, q);
                    assert(a0.store().rel(sum0, p, q) <==> o.list_covers(t1, p, q)
                        && o.list_covers(es2@, p, q));
                }
                assert forall|p: Pkt, v: Word| p.len() == n && is_word(n, v) implies (
                #[trigger] self.leads(result@, p, v) <==> o.list_leads(es1@.take(i + 1), p, v)
                    && o.misses(es2@, p, v)) by {
                    o.lemma_leads_push(t1, (state1, spp1), p, v);
                    assert(a0.leads(m0, p, v) <==> o.list_leads(t1, p, v) && o.misses(es2@, p, v));
                }
            }
            i = i + 1;
        }
        proof {
            assert(es1@.take(i as int) =~= es1@);
        }
        let ghost b = *self;
        let ghost m = result@;
        let mut rest: Vec<(State, SPP)> = Vec::new();
        let mut k: usize = 0;
        while k < es1.len()
            invariant
                self.wf(),
                self.extends(&b),
                b.extends(&o),
                b.wf(),
                o.wf(),
                o.list_ok(es1@),
                n == o.n(),
                k <= es1@.len(),
                b.st_wf(m),
                b.store().has(spp_sum),
                self.list_ok(rest@),
                rest@.len() == k,
                forall|j: int| 0 <= j < k ==> (#[trigger] rest@[j]).0 == es1@[j].0,
                forall|j: int, p: Pkt, q: Pkt|
                    #![trigger self.store().rel(rest@[j].1, p, q)]
                    0 <= j < k && p.len() == n && q.len() == n ==> (self.store().rel(
                        rest@[j].1,
                        p,
                        q,
                    ) <==> o.store().rel(es1@[j].1, p, q) && !b.store().rel(spp_sum, p, q)),
            decreases es1.len() - k,
        {
            let (state, spp) = es1[k];
            let ghost a = *self;
            let ghost r0 = rest@;
            proof {
                assert(es1@[k as int] == (state, spp));
            }
            let diff_spp = self.spp_difference(spp, spp_sum);
            rest.push((state, diff_spp));
            proof {
                assert forall|j: int| 0 <= j < rest@.len() implies self.has((#[trigger] rest@[j]).0)
                    && self.store().has(rest@[j].1) by {
                    if j < k {
                        assert(rest@[j] == r0[j]);
                    }
                }
                assert forall|j: int, p: Pkt, q: Pkt|
                    #![trigger self.store().rel(rest@[j].1, p, q)]
                    0 <= j < k + 1 && p.len() == n && q.len() == n implies (self.store().rel(
                    rest@[j].1,
                    p,
                    q,
                ) <==> o.store().rel(es1@[j].1, p, q) && !b.store().rel(spp_sum, p, q)) by {
                    if j < k {
                        assert(rest@[j] == r0[j]);
                        assert(a.store().rel(r0[j].1, p, q) == self.store().rel(r0[j].1, p, q));
                    } else {
                        assert(a.store().rel(spp, p, q) == o.store().rel(spp, p, q));
                        assert(a.store().rel(spp_sum, p, q) == b.store().rel(spp_sum, p, q));
                    }
                }
            }
            k = k + 1;
        }
        let ghost c = *self;
        proof {
            c.lemma_st_ext(&b, m);
        }
        self.st_add(&mut result, &rest);
        proof {
            assert forall|p: Pkt, v: Word| p.len() == n && is_word(n, v) implies (
            #[trigger] self.leads(result@, p, v) <==> o.leads(st1@, p, v) && !o.leads(
                st2@,
                p,
                v,
            )) by {
                let q = v[0];
                assert(o.leads(st1@, p, v) == o.list_leads(es1@, p, v));
                assert(o.leads(st2@, p, v) == o.list_leads(es2@, p, v));
                assert(self.leads(result@, p, v) <==> c.leads(m, p, v) || c.list_leads(
                    rest@,
                    p,
                    v,
                ));
                assert(c.leads(m, p, v) == b.leads(m, p, v));
                if c.list_leads(rest@, p, v) {
                    let j = choose|j: int|
                        0 <= j < rest@.len() && c.store().rel((#[trigger] rest@[j]).1, p, v[0])
                            && c.accepts(rest@[j].0, v);
                    assert(o.store().rel(es1@[j].1, p, q) && o.accepts(es1@[j].0, v));
                    assert(!b.store().rel(spp_sum, p, q));
                }
                if o.list_leads(es1@, p, v) && !b.store().rel(spp_sum, p, q) {
                    let j = choose|j: int|
                        0 <= j < es1@.len() && o.store().rel((#[trigger] es1@[j]).1, p, v[0])
                            && o.accepts(es1@[j].0, v);
                    assert(c.store().rel(rest@[j].1, p, q) && c.accepts(rest@[j].0, v));
                }
                if o.list_leads(es1@, p, v) {
                    o.lemma_leads_covers(es1@, p, v);
                }
                if o.list_leads(es2@, p, v) {
                    o.lemma_leads_covers(es2@, p, v);
                }
            }
        }
        result
    }

    /// The transitions along which exactly one of the two leads.
    fn st_xor(&mut self, st1: ST, st2: ST) -> (r: ST)
        requires
            old(self).wf(),
            old(self).st_wf(st1@),
            old(self).st_wf(st2@),
        ensures
            final(self).wf(),
            final(self).extends(old(self)),
            final(self).st_wf(r@),
            forall|p: Pkt, v: Word|
                p.len() == old(self).n() && is_word(old(self).n(), v) ==> (
                #[trigger] final(self).leads(r@, p, v) <==> old(self).leads(st1@, p, v) != old(self).leads(st2@, p, v)),
    {
        let ghost n = self.n();
        let ghost o = *old(self);
        let st1_minus_st2 = self.st_difference(st1.copy(), st2.copy());
        let ghost a = *self;
        proof {
            a.lemma_st_ext(&o, st1@);
            a.lemma_st_ext(&o, st2@);
        }
        let ghost m1 = st1@;
        let ghost m2 = st2@;
        let st2_minus_st1 = self.st_difference(st2, st1);
        let ghost b = *self;
        let ghost l1 = st1_minus_st2@;
        let ghost l2 = st2_minus_st1@;
        proof {
            b.lemma_st_ext(&a, l1);
        }
        let r = self.st_union(st1_minus_st2, st2_minus_st1);
        proof {
            assert forall|p: Pkt, v: Word| p.len() == n && is_word(n, v) implies (
            #[trigger] self.leads(r@, p, v) <==> o.leads(m1, p, v) != o.leads(m2, p, v)) by {
                assert(b.leads(l1, p, v) == a.leads(l1, p, v));
                assert(b.leads(l2, p, v) <==> a.leads(m2, p, v) && !a.leads(m1, p, v));
            }
        }
        r
    }

    /// The transitions along which the given ones do not lead.
    fn st_complement(&mut self, st: ST) -> (r: ST)
        requires
            old(self).wf(),
            old(self).st_wf(st@),
        ensures
            final(self).wf(),
            final(self).extends(old(self)),
            final(self).st_wf(r@),
            forall|p: Pkt, v: Word|
                p.len() == old(self).n() && is_word(old(self).n(), v) ==> (
                #[trigger] final(self).leads(r@, p, v) <==> !old(self).leads(st@, p, v)),
    {
        let ghost n = self.n();
        let ghost o = *old(self);
        let es = st.entries();
        proof {
            self.lemma_wf();
            o.lemma_listed(es@, st@);
            assert(es@.take(0) =~= Seq::<(State, SPP)>::empty());
        }
        let mut result = ST::empty();
        let mut union_spp = self.spp.zero;
        let mut i: usize = 0;
        while i < es.len()
            invariant
                self.wf(),
                self.extends(&o),
                o.wf(),
                o.list_ok(es@),
                lists(es@, st@),
                o.st_wf(st@),
                n == o.n(),
                i <= es@.len(),
                self.st_wf(result@),
                self.store().has(union_spp),
                forall|p: Pkt, q: Pkt|
                    #![trigger self.store().rel(union_spp, p, q)]
                    p.len() == n && q.len() == n ==> (self.store().rel(union_spp, p, q)
                        <==> o.list_covers(es@.take(i as int), p, q)),
                forall|p: Pkt, v: Word|
                    p.len() == n && is_word(n, v) ==> (#[trigger] self.leads(result@, p, v)
                        <==> o.misses(es@.take(i as int), p, v)),
            decreases es.len() - i,
        {
            let (state, spp) = es[i];
            let ghost t = es@.take(i as int);
            let ghost a0 = *self;
            let ghost m0 = result@;
            let ghost u0 = union_spp;
            proof {
                assert(es@[i as int] == (state, spp));
            }
            let new_state = self.mk_complement(state);
            let ghost a1 = *self;
            union_spp = self.spp_union(union_spp, spp);
            let ghost a2 = *self;
            proof {
                a1.lemma_st_ext(&a0, m0);
                a2.lemma_st_ext(&a1, m0);
            }
            self.st_insert(&mut result, new_state, spp);
            proof {
                assert(es@.take(i + 1) =~= t.push((state, spp)));
                assert forall|p: Pkt, q: Pkt|
                    #![trigger self.store().rel(union_spp, p, q)]
                    p.len() == n && q.len() == n implies (self.store().rel(union_spp, p, q)
                    <==> o.list_covers(es@.take(i + 1), p, q)) by {
                    o.lemma_covers_push(t, (state, spp), p, q);
                    assert(self.store().rel(union_spp, p, q) == a2.store().rel(union_spp, p, q));
                    assert(a1.store().rel(u0, p, q) == a0.store().rel(u0, p, q));
                    assert(a1.store().rel(spp, p, q) == o.store().rel(spp, p, q));
                }
                assert forall|p: Pkt, v: Word| p.len() == n && is_word(n, v) implies (
                #[trigger] self.leads(result@, p, v) <==> o.misses(es@.take(i + 1), p, v)) by {
                    o.lemma_misses_step(es@, st@, i as int, p, v);
                    assert(self.leads(result@, p, v) <==> a2.leads(m0, p, v) || (a2.store().rel(
                        spp,
                        p,
                        v[0],
                    ) && a2.accepts(new_state, v)));
                    assert(a2.leads(m0, p, v) == a1.leads(m0, p, v));
                    assert(a1.leads(m0, p, v) == a0.leads(m0, p, v));
                    assert(a2.accepts(new_state, v) == a1.accepts(new_state, v));
                    assert(a0.accepts(state, v) == o.accepts(state, v));
                    assert(a2.store().rel(spp, p, v[0]) == o.store().rel(spp, p, v[0]));
                }
            }
            i = i + 1;
        }
        let ghost b0 = *self;
        let ghost m = result@;
        let complement_spp = self.spp_complement(union_spp);
        let ghost b1 = *self;
        let top = self.mk_top();
        let ghost b2 = *self;
        proof {
            assert(es@.take(i as int) =~= es@);
            b1.lemma_st_ext(&b0, m);
            b2.lemma_st_ext(&b1, m);
        }
        self.st_insert(&mut result, top, complement_spp);
        proof {
            assert forall|p: Pkt, v: Word| p.len() == n && is_word(n, v) implies (
            #[trigger] self.leads(result@, p, v) <==> !o.leads(st@, p, v)) by {
                let q = v[0];
                assert(o.leads(st@, p, v) == o.list_leads(es@, p, v));
                assert(b2.leads(m, p, v) == b1.leads(m, p, v));
                assert(b1.leads(m, p, v) == b0.leads(m, p, v));
                assert(b2.accepts(top, v));
                assert(b2.store().rel(complement_spp, p, q) == b1.store().rel(
                    complement_spp,
                    p,
                    q,
                ));
                assert(b1.store().rel(complement_spp, p, q) <==> !b0.store().rel(union_spp, p, q));
                if o.list_leads(es@, p, v) {
                    o.lemma_leads_covers(es@, p, v);
                }
            }
        }
        result
    }

    /// What the transitions lead along from `p`.
    pub open spec fn going(&self, m: Map<State, SPP>, p: Pkt) -> Lang {
        |u: Word| self.leads(m, p, u)
    }

    spec fn list_going(&self, es: Seq<(State, SPP)>, p: Pkt) -> Lang {
        |u: Word| self.list_leads(es, p, u)
    }

    proof fn lemma_post_step(
        &self,
        es: Seq<(State, SPP)>,
        e: (State, SPP),
        b: Lang,
        p: Pkt,
        v: Word,
    )
        requires
            is_word(self.n(), v),
        ensures
            cat(self.n(), self.list_going(es.push(e), p), b)(v) <==> cat(
                self.n(),
                self.list_going(es, p),
                b,
            )(v) || (self.store().rel(e.1, p, v[0]) && cat(self.n(), self.lang(e.0), b)(v)),
    {
        let n = self.n();
        let g0 = self.list_going(es, p);
        let g1 = self.list_going(es.push(e), p);
        let l = self.lang(e.0);
        assert forall|i: int, x: Pkt| 0 <= i <= v.len() - 2 && x.len() == n implies (
        #[trigger] cut(n, g1, b, v, i, x) <==> cut(n, g0, b, v, i, x) || (self.store().rel(
            e.1,
            p,
            v[0],
        ) && cut(n, l, b, v, i, x))) by {
            lemma_parts(n, v, i, x);
            self.lemma_leads_push(es, e, p, front(v, i, x));
        }
        if cat(n, g1, b)(v) {
            let (i, x) = choose|i: int, x: Pkt| #[trigger] cut(n, g1, b, v, i, x);
            assert(cut(n, g0, b, v, i, x) || cut(n, l, b, v, i, x));
        }
        if cat(n, g0, b)(v) {
            let (i, x) = choose|i: int, x: Pkt| #[trigger] cut(n, g0, b, v, i, x);
            assert(cut(n, g1, b, v, i, x));
        }
        if self.store().rel(e.1, p, v[0]) && cat(n, l, b)(v) {
            let (i, x) = choose|i: int, x: Pkt| #[trigger] cut(n, l, b, v, i, x);
            assert(cut(n, g1, b, v, i, x));
        }
    }

    /// The transitions, and then `expr`.
    fn st_postcompose(&mut self, st: ST, expr: State) -> (r: ST)
        requires
            old(self).wf(),
            old(self).st_wf(st@),
            old(self).has(expr),
        ensures
            final(self).wf(),
            final(self).extends(old(self)),
            final(self).st_wf(r@),
            forall|p: Pkt, v: Word|
                p.len() == old(self).n() && is_word(old(self).n(), v) ==> (
                #[trigger] final(self).leads(r@, p, v) <==> cat(
                    old(self).n(),
                    old(self).going(st@, p),
                    old(self).lang(expr),
                )(v)),
    {
        let ghost n = self.n();
        let ghost o = *old(self);
        let es = st.entries();
        let ghost b = o.lang(expr);
        proof {
            o.lemma_listed(es@, st@);
            assert(es@.take(0) =~= Seq::<(State, SPP)>::empty());
            assert forall|p: Pkt, v: Word| p.len() == n && is_word(n, v) implies !(
            #[trigger] cat(n, o.list_going(es@.take(0), p), b)(v)) by {
                if cat(n, o.list_going(es@.take(0), p), b)(v) {
                    let (i, x) = choose|i: int, x: Pkt| #[trigger]
                        cut(n, o.list_going(es@.take(0), p), b, v, i, x);
                    assert(false);
                }
            }
        }
        let mut result = ST::empty();
        let mut i: usize = 0;
        while i < es.len()
            invariant
                self.wf(),
                self.extends(&o),
                o.wf(),
                o.list_ok(es@),
                o.has(expr),
                b == o.lang(expr),
                n == o.n(),
                i <= es@.len(),
                self.st_wf(result@),
                forall|p: Pkt, v: Word|
                    p.len() == n && is_word(n, v) ==> (#[trigger] self.leads(result@, p, v) <==> cat(
                        n,
                        o.list_going(es@.take(i as int), p),
                        b,
                    )(v)),
            decreases es.len() - i,
        {
            let (state, spp) = es[i];
            let ghost t = es@.take(i as int);
            let ghost a0 = *self;
            let ghost m0 = result@;
            proof {
                assert(es@[i as int] == (state, spp));
            }
            let new_state = self.mk_sequence(state, expr);
            let ghost a1 = *self;
            proof {
                a1.lemma_st_ext(&a0, m0);
            }
            self.st_insert(&mut result, new_state, spp);
            proof {
                assert(es@.take(i + 1) =~= t.push((state, spp)));
                a0.lemma_same(&o, state);
                a0.lemma_same(&o, expr);
                lemma_cat_same(n, a0.lang(state), a0.lang(expr), o.lang(state), b);
                assert forall|p: Pkt, v: Word| p.len() == n && is_word(n, v) implies (
                #[trigger] self.leads(result@, p, v) <==> cat(
                    n,
                    o.list_going(es@.take(i + 1), p),
                    b,
                )(v)) by {
                    o.lemma_post_step(t, (state, spp), b, p, v);
                    assert(self.leads(result@, p, v) <==> a1.leads(m0, p, v) || (a1.store().rel(
                        spp,
                        p,
                        v[0],
                    ) && a1.accepts(new_state, v)));
                    assert(a1.leads(m0, p, v) == a0.leads(m0, p, v));
                    assert(a1.accepts(new_state, v) == cat(n, a0.lang(state), a0.lang(expr))(v));
                    assert(a1.store().rel(spp, p, v[0]) == o.store().rel(spp, p, v[0]));
                }
            }
            i = i + 1;
        }
        proof {
            assert(es@.take(i as int) =~= es@);
            assert forall|p: Pkt, v: Word| p.len() == n && is_word(n, v) implies (
            #[trigger] self.leads(result@, p, v) <==> cat(n, o.going(st@, p), b)(v)) by {
                assert forall|w: Word| is_word(n, w) implies o.list_going(es@, p)(w) == o.going(
                    st@,
                    p,
                )(w) by {
                    assert(o.leads(st@, p, w) == o.list_leads(es@, p, w));
                }
                lemma_cat_same(n, o.list_going(es@, p), b, o.going(st@, p), b);
                assert(cat(n, o.list_going(es@, p), b)(v) == cat(n, o.going(st@, p), b)(v));
            }
        }
        result
    }

    /// A step of `spp`, and then the transitions.
    pub open spec fn preceded(&self, spp: SPP, m: Map<State, SPP>, p: Pkt, v: Word) -> bool {
        exists|x: Pkt|
            x.len() == self.n() && #[trigger] self.store().rel(spp, p, x) && self.leads(m, x, v)
    }

    spec fn list_preceded(&self, spp: SPP, es: Seq<(State, SPP)>, p: Pkt, v: Word) -> bool {
        exists|x: Pkt|
            x.len() == self.n() && #[trigger] self.store().rel(spp, p, x) && self.list_leads(
                es,
                x,
                v,
            )
    }

    /// A step of `spp`, and then the transitions.
    fn st_precompose(&mut self, spp: SPP, st: ST) -> (r: ST)
        requires
            old(self).wf(),
            old(self).store().has(spp),
            old(self).st_wf(st@),
        ensures
            final(self).wf(),
            final(self).extends(old(self)),
            final(self).st_wf(r@),
            forall|p: Pkt, v: Word|
                p.len() == old(self).n() && is_word(old(self).n(), v) ==> (
                #[trigger] final(self).leads(r@, p, v) <==> old(self).preceded(spp, st@, p, v)),
    {
        let ghost n = self.n();
        let ghost o = *old(self);
        let es = st.entries();
        proof {
            o.lemma_listed(es@, st@);
            assert(es@.take(0) =~= Seq::<(State, SPP)>::empty());
        }
        let mut result = ST::empty();
        let mut i: usize = 0;
        while i < es.len()
            invariant
                self.wf(),
                self.extends(&o),
                o.wf(),
                o.list_ok(es@),
                o.store().has(spp),
                n == o.n(),
                i <= es@.len(),
                self.st_wf(result@),
                forall|p: Pkt, v: Word|
                    p.len() == n && is_word(n, v) ==> (#[trigger] self.leads(result@, p, v)
                        <==> o.list_preceded(spp, es@.take(i as int), p, v)),
            decreases es.len() - i,
        {
            let (state, spp2) = es[i];
            let ghost t = es@.take(i as int);
            let ghost a0 = *self;
            let ghost m0 = result@;
            proof {
                assert(es@[i as int] == (state, spp2));
            }
            let new_spp = self.spp_sequence(spp, spp2);
            let ghost a1 = *self;
            proof {
                a1.lemma_st_ext(&a0, m0);
            }
            self.st_insert(&mut result, state, new_spp);
            proof {
                let t1 = es@.take(i + 1);
                assert(t1 =~= t.push((state, spp2)));
                assert forall|p: Pkt, v: Word| p.len() == n && is_word(n, v) implies (
                #[trigger] self.leads(result@, p, v) <==> o.list_preceded(spp, t1, p, v)) by {
                    let q = v[0];
                    assert(self.leads(result@, p, v) <==> a1.leads(m0, p, v) || (a1.store().rel(
                        new_spp,
                        p,
                        q,
                    ) && a1.accepts(state, v)));
                    assert(a1.leads(m0, p, v) == a0.leads(m0, p, v));
                    assert(a1.accepts(state, v) == o.accepts(state, v));
                    assert forall|x: Pkt| x.len() == n implies (#[trigger] o.list_leads(t1, x, v)
                        <==> o.list_leads(t, x, v) || (o.store().rel(spp2, x, q) && o.accepts(
                        state,
                        v,
                    ))) by {
                        o.lemma_leads_push(t, (state, spp2), x, v);
                    }
                    if o.list_preceded(spp, t1, p, v) {
                        let x = choose|x: Pkt|
                            x.len() == n && #[trigger] o.store().rel(spp, p, x) && o.list_leads(
                                t1,
                                x,
                                v,
                            );
                        if !o.list_leads(t, x, v) {
                            assert(a0.store().rel(spp, p, x) && a0.store().rel(spp2, x, q));
                            assert(a1.store().rel(new_spp, p, q));
                        }
                    }
                    if o.list_preceded(spp, t, p, v) {
                        let x = choose|x: Pkt|
                            x.len() == n && #[trigger] o.store().rel(spp, p, x) && o.list_leads(
                                t,
                                x,
                                v,
                            );
                        assert(o.list_leads(t1, x, v));
                    }
                    if a1.store().rel(new_spp, p, q) && a1.accepts(state, v) {
                        let x = choose|x: Pkt|
                            x.len() == n && #[trigger] a0.store().rel(spp, p, x) && a0.store().rel(
                                spp2,
                                x,
                                q,
                            );
                        assert(o.store().rel(spp, p, x) && o.store().rel(spp2, x, q));
                        assert(o.list_leads(t1, x, v));
                    }
                }
            }
            i = i + 1;
        }
        proof {
            assert(es@.take(i as int) =~= es@);
            assert forall|p: Pkt, v: Word| p.len() == n && is_word(n, v) implies (
            #[trigger] self.leads(result@, p, v) <==> o.preceded(spp, st@, p, v)) by {
                assert forall|x: Pkt|
                    #[trigger] o.list_leads(es@, x, v) == o.leads(st@, x, v) by {
                    assert(o.leads(st@, x, v) == o.list_leads(es@, x, v));
                }
                if o.list_preceded(spp, es@, p, v) {
                    let x = choose|x: Pkt|
                        x.len() == n && #[trigger] o.store().rel(spp, p, x) && o.list_leads(
                            es@,
                            x,
                            v,
                        );
                    assert(o.leads(st@, x, v));
                }
                if o.preceded(spp, st@, p, v) {
                    let x = choose|x: Pkt|
                        x.len() == n && #[trigger] o.store().rel(spp, p, x) && o.leads(st@, x, v);
                    assert(o.list_leads(es@, x, v));
                }
            }
        }
        result
    }

    /// The transitions along which `expr` is accepted too.
    fn st_intersect_expr(&mut self, st: ST, expr: State) -> (r: ST)
        requires
            old(self).wf(),
            old(self).st_wf(st@),
            old(self).has(expr),
        ensures
            final(self).wf(),
            final(self).extends(old(self)),
            final(self).st_wf(r@),
            forall|p: Pkt, v: Word|
                p.len() == old(self).n() && is_word(old(self).n(), v) ==> (
                #[trigger] final(self).leads(r@, p, v) <==> old(self).leads(st@, p, v) && old(self).accepts(expr, v)),
    {
        let ghost n = self.n();
        let ghost o = *old(self);
        let es = st.entries();
        proof {
            o.lemma_listed(es@, st@);
        }
        let mut result = ST::empty();
        let mut i: usize = 0;
        while i < es.len()
            invariant
                self.wf(),
                self.extends(&o),
                o.wf(),
                o.list_ok(es@),
                o.has(expr),
                n == o.n(),
                i <= es@.len(),
                self.st_wf(result@),
                forall|p: Pkt, v: Word|
                    p.len() == n && is_word(n, v) ==> (#[trigger] self.leads(result@, p, v)
                        <==> o.list_leads(es@.take(i as int), p, v) && o.accepts(expr, v)),
            decreases es.len() - i,
        {
            let (state, spp) = es[i];
            let ghost t = es@.take(i as int);
            let ghost a0 = *self;
            let ghost m0 = result@;
            proof {
                assert(es@[i as int] == (state, spp));
            }
            let new_state = self.mk_intersect(state, expr);
            let ghost a1 = *self;
            proof {
                a1.lemma_st_ext(&a0, m0);
            }
            self.st_insert(&mut result, new_state, spp);
            proof {
                assert(es@.take(i + 1) =~= t.push((state, spp)));
                assert forall|p: Pkt, v: Word| p.len() == n && is_word(n, v) implies (
                #[trigger] self.leads(result@, p, v) <==> o.list_leads(es@.take(i + 1), p, v)
                    && o.accepts(expr, v)) by {
                    o.lemma_leads_push(t, (state, spp), p, v);
                    assert(self.leads(result@, p, v) <==> a1.leads(m0, p, v) || (a1.store().rel(
                        spp,
                        p,
                        v[0],
                    ) && a1.accepts(new_state, v)));
                    assert(a1.leads(m0, p, v) == a0.leads(m0, p, v));
                    assert(a0.accepts(state, v) == o.accepts(state, v));
                    assert(a0.accepts(expr, v) == o.accepts(expr, v));
                    assert(a1.store().rel(spp, p, v[0]) == o.store().rel(spp, p, v[0]));
                }
            }
            i = i + 1;
        }
        proof {
            assert(es@.take(i as int) =~= es@);
            assert forall|p: Pkt, v: Word| p.len() == n && is_word(n, v) implies (
            #[trigger] self.leads(result@, p, v) <==> o.leads(st@, p, v) && o.accepts(
                expr,
                v,
            )) by {
                assert(o.leads(st@, p, v) == o.list_leads(es@, p, v));
            }
        }
        result
    }
}

// ---- derivatives ---------------------------------------------------------------------

impl Aut {
    /// `x` are the single steps of state `s`.
    pub open spec fn single(&self, x: SPP, s: State) -> bool {
        single(self.store(), x, self.lang(s))
    }

    /// `m` are the transitions of state `s`: deterministic, and leading exactly
    /// along the longer words of `s`.
    pub open spec fn derives(&self, m: Map<State, SPP>, s: State) -> bool {
        derives(self.tbl(), self.store(), m, self.lang(s))
    }

    proof fn lemma_single_of(&self, o: &Aut, x: SPP, s: State)
        requires
            self.extends(o),
            o.has(s),
            self.store().has(x),
            forall|p: Pkt, q: Pkt|
                #![trigger self.store().rel(x, p, q)]
                p.len() == o.n() && q.len() == o.n() ==> (self.store().rel(x, p, q) <==> o.accepts(
                    s,
                    pair(p, q),
                )),
        ensures
            self.single(x, s),
    {
        assert forall|p: Pkt, q: Pkt|
            #![trigger self.store().rel(x, p, q)]
            p.len() == o.n() && q.len() == o.n() implies (self.store().rel(x, p, q) <==> self.lang(
            s,
        )(pair(p, q))) by {
            assert(is_word(o.n(), pair(p, q)));
            assert(self.accepts(s, pair(p, q)) == o.accepts(s, pair(p, q)));
        }
    }

    /// The single steps of a state, seen from an earlier automaton.
    proof fn lemma_single_use(&self, o: &Aut, x: SPP, s: State)
        requires
            self.extends(o),
            o.has(s),
            self.single(x, s),
        ensures
            self.store().has(x),
            forall|p: Pkt, q: Pkt|
                #![trigger self.store().rel(x, p, q)]
                p.len() == o.n() && q.len() == o.n() ==> (self.store().rel(x, p, q) <==> o.accepts(
                    s,
                    pair(p, q),
                )),
    {
        assert forall|p: Pkt, q: Pkt|
            #![trigger self.store().rel(x, p, q)]
            p.len() == o.n() && q.len() == o.n() implies (self.store().rel(x, p, q) <==> o.accepts(
            s,
            pair(p, q),
        )) by {
            assert(is_word(o.n(), pair(p, q)));
            assert(self.accepts(s, pair(p, q)) == o.accepts(s, pair(p, q)));
        }
    }

    /// The state has the single step.
    pub open spec fn has_step(&self, s: State, p: Pkt, q: Pkt) -> bool {
        self.accepts(s, pair(p, q))
    }

    /// The single steps of a state follow from those of its parts, operator by operator.
    pub proof fn law_epsilon(&self, s: State, p: Pkt, q: Pkt)
        requires
            self.wf(),
            self.has(s),
            p.len() == self.n(),
            q.len() == self.n(),
        ensures
            self.has_step(s, p, q) <==> match self.tbl()[s as int] {
                Node::SPP(x) => self.store().rel(x, p, q),
                Node::Union(v) => exists|i: int|
                    0 <= i < v.len() && self.has_step(#[trigger] v[i], p, q),
                Node::Intersect(v) => forall|i: int|
                    0 <= i < v.len() ==> self.has_step(#[trigger] v[i], p, q),
                Node::Xor(a, b) => self.has_step(a, p, q) != self.has_step(b, p, q),
                Node::Difference(a, b) => self.has_step(a, p, q) && !self.has_step(b, p, q),
                Node::Complement(a) => !self.has_step(a, p, q),
                Node::Sequence(a, b) => exists|m: Pkt|
                    m.len() == self.n() && #[trigger] self.has_step(a, p, m) && self.has_step(
                        b,
                        m,
                        q,
                    ),
                Node::Star(a) => star_of(steps_of(self.lang(a)), self.n(), p, q),
                Node::Dup => false,
                Node::LtlNext(a) => false,
                Node::LtlUntil(a, b) => self.has_step(b, p, q),
                Node::Top => true,
            },
    {
        let n = self.n();
        self.lemma_node(s);
        self.lemma_parts_of(s, pair(p, q));
        match self.tbl()[s as int] {
            Node::Union(v) => {
                if self.some(v, pair(p, q)) {
                    let i = choose|i: int|
                        0 <= i < v.len() && self.accepts(#[trigger] v[i], pair(p, q));
                    assert(self.has_step(v[i], p, q));
                }
            },
            Node::Intersect(v) => {
                if self.all(v, pair(p, q)) {
                    assert forall|i: int| 0 <= i < v.len() implies self.has_step(
                        #[trigger] v[i],
                        p,
                        q,
                    ) by {
                        assert(self.accepts(v[i], pair(p, q)));
                    }
                }
            },
            Node::Sequence(a, b) => {
                let (x, y) = (self.lang(a), self.lang(b));
                lemma_cat_step(n, x, y, p, q);
                if cat(n, x, y)(pair(p, q)) {
                    let m = choose|m: Pkt|
                        m.len() == n && #[trigger] x(pair(p, m)) && y(pair(m, q));
                    assert(self.has_step(a, p, m) && self.has_step(b, m, q));
                }
                if exists|m: Pkt|
                    m.len() == n && #[trigger] self.has_step(a, p, m) && self.has_step(b, m, q) {
                    let m = choose|m: Pkt|
                        m.len() == n && #[trigger] self.has_step(a, p, m) && self.has_step(
                            b,
                            m,
                            q,
                        );
                    assert(x(pair(p, m)) && y(pair(m, q)));
                }
            },
            Node::Star(a) => {
                lemma_star_step(n, self.lang(a), p, q);
            },
            Node::LtlUntil(a, b) => {
                lemma_until_step(n, self.lang(a), self.lang(b), p, q);
            },
            _ => {},
        }
    }

    /// The single steps of a state.
    pub fn epsilon(&mut self, state: State) -> (r: SPP)
        requires
            old(self).wf(),
            old(self).has(state),
        ensures
            final(self).wf(),
            final(self).extends(old(self)),
            final(self).single(r, state),
        decreases state,
    {
        let ghost o = *old(self);
        let ghost n = self.n();
        proof {
            self.lemma_wf();
            self.lemma_node(state);
        }
        match self.epsilon_map.get(&state) {
            Some(spp) => {
                proof {
                    reveal(Aut::caches_ok);
                }
                return *spp;
            },
            None => {},
        }
        let expr = self.get_expr(state).copy();
        let result = match expr {
            AExpr::SPP(spp) => {
                proof {
                    assert forall|p: Pkt, q: Pkt|
                        #![trigger self.store().rel(spp, p, q)]
                        p.len() == n && q.len() == n implies (self.store().rel(spp, p, q)
                        <==> o.accepts(state, pair(p, q))) by {}
                    self.lemma_single_of(&o, spp, state);
                }
                spp
            },
            AExpr::Union(states) => {
                proof {
                    assert(below(Node::Union(states@), state as int));
                }
                let mut result = self.spp.zero;
                let mut i: usize = 0;
                while i < states.len()
                    invariant
                        self.wf(),
                        self.extends(&o),
                        o.wf(),
                        n == o.n(),
                        o.has(state),
                        i <= states@.len(),
                        forall|j: int| 0 <= j < states@.len() ==> #[trigger] states@[j] < state,
                        self.store().has(result),
                        forall|p: Pkt, q: Pkt|
                            #![trigger self.store().rel(result, p, q)]
                            p.len() == n && q.len() == n ==> (self.store().rel(result, p, q)
                                <==> o.some(states@.take(i as int), pair(p, q))),
                    decreases states.len() - i,
                {
                    let ghost r0 = result;
                    let ghost a0 = *self;
                    let ghost s = states@[i as int];
                    let eps = self.epsilon(states[i]);
                    let ghost a1 = *self;
                    proof {
                        a1.lemma_single_use(&o, eps, s);
                    }
                    result = self.spp_union(result, eps);
                    proof {
                        assert(states@.take(i + 1) =~= states@.take(i as int).push(s));
                        assert forall|p: Pkt, q: Pkt|
                            #![trigger self.store().rel(result, p, q)]
                            p.len() == n && q.len() == n implies (self.store().rel(result, p, q)
                            <==> o.some(states@.take(i + 1), pair(p, q))) by {
                            o.lemma_list_push(states@.take(i as int), s, pair(p, q));
                            assert(a1.store().rel(r0, p, q) == a0.store().rel(r0, p, q));
                        }
                    }
                    i = i + 1;
                }
                proof {
                    assert(states@.take(i as int) =~= states@);
                    assert forall|p: Pkt, q: Pkt|
                        #![trigger self.store().rel(result, p, q)]
                        p.len() == n && q.len() == n implies (self.store().rel(result, p, q)
                        <==> o.accepts(state, pair(p, q))) by {
                        o.lemma_parts_of(state, pair(p, q));
                    }
                    self.lemma_single_of(&o, result, state);
                }
                result
            },
            AExpr::Intersect(states) => {
                proof {
                    assert(below(Node::Intersect(states@), state as int));
                }
                let mut result = self.spp.top;
                let mut i: usize = 0;
                while i < states.len()
                    invariant
                        self.wf(),
                        self.extends(&o),
                        o.wf(),
                        n == o.n(),
                        o.has(state),
                        i <= states@.len(),
                        forall|j: int| 0 <= j < states@.len() ==> #[trigger] states@[j] < state,
                        self.store().has(result),
                        forall|p: Pkt, q: Pkt|
                            #![trigger self.store().rel(result, p, q)]
                            p.len() == n && q.len() == n ==> (self.store().rel(result, p, q)
                                <==> o.all(states@.take(i as int), pair(p, q))),
                    decreases states.len() - i,
                {
                    let ghost r0 = result;
                    let ghost a0 = *self;
                    let ghost s = states@[i as int];
                    let eps = self.epsilon(states[i]);
                    let ghost a1 = *self;
                    proof {
                        a1.lemma_single_use(&o, eps, s);
                    }
                    result = self.spp_intersect(result, eps);
                    proof {
                        assert(states@.take(i + 1) =~= states@.take(i as int).push(s));
                        assert forall|p: Pkt, q: Pkt|
                            #![trigger self.store().rel(result, p, q)]
                            p.len() == n && q.len() == n implies (self.store().rel(result, p, q)
                            <==> o.all(states@.take(i + 1), pair(p, q))) by {
                            o.lemma_list_push(states@.take(i as int), s, pair(p, q));
                            assert(a1.store().rel(r0, p, q) == a0.store().rel(r0, p, q));
                        }
                    }
                    i = i + 1;
                }
                proof {
                    assert(states@.take(i as int) =~= states@);
                    assert forall|p: Pkt, q: Pkt|
                        #![trigger self.store().rel(result, p, q)]
                        p.len() == n && q.len() == n implies (self.store().rel(result, p, q)
                        <==> o.accepts(state, pair(p, q))) by {
                        o.lemma_parts_of(state, pair(p, q));
                    }
                    self.lemma_single_of(&o, result, state);
                }
                result
            },
            AExpr::Xor(e1, e2) => {
                let eps1 = self.epsilon(e1);
                let ghost a1 = *self;
                let eps2 = self.epsilon(e2);
                let ghost a2 = *self;
                let result = self.spp_xor(eps1, eps2);
                proof {
                    a1.lemma_single_use(&o, eps1, e1);
                    a2.lemma_single_use(&o, eps2, e2);
                    assert forall|p: Pkt, q: Pkt|
                        #![trigger self.store().rel(result, p, q)]
                        p.len() == n && q.len() == n implies (self.store().rel(result, p, q)
                        <==> o.accepts(state, pair(p, q))) by {
                        assert(a2.store().rel(eps1, p, q) == a1.store().rel(eps1, p, q));
                        assert(a2.store().rel(eps2, p, q) == o.accepts(e2, pair(p, q)));
                    }
                    self.lemma_single_of(&o, result, state);
                }
                result
            },
            AExpr::Difference(e1, e2) => {
                let eps1 = self.epsilon(e1);
                let ghost a1 = *self;
                let eps2 = self.epsilon(e2);
                let ghost a2 = *self;
                let result = self.spp_difference(eps1, eps2);
                proof {
                    a1.lemma_single_use(&o, eps1, e1);
                    a2.lemma_single_use(&o, eps2, e2);
                    assert forall|p: Pkt, q: Pkt|
                        #![trigger self.store().rel(result, p, q)]
                        p.len() == n && q.len() == n implies (self.store().rel(result, p, q)
                        <==> o.accepts(state, pair(p, q))) by {
                        assert(a2.store().rel(eps1, p, q) == a1.store().rel(eps1, p, q));
                        assert(a2.store().rel(eps2, p, q) == o.accepts(e2, pair(p, q)));
                    }
                    self.lemma_single_of(&o, result, state);
                }
                result
            },
            AExpr::Complement(e) => {
                let eps = self.epsilon(e);
                let ghost a1 = *self;
                let result = self.spp_complement(eps);
                proof {
                    a1.lemma_single_use(&o, eps, e);
                    assert forall|p: Pkt, q: Pkt|
                        #![trigger self.store().rel(result, p, q)]
                        p.len() == n && q.len() == n implies (self.store().rel(result, p, q)
                        <==> o.accepts(state, pair(p, q))) by {
                        assert(a1.store().rel(eps, p, q) == o.accepts(e, pair(p, q)));
                    }
                    self.lemma_single_of(&o, result, state);
                }
                result
            },
            AExpr::Sequence(e1, e2) => {
                let eps1 = self.epsilon(e1);
                let ghost a1 = *self;
                let eps2 = self.epsilon(e2);
                let ghost a2 = *self;
                let result = self.spp_sequence(eps1, eps2);
                proof {
                    a1.lemma_single_use(&o, eps1, e1);
                    a2.lemma_single_use(&o, eps2, e2);
                    assert forall|p: Pkt, q: Pkt|
                        #![trigger self.store().rel(result, p, q)]
                        p.len() == n && q.len() == n implies (self.store().rel(result, p, q)
                        <==> o.accepts(state, pair(p, q))) by {
                        let (b, c) = (o.lang(e1), o.lang(e2));
                        lemma_cat_step(n, b, c, p, q);
                        if self.store().rel(result, p, q) {
                            let m = choose|m: Pkt|
                                m.len() == n && #[trigger] a2.store().rel(eps1, p, m)
                                    && a2.store().rel(eps2, m, q);
                            assert(a1.store().rel(eps1, p, m));
                            assert(b(pair(p, m)) && c(pair(m, q)));
                        }
                        if cat(n, b, c)(pair(p, q)) {
                            let m = choose|m: Pkt|
                                m.len() == n && #[trigger] b(pair(p, m)) && c(pair(m, q));
                            assert(a1.store().rel(eps1, p, m));
                            assert(a2.store().rel(eps1, p, m));
                            assert(a2.store().rel(eps2, m, q));
                        }
                    }
                    self.lemma_single_of(&o, result, state);
                }
                result
            },
            AExpr::Star(e) => {
                let eps = self.epsilon(e);
                let ghost a1 = *self;
                let result = self.spp_star(eps);
                proof {
                    a1.lemma_single_use(&o, eps, e);
                    assert forall|p: Pkt, q: Pkt|
                        #![trigger self.store().rel(result, p, q)]
                        p.len() == n && q.len() == n implies (self.store().rel(result, p, q)
                        <==> o.accepts(state, pair(p, q))) by {
                        let f = a1.store().fun(eps);
                        let g = steps_of(o.lang(e));
                        assert forall|x: Pkt, y: Pkt|
                            #![trigger f(x, y)]
                            x.len() == n && y.len() == n implies f(x, y) == g(x, y) by {
                            assert(a1.store().rel(eps, x, y) == o.accepts(e, pair(x, y)));
                        }
                        lemma_star_same(f, g, n, p, q);
                        lemma_star_step(n, o.lang(e), p, q);
                    }
                    self.lemma_single_of(&o, result, state);
                }
                result
            },
            AExpr::Dup => {
                let result = self.spp.zero;
                proof {
                    assert forall|p: Pkt, q: Pkt|
                        #![trigger self.store().rel(result, p, q)]
                        p.len() == n && q.len() == n implies (self.store().rel(result, p, q)
                        <==> o.accepts(state, pair(p, q))) by {}
                    self.lemma_single_of(&o, result, state);
                }
                result
            },
            AExpr::LtlNext(_) => {
                let result = self.spp.zero;
                proof {
                    assert forall|p: Pkt, q: Pkt|
                        #![trigger self.store().rel(result, p, q)]
                        p.len() == n && q.len() == n implies (self.store().rel(result, p, q)
                        <==> o.accepts(state, pair(p, q))) by {}
                    self.lemma_single_of(&o, result, state);
                }
                result
            },
            AExpr::LtlUntil(e1, e2) => {
                let result = self.epsilon(e2);
                proof {
                    self.lemma_single_use(&o, result, e2);
                    assert forall|p: Pkt, q: Pkt|
                        #![trigger self.store().rel(result, p, q)]
                        p.len() == n && q.len() == n implies (self.store().rel(result, p, q)
                        <==> o.accepts(state, pair(p, q))) by {
                        lemma_until_step(n, o.lang(e1), o.lang(e2), p, q);
                    }
                    self.lemma_single_of(&o, result, state);
                }
                result
            },
            AExpr::Top => {
                let result = self.spp.top;
                proof {
                    assert forall|p: Pkt, q: Pkt|
                        #![trigger self.store().rel(result, p, q)]
                        p.len() == n && q.len() == n implies (self.store().rel(result, p, q)
                        <==> o.accepts(state, pair(p, q))) by {}
                    self.lemma_single_of(&o, result, state);
                }
                result
            },
        };
        let ghost b = *self;
        self.epsilon_map.insert(state, result);
        proof {
            reveal(Aut::caches_ok);
            assert(self.tbl() == b.tbl() && self.store() == b.store());
        }
        result
    }

    proof fn lemma_derives_of(&self, o: &Aut, m: Map<State, SPP>, s: State)
        requires
            self.extends(o),
            o.has(s),
            self.st_wf(m),
            forall|p: Pkt, v: Word|
                p.len() == o.n() && is_word(o.n(), v) ==> (#[trigger] self.leads(m, p, v)
                    <==> o.accepts(s, cons(p, v))),
        ensures
            self.derives(m, s),
    {
        assert forall|p: Pkt, v: Word| p.len() == self.n() && is_word(self.n(), v) implies (leads(
            self.tbl(),
            self.store(),
            m,
            p,
            v,
        ) <==> self.lang(s)(cons(p, v))) by {
            lemma_cons(o.n(), p, v);
            assert(self.leads(m, p, v) <==> o.accepts(s, cons(p, v)));
            assert(self.accepts(s, cons(p, v)) == o.accepts(s, cons(p, v)));
        }
    }

    /// The transitions of a state, seen from an earlier automaton.
    proof fn lemma_derives_use(&self, o: &Aut, m: Map<State, SPP>, s: State)
        requires
            self.extends(o),
            o.has(s),
            self.derives(m, s),
        ensures
            self.st_wf(m),
            forall|p: Pkt, v: Word|
                p.len() == o.n() && is_word(o.n(), v) ==> (#[trigger] self.leads(m, p, v)
                    <==> o.accepts(s, cons(p, v))),
    {
        assert forall|p: Pkt, v: Word| p.len() == o.n() && is_word(o.n(), v) implies (
        #[trigger] self.leads(m, p, v) <==> o.accepts(s, cons(p, v))) by {
            lemma_cons(o.n(), p, v);
            assert(self.accepts(s, cons(p, v)) == o.accepts(s, cons(p, v)));
        }
    }

    /// The transitions of an iteration.
    proof fn lemma_delta_star(
        &self,
        o: &Aut,
        a: &Aut,
        eps: SPP,
        b: &Aut,
        closure: SPP,
        c: &Aut,
        d: Map<State, SPP>,
        f: &Aut,
        post: Map<State, SPP>,
        pre: Map<State, SPP>,
        e: State,
        state: State,
    )
        requires
            o.wf(),
            o.has(state),
            o.has(e),
            o.tbl()[state as int] == Node::Star(e),
            below(Node::Star(e), state as int),
            a.extends(o),
            b.extends(a),
            c.extends(b),
            f.extends(c),
            self.extends(f),
            a.single(eps, e),
            c.derives(d, e),
            b.store().has(closure),
            forall|p: Pkt, q: Pkt|
                #![trigger b.store().rel(closure, p, q)]
                p.len() == o.n() && q.len() == o.n() ==> (b.store().rel(closure, p, q) <==> star_of(
                    a.store().fun(eps),
                    o.n(),
                    p,
                    q,
                )),
            forall|p: Pkt, v: Word|
                p.len() == o.n() && is_word(o.n(), v) ==> (#[trigger] f.leads(post, p, v) <==> cat(
                    o.n(),
                    c.going(d, p),
                    c.lang(state),
                )(v)),
            self.st_wf(pre),
            forall|p: Pkt, v: Word|
                p.len() == o.n() && is_word(o.n(), v) ==> (#[trigger] self.leads(pre, p, v)
                    <==> f.preceded(closure, post, p, v)),
        ensures
            self.derives(pre, state),
    {
        let n = o.n();
        let l = o.lang(e);
        a.lemma_single_use(o, eps, e);
        c.lemma_derives_use(o, d, e);
        let g = a.store().fun(eps);
        let h = steps_of(l);
        assert forall|x: Pkt, y: Pkt|
            #![trigger g(x, y)]
            x.len() == n && y.len() == n implies g(x, y) == h(x, y) by {
            assert(a.store().rel(eps, x, y) == o.accepts(e, pair(x, y)));
        }
        c.lemma_same(o, state);
        assert(o.lang(state) == star(n, l));
        assert forall|p: Pkt, v: Word| p.len() == n && is_word(n, v) implies (
        #[trigger] self.leads(pre, p, v) <==> o.accepts(state, cons(p, v))) by {
            lemma_star_cons(n, l, p, v);
            assert forall|x: Pkt| x.len() == n implies #[trigger] f.leads(post, x, v) == cat(
                n,
                after(l, x),
                star(n, l),
            )(v) by {
                assert forall|w: Word| is_word(n, w) implies c.going(d, x)(w) == after(l, x)(
                    w,
                ) by {
                    assert(c.leads(d, x, w) <==> o.accepts(e, cons(x, w)));
                }
                lemma_cat_same(n, c.going(d, x), c.lang(state), after(l, x), star(n, l));
                assert(cat(n, c.going(d, x), c.lang(state))(v) == cat(n, after(l, x), star(n, l))(
                    v,
                ));
            }
            if self.leads(pre, p, v) {
                let m = choose|m: Pkt|
                    m.len() == n && #[trigger] f.store().rel(closure, p, m) && f.leads(post, m, v);
                assert(b.store().rel(closure, p, m));
                lemma_star_same(g, h, n, p, m);
                let (i, x) = choose|i: int, x: Pkt| #[trigger]
                    cut(n, after(l, m), star(n, l), v, i, x);
                assert(star_tail(n, l, p, v, m, i, x));
            }
            if star(n, l)(cons(p, v)) {
                let (m, i, x) = choose|m: Pkt, i: int, x: Pkt| #[trigger]
                    star_tail(n, l, p, v, m, i, x);
                lemma_star_same(g, h, n, p, m);
                assert(b.store().rel(closure, p, m));
                assert(f.store().rel(closure, p, m));
                assert(cut(n, after(l, m), star(n, l), v, i, x));
                assert(f.leads(post, m, v));
            }
        }
        self.lemma_derives_of(o, pre, state);
    }

    /// The transitions of a sequence.
    proof fn lemma_delta_sequence(
        &self,
        o: &Aut,
        a: &Aut,
        eps: SPP,
        b: &Aut,
        d1: Map<State, SPP>,
        c: &Aut,
        d2: Map<State, SPP>,
        f: &Aut,
        post: Map<State, SPP>,
        g: &Aut,
        pre: Map<State, SPP>,
        r: Map<State, SPP>,
        e1: State,
        e2: State,
        state: State,
    )
        requires
            o.wf(),
            c.wf(),
            f.wf(),
            o.has(state),
            o.has(e1),
            o.has(e2),
            o.tbl()[state as int] == Node::Sequence(e1, e2),
            below(Node::Sequence(e1, e2), state as int),
            a.extends(o),
            b.extends(a),
            b.wf(),
            c.extends(b),
            f.extends(c),
            g.extends(f),
            self.extends(g),
            a.single(eps, e1),
            b.derives(d1, e1),
            c.derives(d2, e2),
            f.st_wf(post),
            forall|p: Pkt, v: Word|
                p.len() == o.n() && is_word(o.n(), v) ==> (#[trigger] f.leads(post, p, v) <==> cat(
                    o.n(),
                    c.going(d1, p),
                    c.lang(e2),
                )(v)),
            forall|p: Pkt, v: Word|
                p.len() == o.n() && is_word(o.n(), v) ==> (#[trigger] g.leads(pre, p, v)
                    <==> f.preceded(eps, d2, p, v)),
            self.st_wf(r),
            forall|p: Pkt, v: Word|
                p.len() == o.n() && is_word(o.n(), v) ==> (#[trigger] self.leads(r, p, v)
                    <==> g.leads(post, p, v) || g.leads(pre, p, v)),
        ensures
            self.derives(r, state),
    {
        let n = o.n();
        let (l1, l2) = (o.lang(e1), o.lang(e2));
        a.lemma_single_use(o, eps, e1);
        b.lemma_derives_use(o, d1, e1);
        c.lemma_st_ext(b, d1);
        c.lemma_derives_use(o, d2, e2);
        f.lemma_st_ext(c, d2);
        g.lemma_st_ext(f, post);
        c.lemma_same(o, e2);
        assert(o.lang(state) == cat(n, l1, l2));
        assert forall|p: Pkt, v: Word| p.len() == n && is_word(n, v) implies (
        #[trigger] self.leads(r, p, v) <==> o.accepts(state, cons(p, v))) by {
            lemma_cat_cons(n, l1, l2, p, v);
            assert(g.leads(post, p, v) == f.leads(post, p, v));
            assert(f.leads(post, p, v) == cat(n, after(l1, p), l2)(v)) by {
                assert forall|w: Word| is_word(n, w) implies c.going(d1, p)(w) == after(l1, p)(
                    w,
                ) by {
                    assert(c.leads(d1, p, w) == b.leads(d1, p, w));
                    assert(b.leads(d1, p, w) <==> o.accepts(e1, cons(p, w)));
                }
                lemma_cat_same(n, c.going(d1, p), c.lang(e2), after(l1, p), l2);
                assert(cat(n, c.going(d1, p), c.lang(e2))(v) == cat(n, after(l1, p), l2)(v));
            }
            if g.leads(pre, p, v) {
                let m = choose|m: Pkt|
                    m.len() == n && #[trigger] f.store().rel(eps, p, m) && f.leads(d2, m, v);
                assert(a.store().rel(eps, p, m));
                assert(c.leads(d2, m, v));
                assert(l1(pair(p, m)) && l2(cons(m, v)));
            }
            if exists|m: Pkt| m.len() == n && #[trigger] l1(pair(p, m)) && l2(cons(m, v)) {
                let m = choose|m: Pkt| m.len() == n && #[trigger] l1(pair(p, m)) && l2(cons(m, v));
                assert(a.store().rel(eps, p, m));
                assert(f.store().rel(eps, p, m));
                assert(c.leads(d2, m, v));
                assert(f.leads(d2, m, v));
                assert(f.preceded(eps, d2, p, v));
            }
        }
        self.lemma_derives_of(o, r, state);
    }

    /// The transitions of a state: where its longer words go on after the first
    /// packet.
    pub fn delta(&mut self, state: State) -> (r: ST)
        requires
            old(self).wf(),
            old(self).has(state),
        ensures
            final(self).wf(),
            final(self).extends(old(self)),
            final(self).derives(r@, state),
            final(self).delta_known(state) == Some(r@),
        decreases state,
    {
        let ghost o = *old(self);
        let ghost n = self.n();
        proof {
            self.lemma_wf();
            self.lemma_node(state);
        }
        match self.delta_map.get(&state) {
            Some(st) => {
                proof {
                    reveal(Aut::caches_ok);
                }
                return st.copy();
            },
            None => {},
        }
        let expr = self.get_expr(state).copy();
        let result = match expr {
            AExpr::SPP(_) => {
                let result = ST::empty();
                proof {
                    self.lemma_derives_of(&o, result@, state);
                }
                result
            },
            AExpr::Union(states) => {
                proof {
                    assert(below(Node::Union(states@), state as int));
                }
                let mut result = ST::empty();
                let mut i: usize = 0;
                while i < states.len()
                    invariant
                        self.wf(),
                        self.extends(&o),
                        o.wf(),
                        n == o.n(),
                        o.has(state),
                        i <= states@.len(),
                        forall|j: int| 0 <= j < states@.len() ==> #[trigger] states@[j] < state,
                        self.st_wf(result@),
                        forall|p: Pkt, v: Word|
                            p.len() == n && is_word(n, v) ==> (#[trigger] self.leads(result@, p, v)
                                <==> o.some(states@.take(i as int), cons(p, v))),
                    decreases states.len() - i,
                {
                    let ghost m0 = result@;
                    let ghost a0 = *self;
                    let ghost s = states@[i as int];
                    let delta_state = self.delta(states[i]);
                    let ghost a1 = *self;
                    let ghost d = delta_state@;
                    proof {
                        a1.lemma_derives_use(&o, d, s);
                        a1.lemma_st_ext(&a0, m0);
                    }
                    result = self.st_union(result, delta_state);
                    proof {
                        assert(states@.take(i + 1) =~= states@.take(i as int).push(s));
                        assert forall|p: Pkt, v: Word| p.len() == n && is_word(n, v) implies (
                        #[trigger] self.leads(result@, p, v) <==> o.some(
                            states@.take(i + 1),
                            cons(p, v),
                        )) by {
                            o.lemma_list_push(states@.take(i as int), s, cons(p, v));
                            assert(a1.leads(m0, p, v) == a0.leads(m0, p, v));
                            assert(a1.leads(d, p, v) == o.accepts(s, cons(p, v)));
                        }
                    }
                    i = i + 1;
                }
                proof {
                    assert(states@.take(i as int) =~= states@);
                    assert forall|p: Pkt, v: Word| p.len() == n && is_word(n, v) implies (
                    #[trigger] self.leads(result@, p, v) <==> o.accepts(state, cons(p, v))) by {
                        o.lemma_parts_of(state, cons(p, v));
                    }
                    self.lemma_derives_of(&o, result@, state);
                }
                result
            },
            AExpr::Intersect(states) => {
                proof {
                    assert(below(Node::Intersect(states@), state as int));
                }
                if states.len() == 0 {
                    let top = self.mk_top();
                    let ghost a1 = *self;
                    let result = self.st_singleton(self.spp.top, top);
                    proof {
                        assert forall|p: Pkt, v: Word| p.len() == n && is_word(n, v) implies (
                        #[trigger] self.leads(result@, p, v) <==> o.accepts(state, cons(p, v))) by {
                            o.lemma_parts_of(state, cons(p, v));
                            assert(a1.accepts(top, v));
                            assert(a1.store().rel(a1.store().top, p, v[0]));
                        }
                        self.lemma_derives_of(&o, result@, state);
                    }
                    result
                } else {
                    let ghost s0 = states@[0];
                    let mut result = self.delta(states[0]);
                    proof {
                        self.lemma_derives_use(&o, result@, s0);
                        assert(states@.take(1) =~= states@.take(0).push(s0));
                        assert forall|p: Pkt, v: Word| p.len() == n && is_word(n, v) implies (
                        #[trigger] self.leads(result@, p, v) <==> o.all(
                            states@.take(1),
                            cons(p, v),
                        )) by {
                            o.lemma_list_push(states@.take(0), s0, cons(p, v));
                        }
                    }
                    let mut i: usize = 1;
                    while i < states.len()
                        invariant
                            self.wf(),
                            self.extends(&o),
                            o.wf(),
                            n == o.n(),
                            o.has(state),
                            1 <= i <= states@.len(),
                            forall|j: int|
                                0 <= j < states@.len() ==> #[trigger] states@[j] < state,
                            self.st_wf(result@),
                            forall|p: Pkt, v: Word|
                                p.len() == n && is_word(n, v) ==> (
                                #[trigger] self.leads(result@, p, v) <==> o.all(
                                    states@.take(i as int),
                                    cons(p, v),
                                )),
                        decreases states.len() - i,
                    {
                        let ghost m0 = result@;
                        let ghost a0 = *self;
                        let ghost s = states@[i as int];
                        let delta_state = self.delta(states[i]);
                        let ghost a1 = *self;
                        let ghost d = delta_state@;
                        proof {
                            a1.lemma_derives_use(&o, d, s);
                            a1.lemma_st_ext(&a0, m0);
                        }
                        result = self.st_intersect(result, delta_state);
                        proof {
                            assert(states@.take(i + 1) =~= states@.take(i as int).push(s));
                            assert forall|p: Pkt, v: Word| p.len() == n && is_word(n, v) implies (
                            #[trigger] self.leads(result@, p, v) <==> o.all(
                                states@.take(i + 1),
                                cons(p, v),
                            )) by {
                                o.lemma_list_push(states@.take(i as int), s, cons(p, v));
                                assert(a1.leads(m0, p, v) == a0.leads(m0, p, v));
                                assert(a1.leads(d, p, v) == o.accepts(s, cons(p, v)));
                            }
                        }
                        i = i + 1;
                    }
                    proof {
                        assert(states@.take(i as int) =~= states@);
                        assert forall|p: Pkt, v: Word| p.len() == n && is_word(n, v) implies (
                        #[trigger] self.leads(result@, p, v) <==> o.accepts(state, cons(p, v))) by {
                            o.lemma_parts_of(state, cons(p, v));
                        }
                        self.lemma_derives_of(&o, result@, state);
                    }
                    result
                }
            },
            AExpr::Xor(e1, e2) => {
                let delta1 = self.delta(e1);
                let ghost (a1, d1) = (*self, delta1@);
                let delta2 = self.delta(e2);
                let ghost (a2, d2) = (*self, delta2@);
                proof {
                    a1.lemma_derives_use(&o, d1, e1);
                    a2.lemma_st_ext(&a1, d1);
                    a2.lemma_derives_use(&o, d2, e2);
                }
                let result = self.st_xor(delta1, delta2);
                proof {
                    assert forall|p: Pkt, v: Word| p.len() == n && is_word(n, v) implies (
                    #[trigger] self.leads(result@, p, v) <==> o.accepts(state, cons(p, v))) by {
                        assert(a2.leads(d1, p, v) == a1.leads(d1, p, v));
                        assert(a2.leads(d2, p, v) == o.accepts(e2, cons(p, v)));
                    }
                    self.lemma_derives_of(&o, result@, state);
                }
                result
            },
            AExpr::Difference(e1, e2) => {
                let delta1 = self.delta(e1);
                let ghost (a1, d1) = (*self, delta1@);
                let delta2 = self.delta(e2);
                let ghost (a2, d2) = (*self, delta2@);
                proof {
                    a1.lemma_derives_use(&o, d1, e1);
                    a2.lemma_st_ext(&a1, d1);
                    a2.lemma_derives_use(&o, d2, e2);
                }
                let result = self.st_difference(delta1, delta2);
                proof {
                    assert forall|p: Pkt, v: Word| p.len() == n && is_word(n, v) implies (
                    #[trigger] self.leads(result@, p, v) <==> o.accepts(state, cons(p, v))) by {
                        assert(a2.leads(d1, p, v) == a1.leads(d1, p, v));
                        assert(a2.leads(d2, p, v) == o.accepts(e2, cons(p, v)));
                    }
                    self.lemma_derives_of(&o, result@, state);
                }
                result
            },
            AExpr::Complement(e) => {
                let delta_e = self.delta(e);
                let ghost (a1, d1) = (*self, delta_e@);
                proof {
                    a1.lemma_derives_use(&o, d1, e);
                }
                let result = self.st_complement(delta_e);
                proof {
                    assert forall|p: Pkt, v: Word| p.len() == n && is_word(n, v) implies (
                    #[trigger] self.leads(result@, p, v) <==> o.accepts(state, cons(p, v))) by {
                        assert(a1.leads(d1, p, v) == o.accepts(e, cons(p, v)));
                    }
                    self.lemma_derives_of(&o, result@, state);
                }
                result
            },
            AExpr::Sequence(e1, e2) => {
                let epsilon_e1 = self.epsilon(e1);
                let ghost a = *self;
                let delta_e1 = self.delta(e1);
                let ghost (b, d1) = (*self, delta_e1@);
                let delta_e2 = self.delta(e2);
                let ghost (c, d2) = (*self, delta_e2@);
                proof {
                    b.lemma_derives_use(&o, d1, e1);
                    c.lemma_st_ext(&b, d1);
                    c.lemma_derives_use(&o, d2, e2);
                }
                let delta_e1_seq_e2 = self.st_postcompose(delta_e1, e2);
                let ghost (f, post) = (*self, delta_e1_seq_e2@);
                proof {
                    f.lemma_st_ext(&c, d2);
                }
                let epsilon_e1_seq_e2 = self.st_precompose(epsilon_e1, delta_e2);
                let ghost (g, pre) = (*self, epsilon_e1_seq_e2@);
                proof {
                    g.lemma_st_ext(&f, post);
                }
                let result = self.st_union(delta_e1_seq_e2, epsilon_e1_seq_e2);
                proof {
                    self.lemma_delta_sequence(
                        &o,
                        &a,
                        epsilon_e1,
                        &b,
                        d1,
                        &c,
                        d2,
                        &f,
                        post,
                        &g,
                        pre,
                        result@,
                        e1,
                        e2,
                        state,
                    );
                }
                result
            },
            AExpr::Star(e) => {
                let epsilon_e = self.epsilon(e);
                let ghost a = *self;
                let epsilon_e_star = self.spp_star(epsilon_e);
                let ghost b = *self;
                let delta_e = self.delta(e);
                let ghost (c, d) = (*self, delta_e@);
                proof {
                    c.lemma_derives_use(&o, d, e);
                }
                let delta_e_star_e = self.st_postcompose(delta_e, state);
                let ghost (f, post) = (*self, delta_e_star_e@);
                let result = self.st_precompose(epsilon_e_star, delta_e_star_e);
                proof {
                    self.lemma_delta_star(
                        &o,
                        &a,
                        epsilon_e,
                        &b,
                        epsilon_e_star,
                        &c,
                        d,
                        &f,
                        post,
                        result@,
                        e,
                        state,
                    );
                }
                result
            },
            AExpr::Dup => {
                let one = self.spp.one;
                let spp_one = self.mk_spp(one);
                let ghost a1 = *self;
                let result = self.st_singleton(one, spp_one);
                proof {
                    assert forall|p: Pkt, v: Word| p.len() == n && is_word(n, v) implies (
                    #[trigger] self.leads(result@, p, v) <==> o.accepts(state, cons(p, v))) by {
                        lemma_cons(n, p, v);
                        assert(a1.store().rel(one, p, v[0]) == o.store().rel(one, p, v[0]));
                    }
                    self.lemma_derives_of(&o, result@, state);
                }
                result
            },
            AExpr::LtlNext(e) => {
                let result = self.st_singleton(self.spp.top, e);
                proof {
                    assert forall|p: Pkt, v: Word| p.len() == n && is_word(n, v) implies (
                    #[trigger] self.leads(result@, p, v) <==> o.accepts(state, cons(p, v))) by {
                        lemma_cons(n, p, v);
                        assert(o.store().rel(o.store().top, p, v[0]));
                    }
                    self.lemma_derives_of(&o, result@, state);
                }
                result
            },
            AExpr::LtlUntil(e1, e2) => {
                let delta_e1 = self.delta(e1);
                let ghost (a1, d1) = (*self, delta_e1@);
                let delta_e2 = self.delta(e2);
                let ghost (a2, d2) = (*self, delta_e2@);
                let e1_u_e2 = self.mk_until(e1, e2);
                let ghost a3 = *self;
                proof {
                    a1.lemma_derives_use(&o, d1, e1);
                    a2.lemma_st_ext(&a1, d1);
                    a3.lemma_st_ext(&a2, d1);
                    a2.lemma_derives_use(&o, d2, e2);
                    a3.lemma_st_ext(&a2, d2);
                }
                let delta_e1_intersect_e1_u_e2 = self.st_intersect_expr(delta_e1, e1_u_e2);
                let ghost (a4, d3) = (*self, delta_e1_intersect_e1_u_e2@);
                proof {
                    a4.lemma_st_ext(&a3, d2);
                }
                let result = self.st_union(delta_e2, delta_e1_intersect_e1_u_e2);
                proof {
                    a2.lemma_same(&o, e1);
                    a2.lemma_same(&o, e2);
                    let (l1, l2) = (o.lang(e1), o.lang(e2));
                    lemma_until_same(n, a2.lang(e1), a2.lang(e2), l1, l2);
                    assert forall|p: Pkt, v: Word| p.len() == n && is_word(n, v) implies (
                    #[trigger] self.leads(result@, p, v) <==> o.accepts(state, cons(p, v))) by {
                        lemma_until_cons(n, l1, l2, p, v);
                        assert(a3.accepts(e1_u_e2, v) == until(a2.lang(e1), a2.lang(e2))(v));
                        assert(a4.leads(d2, p, v) == a3.leads(d2, p, v));
                        assert(a3.leads(d2, p, v) == a2.leads(d2, p, v));
                        assert(a2.leads(d2, p, v) == l2(cons(p, v)));
                        assert(a4.leads(d3, p, v) <==> a3.leads(d1, p, v) && a3.accepts(
                            e1_u_e2,
                            v,
                        ));
                        assert(a3.leads(d1, p, v) == a2.leads(d1, p, v));
                        assert(a2.leads(d1, p, v) == a1.leads(d1, p, v));
                        assert(a1.leads(d1, p, v) == l1(cons(p, v)));
                    }
                    self.lemma_derives_of(&o, result@, state);
                }
                result
            },
            AExpr::Top => {
                let top = self.mk_top();
                let ghost a1 = *self;
                let result = self.st_singleton(self.spp.top, top);
                proof {
                    assert forall|p: Pkt, v: Word| p.len() == n && is_word(n, v) implies (
                    #[trigger] self.leads(result@, p, v) <==> o.accepts(state, cons(p, v))) by {
                        assert(a1.accepts(top, v));
                        assert(a1.store().rel(a1.store().top, p, v[0]));
                    }
                    self.lemma_derives_of(&o, result@, state);
                }
                result
            },
        };
        let ghost b = *self;
        self.delta_map.insert(state, result.copy());
        proof {
            reveal(Aut::caches_ok);
            assert(self.tbl() == b.tbl() && self.store() == b.store());
        }
        result
    }
}
// ---- emptiness -----------------------------------------------------------------------

impl Aut {
    /// State `s` accepts some word.
    pub open spec fn inhabited(&self, s: State) -> bool {
        exists|w: Word| is_word(self.n(), w) && #[trigger] self.accepts(s, w)
    }

    /// Some entry of the list has packet `p` at state `s`.
    spec fn at(&self, es: Seq<(State, SP)>, s: State, p: Pkt) -> bool {
        exists|i: int|
            0 <= i < es.len() && (#[trigger] es[i]).0 == s && self.store().sp.mem(es[i].1, p)
    }

    spec fn sets_ok(&self, es: Seq<(State, SP)>) -> bool {
        forall|i: int|
            0 <= i < es.len() ==> self.has((#[trigger] es[i]).0) && self.store().sp.has(es[i].1)
    }

    proof fn lemma_at_ext(&self, o: &Aut, es: Seq<(State, SP)>)
        requires
            self.extends(o),
            o.wf(),
            o.sets_ok(es),
        ensures
            self.sets_ok(es),
            forall|s: State, p: Pkt|
                #![trigger self.at(es, s, p)]
                #![trigger o.at(es, s, p)]
                p.len() == o.n() ==> self.at(es, s, p) == o.at(es, s, p),
    {
        o.lemma_wf();
        o.store().lemma_wf();
        assert forall|s: State, p: Pkt|
            #![trigger self.at(es, s, p)]
            #![trigger o.at(es, s, p)]
            p.len() == o.n() implies self.at(es, s, p) == o.at(es, s, p) by {
            assert forall|i: int| 0 <= i < es.len() implies self.store().sp.mem(
                (#[trigger] es[i]).1,
                p,
            ) == o.store().sp.mem(es[i].1, p) by {}
            if self.at(es, s, p) {
                let i = choose|i: int|
                    0 <= i < es.len() && (#[trigger] es[i]).0 == s && self.store().sp.mem(
                        es[i].1,
                        p,
                    );
                assert(o.store().sp.mem(es[i].1, p));
            }
            if o.at(es, s, p) {
                let i = choose|i: int|
                    0 <= i < es.len() && (#[trigger] es[i]).0 == s && o.store().sp.mem(es[i].1, p);
                assert(self.store().sp.mem(es[i].1, p));
            }
        }
    }

    proof fn lemma_at_push(&self, es: Seq<(State, SP)>, e: (State, SP), s: State, p: Pkt)
        ensures
            self.at(es.push(e), s, p) <==> self.at(es, s, p) || (e.0 == s && self.store().sp.mem(
                e.1,
                p,
            )),
    {
        let fs = es.push(e);
        assert(fs[es.len() as int] == e);
        if self.at(es, s, p) {
            let i = choose|i: int|
                0 <= i < es.len() && (#[trigger] es[i]).0 == s && self.store().sp.mem(es[i].1, p);
            assert(fs[i] == es[i]);
        }
        if self.at(fs, s, p) && !(e.0 == s && self.store().sp.mem(e.1, p)) {
            let i = choose|i: int|
                0 <= i < fs.len() && (#[trigger] fs[i]).0 == s && self.store().sp.mem(fs[i].1, p);
            assert(fs[i] == es[i]);
        }
    }

    /// From every packet of the list at its state, a word that is accepted
    /// there shows that the goal is inhabited.
    spec fn sound(&self, es: Seq<(State, SP)>, goal: bool) -> bool {
        forall|s: State, v: Word|
            #![trigger self.at(es, s, v[0]), self.accepts(s, v)]
            is_word(self.n(), v) && self.at(es, s, v[0]) && self.accepts(s, v) ==> goal
    }

    /// The words that go on from a packet of `done` at its state go on from a
    /// packet of `done` or of `todo`.
    spec fn explored(&self, done: Seq<(State, SP)>, todo: Seq<(State, SP)>) -> bool {
        forall|s: State, p: Pkt, v: Word|
            #![trigger self.at(done, s, p), self.accepts(s, cons(p, v))]
            p.len() == self.n() && is_word(self.n(), v) && self.at(done, s, p) && self.accepts(
                s,
                cons(p, v),
            ) ==> self.goes_on(done, todo, v)
    }

    spec fn goes_on(&self, done: Seq<(State, SP)>, todo: Seq<(State, SP)>, v: Word) -> bool {
        exists|k: State|
            self.has(k) && #[trigger] self.accepts(k, v) && (self.at(done, k, v[0]) || self.at(
                todo,
                k,
                v[0],
            ))
    }

    /// When everything is explored, a word from a packet of the list ends with
    /// a single step from one.
    proof fn lemma_explored(&self, done: Seq<(State, SP)>, s: State, v: Word)
        requires
            self.explored(done, Seq::empty()),
            is_word(self.n(), v),
            self.at(done, s, v[0]),
            self.accepts(s, v),
        ensures
            exists|t: State, p: Pkt, q: Pkt|
                p.len() == self.n() && q.len() == self.n() && #[trigger] self.at(done, t, p)
                    && #[trigger] self.accepts(t, pair(p, q)),
        decreases v.len(),
    {
        if v.len() == 2 {
            assert(v =~= pair(v[0], v[1]));
            assert(self.accepts(s, pair(v[0], v[1])));
        } else {
            lemma_uncons(self.n(), v);
            let u = v.skip(1);
            assert(self.accepts(s, cons(v[0], u)));
            assert(self.goes_on(done, Seq::empty(), u));
            let k = choose|k: State|
                self.has(k) && #[trigger] self.accepts(k, u) && (self.at(done, k, u[0]) || self.at(
                    Seq::empty(),
                    k,
                    u[0],
                ));
            self.lemma_explored(done, k, u);
        }
    }

    fn sp_difference(&mut self, a: SP, b: SP) -> (r: SP)
        requires
            old(self).wf(),
            old(self).store().sp.has(a),
            old(self).store().sp.has(b),
        ensures
            final(self).wf(),
            final(self).extends(old(self)),
            final(self).store().sp.has(r),
            forall|p: Pkt|
                #![trigger final(self).store().sp.mem(r, p)]
                p.len() == old(self).n() ==> final(self).store().sp.mem(r, p) == (
                old(self).store().sp.mem(a, p) && !old(self).store().sp.mem(b, p)),
    {
        proof {
            self.spp.lemma_wf();
        }
        let r = self.spp.sp.difference(a, b);
        proof {
            self.spp.lemma_sets(&old(self).spp);
            self.lemma_grow(old(self));
        }
        r
    }

    fn sp_union(&mut self, a: SP, b: SP) -> (r: SP)
        requires
            old(self).wf(),
            old(self).store().sp.has(a),
            old(self).store().sp.has(b),
        ensures
            final(self).wf(),
            final(self).extends(old(self)),
            final(self).store().sp.has(r),
            forall|p: Pkt|
                #![trigger final(self).store().sp.mem(r, p)]
                p.len() == old(self).n() ==> final(self).store().sp.mem(r, p) == (
                old(self).store().sp.mem(a, p) || old(self).store().sp.mem(b, p)),
    {
        proof {
            self.spp.lemma_wf();
        }
        let r = self.spp.sp.union(a, b);
        proof {
            self.spp.lemma_sets(&old(self).spp);
            self.lemma_grow(old(self));
        }
        r
    }

    fn spp_push(&mut self, a: SP, s: SPP) -> (r: SP)
        requires
            old(self).wf(),
            old(self).store().sp.has(a),
            old(self).store().has(s),
        ensures
            final(self).wf(),
            final(self).extends(old(self)),
            final(self).tbl() == old(self).tbl(),
            final(self).store().sp.has(r),
            forall|q: Pkt|
                #![trigger final(self).store().sp.mem(r, q)]
                q.len() == old(self).n() ==> (final(self).store().sp.mem(r, q) <==> exists|p: Pkt|
                    #![trigger old(self).store().sp.mem(a, p)]
                    p.len() == old(self).n() && old(self).store().sp.mem(a, p)
                        && old(self).store().rel(s, p, q)),
    {
        let r = self.spp.push(a, s);
        proof {
            self.lemma_grow(old(self));
        }
        r
    }

    /// The packets that can arrive along the transitions of `state` from
    /// `from`, added to `todo`.
    fn follow_all(&mut self, state: State, from: SP, todo: &mut Vec<(State, SP)>)
        requires
            old(self).wf(),
            old(self).has(state),
            old(self).store().sp.has(from),
            old(self).sets_ok(old(todo)@),
        ensures
            final(self).wf(),
            final(self).extends(old(self)),
            final(self).sets_ok(final(todo)@),
            forall|s: State, p: Pkt|
                p.len() == old(self).n() && old(self).at(old(todo)@, s, p) ==> #[trigger] final(self).at(final(todo)@, s, p),
            forall|goal: bool|
                old(self).sound(old(todo)@, goal) && (forall|v: Word| #[trigger]
                    is_word(old(self).n(), v) && old(self).store().sp.mem(from, v[0])
                        && old(self).accepts(state, v) ==> goal) ==> #[trigger] final(self).sound(
                    final(todo)@,
                    goal,
                ),
            forall|p: Pkt, v: Word|
                p.len() == old(self).n() && is_word(old(self).n(), v) && old(self).store().sp.mem(
                    from,
                    p,
                ) && #[trigger] old(self).accepts(state, cons(p, v)) ==> final(self).goes_on(
                    Seq::empty(),
                    final(todo)@,
                    v,
                ),
    {
        let ghost o = *old(self);
        let ghost n = o.n();
        let ghost t0 = todo@;
        let st = self.delta(state);
        let es = st.entries();
        let ghost a = *self;
        proof {
            a.lemma_derives_use(&o, st@, state);
            a.lemma_listed(es@, st@);
            a.lemma_at_ext(&o, t0);
        }
        let mut i: usize = 0;
        while i < es.len()
            invariant
                self.wf(),
                self.extends(&a),
                a.wf(),
                a.extends(&o),
                o.wf(),
                o.has(state),
                n == o.n(),
                o.sets_ok(t0),
                a.list_ok(es@),
                o.store().sp.has(from),
                lists(es@, st@),
                a.st_wf(st@),
                forall|p: Pkt, v: Word| #[trigger]
                    a.leads(st@, p, v) == a.list_leads(es@, p, v),
                forall|p: Pkt, v: Word|
                    p.len() == n && is_word(n, v) ==> (#[trigger] a.leads(st@, p, v)
                        <==> o.accepts(state, cons(p, v))),
                i <= es@.len(),
                self.sets_ok(todo@),
                forall|s: State, p: Pkt|
                    p.len() == n && o.at(t0, s, p) ==> #[trigger] self.at(todo@, s, p),
                forall|goal: bool|
                    o.sound(t0, goal) && (forall|v: Word| #[trigger]
                        is_word(n, v) && o.store().sp.mem(from, v[0]) && o.accepts(state, v)
                            ==> goal) ==> #[trigger] self.sound(todo@, goal),
                forall|j: int, p: Pkt, q: Pkt|
                    #![trigger a.store().rel(es@[j].1, p, q)]
                    0 <= j < i && p.len() == n && q.len() == n && o.store().sp.mem(from, p)
                        && a.store().rel(es@[j].1, p, q) ==> self.at(todo@, es@[j].0, q),
            decreases es.len() - i,
        {
            let (state2, spp2) = es[i];
            let ghost b = *self;
            let ghost t1 = todo@;
            proof {
                assert(es@[i as int] == (state2, spp2));
                assert(a.store().sp.has(from));
            }
            let seq_forward = self.spp_push(from, spp2);
            todo.push((state2, seq_forward));
            proof {
                self.lemma_at_ext(&b, t1);
                self.lemma_wf();
                self.store().lemma_wf();
                o.lemma_wf();
                o.store().lemma_wf();
                assert forall|s: State, p: Pkt|
                    p.len() == n && b.at(t1, s, p) implies #[trigger] self.at(todo@, s, p) by {
                    self.lemma_at_push(t1, (state2, seq_forward), s, p);
                    assert(self.at(t1, s, p));
                }
                assert forall|s: State, p: Pkt|
                    p.len() == n && o.at(t0, s, p) implies #[trigger] self.at(todo@, s, p) by {
                    assert(b.at(t1, s, p));
                }
                assert forall|goal: bool|
                    o.sound(t0, goal) && (forall|v: Word| #[trigger]
                        is_word(n, v) && o.store().sp.mem(from, v[0]) && o.accepts(state, v)
                            ==> goal) implies #[trigger] self.sound(todo@, goal) by {
                    assert(b.sound(t1, goal));
                    assert forall|s: State, v: Word|
                        #![trigger self.at(todo@, s, v[0]), self.accepts(s, v)]
                        is_word(self.n(), v) && self.at(todo@, s, v[0]) && self.accepts(
                            s,
                            v,
                        ) implies goal by {
                        self.lemma_at_push(t1, (state2, seq_forward), s, v[0]);
                        if self.at(t1, s, v[0]) {
                            assert(b.at(t1, s, v[0]));
                            let i1 = choose|i1: int|
                                0 <= i1 < t1.len() && (#[trigger] t1[i1]).0 == s
                                    && b.store().sp.mem(t1[i1].1, v[0]);
                            assert(b.has(s));
                            assert(b.accepts(s, v));
                        } else {
                            let q = v[0];
                            let p = choose|p: Pkt|
                                #![trigger b.store().sp.mem(from, p)]
                                p.len() == n && b.store().sp.mem(from, p) && b.store().rel(
                                    spp2,
                                    p,
                                    q,
                                );
                            assert(o.store().sp.mem(from, p));
                            assert(a.store().rel(es@[i as int].1, p, q));
                            assert(a.accepts(state2, v));
                            assert(a.list_leads(es@, p, v));
                            assert(a.leads(st@, p, v));
                            assert(o.accepts(state, cons(p, v)));
                            lemma_cons(n, p, v);
                            assert(is_word(n, cons(p, v)));
                        }
                    }
                }
                assert forall|j: int, p: Pkt, q: Pkt|
                    #![trigger a.store().rel(es@[j].1, p, q)]
                    0 <= j < i + 1 && p.len() == n && q.len() == n && o.store().sp.mem(from, p)
                        && a.store().rel(es@[j].1, p, q) implies self.at(
                    todo@,
                    es@[j].0,
                    q,
                ) by {
                    if j < i {
                        assert(b.at(t1, es@[j].0, q));
                    } else {
                        self.lemma_at_push(t1, (state2, seq_forward), state2, q);
                        assert(b.store().sp.mem(from, p));
                        assert(b.store().rel(spp2, p, q));
                        assert(self.store().sp.mem(seq_forward, q));
                    }
                }
            }
            i = i + 1;
        }
        proof {
            assert forall|p: Pkt, v: Word|
                p.len() == n && is_word(n, v) && o.store().sp.mem(from, p) && #[trigger] o.accepts(
                    state,
                    cons(p, v),
                ) implies self.goes_on(Seq::empty(), todo@, v) by {
                assert(a.leads(st@, p, v));
                assert(a.list_leads(es@, p, v));
                let j = choose|j: int|
                    0 <= j < es@.len() && a.store().rel((#[trigger] es@[j]).1, p, v[0])
                        && a.accepts(es@[j].0, v);
                assert(a.store().rel(es@[j].1, p, v[0]));
                assert(self.at(todo@, es@[j].0, v[0]));
                assert(self.accepts(es@[j].0, v));
            }
        }
    }

    /// Whether the state accepts no word.
    pub fn is_empty(&mut self, state: State) -> (r: bool)
        requires
            old(self).wf(),
            old(self).has(state),
        ensures
            final(self).wf(),
            final(self).extends(old(self)),
            r <==> !old(self).inhabited(state),
    {
        let ghost o = *old(self);
        let ghost n = o.n();
        let ghost goal = o.inhabited(state);
        proof {
            self.lemma_wf();
            self.spp.lemma_wf();
            self.spp.sp.lemma_consts();
        }
        let mut todo: Vec<(State, SP)> = Vec::new();
        todo.push((state, self.spp.sp.one));
        // the packets that were found at each state, all at once and one by one
        let mut sp_map: HashMap<State, SP> = HashMap::new();
        let mut found: Vec<(State, SP)> = Vec::new();
        proof {
            assert forall|p: Pkt| p.len() == n implies #[trigger] o.at(todo@, state, p) by {
                assert(todo@[0].0 == state && o.store().sp.mem(todo@[0].1, p));
            }
        }
        while todo.len() > 0
            invariant
                self.wf(),
                self.extends(&o),
                o.wf(),
                o.has(state),
                n == o.n(),
                goal == o.inhabited(state),
                self.sets_ok(todo@),
                self.sets_ok(found@),
                self.sound(todo@, goal),
                self.sound(found@, goal),
                self.explored(found@, todo@),
                forall|p: Pkt|
                    p.len() == n ==> #[trigger] self.at(todo@, state, p) || self.at(
                        found@,
                        state,
                        p,
                    ),
                forall|s: State| #[trigger]
                    sp_map@.contains_key(s) ==> self.store().sp.has(sp_map@[s]),
                forall|s: State, p: Pkt|
                    #![trigger self.at(found@, s, p)]
                    p.len() == n ==> (self.at(found@, s, p) <==> sp_map@.contains_key(s)
                        && self.store().sp.mem(sp_map@[s], p)),
            decreases usize::MAX - found.len(), todo.len(),
        {
            let ghost a = *self;
            let ghost t0 = todo@;
            let ghost f0 = found@;
            let ghost m0 = sp_map@;
            let (s, sp) = todo.pop().unwrap();
            let ghost t1 = todo@;
            proof {
                assert(t0 =~= t1.push((s, sp)));
                assert(t0[t0.len() - 1] == (s, sp));
                self.lemma_wf();
                self.spp.lemma_wf();
                self.spp.sp.lemma_consts();
                assert forall|k: State, p: Pkt| #[trigger] a.at(t0, k, p) <==> a.at(t1, k, p) || (k
                    == s && a.store().sp.mem(sp, p)) by {
                    a.lemma_at_push(t1, (s, sp), k, p);
                }
                assert forall|i: int| 0 <= i < t1.len() implies a.has((#[trigger] t1[i]).0)
                    && a.store().sp.has(t1[i].1) by {
                    assert(t1[i] == t0[i]);
                }
            }
            let seen = match sp_map.get(&s) {
                Some(x) => *x,
                None => self.spp.sp.zero,
            };
            proof {
                assert forall|p: Pkt| p.len() == n implies #[trigger] a.store().sp.mem(seen, p)
                    == a.at(f0, s, p) by {}
            }
            let to_add = self.sp_difference(sp, seen);
            let ghost b = *self;
            proof {
                b.lemma_at_ext(&a, t0);
                b.lemma_at_ext(&a, t1);
                b.lemma_at_ext(&a, f0);
                b.lemma_carry(&a, t0, goal);
                b.lemma_carry(&a, f0, goal);
                b.lemma_explored_ext(&a, f0, t0);
                b.lemma_wf();
                b.store().lemma_wf();
                b.store().sp.lemma_nonzero(to_add);
            }
            if to_add != self.spp.sp.zero {
                let all = self.sp_union(seen, to_add);
                let ghost c = *self;
                sp_map.insert(s, all);
                found.push((s, to_add));
                let ghost f1 = found@;
                proof {
                    c.lemma_at_ext(&b, t0);
                    c.lemma_at_ext(&b, t1);
                    c.lemma_at_ext(&b, f0);
                    c.lemma_carry(&b, t0, goal);
                    c.lemma_carry(&b, f0, goal);
                    c.lemma_explored_ext(&b, f0, t0);
                    assert(t1.len() <= t0.len());
                }
                self.follow_all(s, to_add, &mut todo);
                proof {
                    let d = *self;
                    a.lemma_is_empty_step(&b, &c, &d, n, goal, state, t0, t1, todo@, f0, s, sp, to_add);
                    d.lemma_at_ext(&c, f1);
                    assert forall|k: State, p: Pkt|
                        #![trigger d.at(f1, k, p)]
                        p.len() == n implies (d.at(f1, k, p) <==> sp_map@.contains_key(k)
                        && d.store().sp.mem(sp_map@[k], p)) by {
                        c.lemma_at_push(f0, (s, to_add), k, p);
                        assert(c.at(f0, k, p) == b.at(f0, k, p));
                        assert(b.at(f0, k, p) == a.at(f0, k, p));
                        if k == s {
                            assert(c.store().sp.mem(all, p) == (b.store().sp.mem(seen, p)
                                || b.store().sp.mem(to_add, p)));
                            assert(c.store().sp.mem(to_add, p) == b.store().sp.mem(to_add, p));
                            assert(b.store().sp.mem(seen, p) == a.store().sp.mem(seen, p));
                        } else if m0.contains_key(k) {
                            assert(d.store().sp.mem(m0[k], p) == a.store().sp.mem(m0[k], p));
                        }
                    }
                }
            } else {
                proof {
                    // every packet was found before
                    assert forall|k: State, p: Pkt|
                        p.len() == n && #[trigger] b.at(t0, k, p) implies b.at(t1, k, p) || b.at(
                        f0,
                        k,
                        p,
                    ) by {
                        assert(a.at(t0, k, p));
                        if !a.at(t1, k, p) {
                            assert(!b.store().sp.mem(to_add, p));
                            assert(a.store().sp.mem(seen, p));
                            assert(a.at(f0, s, p));
                        }
                    }
                    assert forall|k: State, v: Word|
                        #![trigger b.at(t1, k, v[0]), b.accepts(k, v)]
                        is_word(n, v) && b.at(t1, k, v[0]) && b.accepts(k, v) implies goal by {
                        assert(a.at(t1, k, v[0]));
                        assert(a.at(t0, k, v[0]));
                        assert(b.at(t0, k, v[0]));
                    }
                    b.lemma_explored_less(f0, t0, t1);
                    assert forall|p: Pkt|
                        p.len() == n implies #[trigger] b.at(t1, state, p) || b.at(
                        f0,
                        state,
                        p,
                    ) by {
                        assert(a.at(t0, state, p) || a.at(f0, state, p));
                        assert(b.at(t0, state, p) == a.at(t0, state, p));
                    }
                    assert forall|k: State, p: Pkt|
                        #![trigger b.at(f0, k, p)]
                        p.len() == n implies (b.at(f0, k, p) <==> m0.contains_key(k)
                        && b.store().sp.mem(m0[k], p)) by {
                        assert(b.at(f0, k, p) == a.at(f0, k, p));
                        if m0.contains_key(k) {
                            assert(b.store().sp.mem(m0[k], p) == a.store().sp.mem(m0[k], p));
                        }
                    }
                }
            }
        }
        let ghost fs = found@;
        let ghost e = *self;
        proof {
            assert(todo@ =~= Seq::<(State, SP)>::empty());
        }
        let mut i: usize = 0;
        while i < found.len()
            invariant
                o == *old(self),
                self.wf(),
                self.extends(&e),
                e.wf(),
                e.extends(&o),
                o.wf(),
                o.has(state),
                n == o.n(),
                fs == found@,
                goal == o.inhabited(state),
                e.sets_ok(fs),
                e.sound(fs, goal),
                i <= fs.len(),
                forall|j: int, p: Pkt, q: Pkt|
                    #![trigger e.store().sp.mem(fs[j].1, p), e.accepts(fs[j].0, pair(p, q))]
                    0 <= j < i && p.len() == n && q.len() == n && e.store().sp.mem(fs[j].1, p)
                        ==> !e.accepts(fs[j].0, pair(p, q)),
            decreases found.len() - i,
        {
            let (s, sp) = found[i];
            proof {
                assert(fs[i as int] == (s, sp));
            }
            let epsilon_spp = self.epsilon(s);
            let ghost b = *self;
            proof {
                b.lemma_single_use(&e, epsilon_spp, s);
            }
            let sp_composed = self.spp_push(sp, epsilon_spp);
            proof {
                self.lemma_wf();
                self.spp.lemma_wf();
                self.spp.sp.lemma_nonzero(sp_composed);
                e.lemma_wf();
                e.store().lemma_wf();
            }
            if sp_composed != self.spp.sp.zero {
                proof {
                    let q = choose|q: Pkt| q.len() == n && self.store().sp.mem(sp_composed, q);
                    let p = choose|p: Pkt|
                        #![trigger b.store().sp.mem(sp, p)]
                        p.len() == n && b.store().sp.mem(sp, p) && b.store().rel(
                            epsilon_spp,
                            p,
                            q,
                        );
                    assert(e.accepts(s, pair(p, q)));
                    assert(is_word(n, pair(p, q)));
                    assert(e.store().sp.mem(fs[i as int].1, p));
                    assert(pair(p, q)[0] == p);
                    assert(e.at(fs, s, pair(p, q)[0]));
                }
                return false;
            }
            proof {
                assert forall|j: int, p: Pkt, q: Pkt|
                    #![trigger e.store().sp.mem(fs[j].1, p), e.accepts(fs[j].0, pair(p, q))]
                    0 <= j < i + 1 && p.len() == n && q.len() == n && e.store().sp.mem(
                        fs[j].1,
                        p,
                    ) implies !e.accepts(fs[j].0, pair(p, q)) by {
                    if j == i && e.accepts(s, pair(p, q)) {
                        assert(b.store().rel(epsilon_spp, p, q));
                        assert(b.store().sp.mem(sp, p));
                        assert(self.store().sp.mem(sp_composed, q));
                    }
                }
            }
            i = i + 1;
        }
        proof {
            if goal {
                let w = choose|w: Word| is_word(n, w) && #[trigger] o.accepts(state, w);
                assert(e.accepts(state, w));
                assert(e.at(Seq::empty(), state, w[0]) || e.at(fs, state, w[0]));
                e.lemma_explored(fs, state, w);
                let (t, p, q) = choose|t: State, p: Pkt, q: Pkt|
                    p.len() == e.n() && q.len() == e.n() && #[trigger] e.at(fs, t, p)
                        && #[trigger] e.accepts(t, pair(p, q));
                let j = choose|j: int|
                    0 <= j < fs.len() && (#[trigger] fs[j]).0 == t && e.store().sp.mem(fs[j].1, p);
                assert(!e.accepts(fs[j].0, pair(p, q)));
            }
        }
        true
    }

    /// What a list shows is kept.
    proof fn lemma_carry(&self, o: &Aut, es: Seq<(State, SP)>, goal: bool)
        requires
            self.extends(o),
            o.wf(),
            o.sets_ok(es),
            o.sound(es, goal),
        ensures
            self.sound(es, goal),
    {
        self.lemma_at_ext(o, es);
        assert forall|s: State, v: Word|
            #![trigger self.at(es, s, v[0]), self.accepts(s, v)]
            is_word(self.n(), v) && self.at(es, s, v[0]) && self.accepts(s, v) implies goal by {
            assert(o.at(es, s, v[0]));
            let i = choose|i: int|
                0 <= i < es.len() && (#[trigger] es[i]).0 == s && o.store().sp.mem(es[i].1, v[0]);
            assert(o.has(s));
            assert(o.accepts(s, v));
        }
    }

    proof fn lemma_goes_on_ext(
        &self,
        o: &Aut,
        done: Seq<(State, SP)>,
        todo: Seq<(State, SP)>,
        v: Word,
    )
        requires
            self.extends(o),
            o.wf(),
            o.sets_ok(done),
            o.sets_ok(todo),
            is_word(o.n(), v),
            o.goes_on(done, todo, v),
        ensures
            self.goes_on(done, todo, v),
    {
        self.lemma_at_ext(o, done);
        self.lemma_at_ext(o, todo);
        let k = choose|k: State|
            o.has(k) && #[trigger] o.accepts(k, v) && (o.at(done, k, v[0]) || o.at(todo, k, v[0]));
        assert(self.accepts(k, v));
        assert(self.at(done, k, v[0]) || self.at(todo, k, v[0]));
    }

    proof fn lemma_explored_ext(&self, o: &Aut, done: Seq<(State, SP)>, todo: Seq<(State, SP)>)
        requires
            self.extends(o),
            o.wf(),
            o.sets_ok(done),
            o.sets_ok(todo),
            o.explored(done, todo),
        ensures
            self.explored(done, todo),
    {
        self.lemma_at_ext(o, done);
        assert forall|s: State, p: Pkt, v: Word|
            #![trigger self.at(done, s, p), self.accepts(s, cons(p, v))]
            p.len() == self.n() && is_word(self.n(), v) && self.at(done, s, p) && self.accepts(
                s,
                cons(p, v),
            ) implies self.goes_on(done, todo, v) by {
            assert(o.at(done, s, p));
            let i = choose|i: int|
                0 <= i < done.len() && (#[trigger] done[i]).0 == s && o.store().sp.mem(
                    done[i].1,
                    p,
                );
            assert(o.has(s));
            lemma_cons(o.n(), p, v);
            assert(o.accepts(s, cons(p, v)));
            self.lemma_goes_on_ext(o, done, todo, v);
        }
    }

    /// Entries of `todo` that `done` has are not needed.
    proof fn lemma_explored_less(
        &self,
        done: Seq<(State, SP)>,
        t0: Seq<(State, SP)>,
        t1: Seq<(State, SP)>,
    )
        requires
            self.explored(done, t0),
            forall|k: State, p: Pkt|
                p.len() == self.n() && #[trigger] self.at(t0, k, p) ==> self.at(t1, k, p)
                    || self.at(done, k, p),
        ensures
            self.explored(done, t1),
    {
        assert forall|s: State, p: Pkt, v: Word|
            #![trigger self.at(done, s, p), self.accepts(s, cons(p, v))]
            p.len() == self.n() && is_word(self.n(), v) && self.at(done, s, p) && self.accepts(
                s,
                cons(p, v),
            ) implies self.goes_on(done, t1, v) by {
            assert(self.goes_on(done, t0, v));
            let k = choose|k: State|
                self.has(k) && #[trigger] self.accepts(k, v) && (self.at(done, k, v[0]) || self.at(
                    t0,
                    k,
                    v[0],
                ));
            assert(self.at(t0, k, v[0]) ==> self.at(t1, k, v[0]) || self.at(done, k, v[0]));
        }
    }

    /// One round of the search: packets at a state are found, and followed.
    proof fn lemma_is_empty_step(
        &self,
        b: &Aut,
        c: &Aut,
        d: &Aut,
        n: nat,
        goal: bool,
        state: State,
        t0: Seq<(State, SP)>,
        t1: Seq<(State, SP)>,
        t2: Seq<(State, SP)>,
        f0: Seq<(State, SP)>,
        s: State,
        sp: SP,
        to_add: SP,
    )
        requires
            self.wf(),
            b.wf(),
            c.wf(),
            b.extends(self),
            c.extends(b),
            d.extends(c),
            n == self.n(),
            self.has(s),
            self.store().sp.has(sp),
            b.store().sp.has(to_add),
            self.sets_ok(t0),
            self.sets_ok(t1),
            self.sets_ok(f0),
            t0 == t1.push((s, sp)),
            self.sound(t0, goal),
            self.sound(f0, goal),
            self.explored(f0, t0),
            d.sets_ok(t2),
            forall|p: Pkt|
                p.len() == n ==> #[trigger] self.at(t0, state, p) || self.at(f0, state, p),
            forall|p: Pkt|
                p.len() == n ==> (#[trigger] b.store().sp.mem(to_add, p) <==> self.store().sp.mem(
                    sp,
                    p,
                ) && !self.at(f0, s, p)),
            forall|k: State, p: Pkt|
                p.len() == n && c.at(t1, k, p) ==> #[trigger] d.at(t2, k, p),
            forall|g: bool|
                c.sound(t1, g) && (forall|v: Word| #[trigger]
                    is_word(n, v) && c.store().sp.mem(to_add, v[0]) && c.accepts(s, v) ==> g)
                    ==> #[trigger] d.sound(t2, g),
            forall|p: Pkt, v: Word|
                p.len() == n && is_word(n, v) && c.store().sp.mem(to_add, p)
                    && #[trigger] c.accepts(s, cons(p, v)) ==> d.goes_on(Seq::empty(), t2, v),
        ensures
            d.sound(t2, goal),
            d.sound(f0.push((s, to_add)), goal),
            d.explored(f0.push((s, to_add)), t2),
            d.sets_ok(f0.push((s, to_add))),
            forall|p: Pkt|
                p.len() == n ==> #[trigger] d.at(t2, state, p) || d.at(
                    f0.push((s, to_add)),
                    state,
                    p,
                ),
    {
        let f1 = f0.push((s, to_add));
        self.lemma_wf();
        self.store().lemma_wf();
        b.lemma_wf();
        b.store().lemma_wf();
        c.lemma_at_ext(self, t0);
        c.lemma_at_ext(self, t1);
        c.lemma_at_ext(self, f0);
        c.lemma_carry(self, t0, goal);
        c.lemma_carry(self, f0, goal);
        d.lemma_at_ext(c, t0);
        d.lemma_at_ext(c, f0);
        d.lemma_carry(c, f0, goal);
        d.lemma_explored_ext(self, f0, t0);
        assert forall|i: int| 0 <= i < f1.len() implies d.has((#[trigger] f1[i]).0)
            && d.store().sp.has(f1[i].1) by {
            if i < f0.len() {
                assert(f1[i] == f0[i]);
                assert(self.has(f0[i].0) && self.store().sp.has(f0[i].1));
            }
        }
        assert forall|p: Pkt| p.len() == n implies #[trigger] c.store().sp.mem(to_add, p)
            == b.store().sp.mem(to_add, p) && d.store().sp.mem(to_add, p) == b.store().sp.mem(
            to_add,
            p,
        ) by {}
        // what was in the list is still in it, or found
        assert forall|k: State, p: Pkt|
            p.len() == n && #[trigger] d.at(t0, k, p) implies d.at(t2, k, p) || d.at(f1, k, p) by {
            assert(c.at(t0, k, p));
            assert(self.at(t0, k, p));
            self.lemma_at_push(t1, (s, sp), k, p);
            d.lemma_at_push(f0, (s, to_add), k, p);
            if self.at(t1, k, p) {
                assert(c.at(t1, k, p));
                assert(d.at(t2, k, p));
            } else if self.at(f0, s, p) {
                assert(c.at(f0, s, p));
                assert(d.at(f0, s, p));
            } else {
                assert(b.store().sp.mem(to_add, p));
                assert(c.store().sp.mem(to_add, p));
            }
        }
        assert forall|k: State, p: Pkt|
            p.len() == n && #[trigger] d.at(f0, k, p) implies d.at(f1, k, p) by {
            d.lemma_at_push(f0, (s, to_add), k, p);
        }
        assert forall|v: Word| #[trigger]
            is_word(n, v) && c.store().sp.mem(to_add, v[0]) && c.accepts(s, v) implies goal by {
            assert(b.store().sp.mem(to_add, v[0]));
            assert(self.store().sp.mem(sp, v[0]));
            self.lemma_at_push(t1, (s, sp), s, v[0]);
            assert(self.at(t0, s, v[0]));
            assert(self.accepts(s, v));
        }
        assert(c.sound(t1, goal)) by {
            assert forall|k: State, v: Word|
                #![trigger c.at(t1, k, v[0]), c.accepts(k, v)]
                is_word(c.n(), v) && c.at(t1, k, v[0]) && c.accepts(k, v) implies goal by {
                c.lemma_at_push(t1, (s, sp), k, v[0]);
                assert(c.at(t0, k, v[0]));
            }
        }
        assert(d.sound(t2, goal));
        assert forall|k: State, v: Word|
            #![trigger d.at(f1, k, v[0]), d.accepts(k, v)]
            is_word(d.n(), v) && d.at(f1, k, v[0]) && d.accepts(k, v) implies goal by {
            d.lemma_at_push(f0, (s, to_add), k, v[0]);
            if !d.at(f0, k, v[0]) {
                assert(c.store().sp.mem(to_add, v[0]));
                assert(c.accepts(s, v));
            }
        }
        assert forall|k: State, p: Pkt, v: Word|
            #![trigger d.at(f1, k, p), d.accepts(k, cons(p, v))]
            p.len() == d.n() && is_word(d.n(), v) && d.at(f1, k, p) && d.accepts(
                k,
                cons(p, v),
            ) implies d.goes_on(f1, t2, v) by {
            d.lemma_at_push(f0, (s, to_add), k, p);
            if d.at(f0, k, p) {
                assert(d.goes_on(f0, t0, v));
                let h = choose|h: State|
                    d.has(h) && #[trigger] d.accepts(h, v) && (d.at(f0, h, v[0]) || d.at(
                        t0,
                        h,
                        v[0],
                    ));
                assert(d.at(f1, h, v[0]) || d.at(t2, h, v[0]));
            } else {
                lemma_cons(n, p, v);
                assert(c.store().sp.mem(to_add, p));
                assert(c.accepts(s, cons(p, v)));
                assert(d.goes_on(Seq::empty(), t2, v));
                let h = choose|h: State|
                    d.has(h) && #[trigger] d.accepts(h, v) && (d.at(Seq::empty(), h, v[0]) || d.at(
                        t2,
                        h,
                        v[0],
                    ));
                assert(d.at(t2, h, v[0]));
            }
        }
        assert forall|p: Pkt| p.len() == n implies #[trigger] d.at(t2, state, p) || d.at(
            f1,
            state,
            p,
        ) by {
            assert(self.at(t0, state, p) || self.at(f0, state, p));
            if self.at(t0, state, p) {
                assert(c.at(t0, state, p));
                assert(d.at(t0, state, p));
            } else {
                assert(c.at(f0, state, p));
                assert(d.at(f0, state, p));
            }
        }
    }
}
// ---- transitions of all reachable states -----------------------------------------------

impl Aut {
    /// The transitions and single steps of a state are kept.
    pub proof fn lemma_keep(&self, o: &Aut, s: State)
        requires
            self.extends(o),
            o.wf(),
            o.has(s),
        ensures
            forall|m: Map<State, SPP>| o.derives(m, s) ==> #[trigger] self.derives(m, s),
            forall|x: SPP| o.single(x, s) ==> #[trigger] self.single(x, s),
    {
        o.lemma_wf();
        self.lemma_same(o, s);
        assert forall|m: Map<State, SPP>| o.derives(m, s) implies #[trigger] self.derives(
            m,
            s,
        ) by {
            lemma_derives_ext(
                o.tbl(),
                o.store(),
                self.tbl(),
                self.store(),
                m,
                o.lang(s),
                self.lang(s),
            );
        }
        assert forall|x: SPP| o.single(x, s) implies #[trigger] self.single(x, s) by {
            o.lemma_single_use(o, x, s);
            assert forall|p: Pkt, q: Pkt|
                #![trigger self.store().rel(x, p, q)]
                p.len() == o.n() && q.len() == o.n() implies (self.store().rel(x, p, q)
                <==> o.accepts(s, pair(p, q))) by {
                assert(o.store().rel(x, p, q) == self.store().rel(x, p, q));
            }
            self.lemma_single_of(o, x, s);
        }
    }

    /// `ts` are the transitions of the first states of `ss`, and lead to states
    /// of `ss`.
    pub open spec fn spans(&self, ss: Seq<State>, ts: Seq<ST>) -> bool {
        &&& ts.len() <= ss.len()
        &&& self.have(ss)
        &&& forall|i: int| 0 <= i < ts.len() ==> self.derives((#[trigger] ts[i])@, ss[i])
        &&& forall|i: int, k: State|
            #![trigger ts[i]@.contains_key(k)]
            0 <= i < ts.len() && ts[i]@.contains_key(k) ==> ss.contains(k)
    }

    pub proof fn lemma_spans_ext(&self, o: &Aut, ss: Seq<State>, ts: Seq<ST>)
        requires
            self.extends(o),
            o.wf(),
            o.spans(ss, ts),
        ensures
            self.spans(ss, ts),
    {
        assert forall|i: int| 0 <= i < ts.len() implies self.derives(
            (#[trigger] ts[i])@,
            ss[i],
        ) by {
            assert(o.has(ss[i]));
            self.lemma_keep(o, ss[i]);
            assert(o.derives(ts[i]@, ss[i]));
        }
        assert forall|i: int| 0 <= i < ss.len() implies self.has(#[trigger] ss[i]) by {
            assert(o.has(ss[i]));
        }
    }

    /// The states that are reachable from a state, which comes first, and their
    /// transitions.
    pub fn explore(&mut self, state: State) -> (r: (Vec<State>, Vec<ST>))
        requires
            old(self).wf(),
            old(self).has(state),
        ensures
            final(self).wf(),
            final(self).extends(old(self)),
            r.0@.len() == r.1@.len(),
            r.0@.len() >= 1,
            r.0@[0] == state,
            r.0@.no_duplicates(),
            final(self).spans(r.0@, r.1@),
    {
        let ghost o = *old(self);
        let mut states: Vec<State> = Vec::new();
        let mut seen: HashMap<State, usize> = HashMap::new();
        let mut steps: Vec<ST> = Vec::new();
        states.push(state);
        seen.insert(state, 0);
        proof {
            assert(states@[0] == state);
        }
        let mut head: usize = 0;
        while head < states.len()
            invariant
                self.wf(),
                self.extends(&o),
                o.wf(),
                head <= states@.len(),
                steps@.len() == head,
                states@.len() >= 1,
                states@[0] == state,
                states@.no_duplicates(),
                self.spans(states@, steps@),
                forall|s: State| #[trigger] seen@.contains_key(s) <==> states@.contains(s),
            decreases usize::MAX - head,
        {
            let ghost a = *self;
            let u = states[head];
            proof {
                assert(a.has(states@[head as int]));
            }
            let st = self.delta(u);
            proof {
                self.lemma_spans_ext(&a, states@, steps@);
            }
            let es = st.entries();
            let ghost ss = states@;
            let mut i: usize = 0;
            while i < es.len()
                invariant
                    self.wf(),
                    i <= es@.len(),
                    lists(es@, st@),
                    self.derives(st@, u),
                    states@.len() >= ss.len(),
                    forall|j: int| 0 <= j < ss.len() ==> states@[j] == #[trigger] ss[j],
                    states@.no_duplicates(),
                    self.have(states@),
                    forall|s: State| #[trigger] seen@.contains_key(s) <==> states@.contains(s),
                    forall|j: int| 0 <= j < i ==> states@.contains((#[trigger] es@[j]).0),
                decreases es.len() - i,
            {
                let v = es[i].0;
                let ghost s0 = states@;
                proof {
                    assert(st@.contains_key(es@[i as int].0));
                }
                if !seen.contains_key(&v) {
                    let next = states.len();
                    seen.insert(v, next);
                    states.push(v);
                    proof {
                        assert(states@ =~= s0.push(v));
                        assert(states@[s0.len() as int] == v);
                        assert forall|s: State| #[trigger]
                            seen@.contains_key(s) <==> states@.contains(s) by {
                            if s0.contains(s) {
                                let j = choose|j: int| 0 <= j < s0.len() && s0[j] == s;
                                assert(states@[j] == s);
                            }
                        }
                        assert forall|j: int| 0 <= j < i + 1 implies states@.contains(
                            (#[trigger] es@[j]).0,
                        ) by {
                            if j < i {
                                assert(s0.contains(es@[j].0));
                                let h = choose|h: int| 0 <= h < s0.len() && s0[h] == es@[j].0;
                                assert(states@[h] == es@[j].0);
                            }
                        }
                        assert forall|j: int| 0 <= j < states@.len() implies self.has(
                            #[trigger] states@[j],
                        ) by {
                            if j < s0.len() {
                                assert(self.has(s0[j]));
                            }
                        }
                    }
                }
                i = i + 1;
            }
            let ghost t0 = steps@;
            steps.push(st);
            proof {
                assert forall|j: int| 0 <= j < steps@.len() implies self.derives(
                    (#[trigger] steps@[j])@,
                    states@[j],
                ) by {
                    if j < head {
                        assert(steps@[j] == t0[j]);
                        assert(states@[j] == ss[j]);
                    } else {
                        assert(states@[head as int] == ss[head as int]);
                    }
                }
                assert forall|j: int, k: State|
                    #![trigger steps@[j]@.contains_key(k)]
                    0 <= j < steps@.len() && steps@[j]@.contains_key(k) implies states@.contains(
                    k,
                ) by {
                    if j < head {
                        assert(t0[j]@.contains_key(k));
                        assert(ss.contains(k));
                        let h = choose|h: int| 0 <= h < ss.len() && ss[h] == k;
                        assert(states@[h] == k);
                    } else {
                        let h = choose|h: int| 0 <= h < es@.len() && (#[trigger] es@[h]).0 == k;
                        assert(states@.contains(es@[h].0));
                    }
                }
            }
            head = head + 1;
        }
        (states, steps)
    }

    /// The edges from the states `ss` by the transitions `ts`.
    spec fn graph(&self, ss: Seq<State>, ts: Seq<ST>) -> Edges {
        |i: int, j: int, p: Pkt, q: Pkt|
            ts[i]@.contains_key(ss[j]) && self.store().rel(ts[i]@[ss[j]], p, q)
    }

    /// The single steps of the states `ss`.
    spec fn ends(&self, ss: Seq<State>) -> Exits {
        |i: int, p: Pkt, q: Pkt| self.accepts(ss[i], pair(p, q))
    }

    /// A word of a state is a walk.
    proof fn lemma_word_flows(&self, ss: Seq<State>, ts: Seq<ST>, i: int, w: Word)
        requires
            self.wf(),
            self.spans(ss, ts),
            ts.len() == ss.len(),
            0 <= i < ss.len(),
            is_word(self.n(), w),
            self.accepts(ss[i], w),
        ensures
            flows(self.graph(ss, ts), self.ends(ss), self.n(), ss.len(), i, w[0], w.last()),
        decreases w.len(),
    {
        let n = self.n();
        let (e, x) = (self.graph(ss, ts), self.ends(ss));
        if w.len() == 2 {
            assert(w =~= pair(w[0], w[1]));
            lemma_flows_exit(e, x, n, ss.len(), i, w[0], w[1]);
        } else {
            lemma_uncons(n, w);
            let v = w.skip(1);
            let m = ts[i]@;
            assert(self.derives(m, ss[i]));
            assert(self.leads(m, w[0], v));
            let k = choose|k: State| #[trigger]
                m.contains_key(k) && self.store().rel(m[k], w[0], v[0]) && state_lang(
                    self.tbl(),
                    self.store(),
                    k,
                )(v);
            assert(ss.contains(k));
            let j = choose|j: int| 0 <= j < ss.len() && ss[j] == k;
            self.lemma_word_flows(ss, ts, j, v);
            assert(e(i, j, w[0], v[0]));
            lemma_flows_step(e, x, n, ss.len(), i, j, w[0], v[0], w.last());
        }
    }

    /// A walk is a word of its first state.
    proof fn lemma_walk_word(
        &self,
        ss: Seq<State>,
        ts: Seq<ST>,
        ns: Seq<int>,
        ps: Seq<Pkt>,
        q: Pkt,
    )
        requires
            self.wf(),
            self.spans(ss, ts),
            ts.len() == ss.len(),
            walk(self.graph(ss, ts), self.n(), ss.len(), ns, ps),
            self.ends(ss)(ns.last(), ps.last(), q),
            q.len() == self.n(),
        ensures
            reaches(self.n(), self.lang(ss[ns[0]]), ps[0], q),
        decreases ns.len(),
    {
        let n = self.n();
        let (e, x) = (self.graph(ss, ts), self.ends(ss));
        assert(0 <= ns[0] < ss.len() && ps[0].len() == n);
        let l = self.lang(ss[ns[0]]);
        if ns.len() == 1 {
            let w = pair(ps[0], q);
            assert(is_word(n, w) && l(w) && w[0] == ps[0] && w.last() == q);
        } else {
            let (ms, rs) = (ns.skip(1), ps.skip(1));
            assert forall|t: int| 0 <= t < ms.len() - 1 implies #[trigger] hop(e, ms, rs, t) by {
                assert(hop(e, ns, ps, t + 1));
            }
            assert forall|t: int| 0 <= t < ms.len() implies 0 <= #[trigger] ms[t] < ss.len() by {
                assert(ms[t] == ns[t + 1]);
            }
            assert forall|t: int| 0 <= t < rs.len() implies (#[trigger] rs[t]).len() == n by {
                assert(rs[t] == ps[t + 1]);
            }
            self.lemma_walk_word(ss, ts, ms, rs, q);
            assert(hop(e, ns, ps, 0));
            let k = ss[ns[1]];
            assert(ms[0] == ns[1] && rs[0] == ps[1]);
            let b = self.lang(k);
            let v = choose|v: Word| is_word(n, v) && #[trigger] b(v) && v[0] == rs[0] && v.last()
                == q;
            let m = ts[ns[0]]@;
            assert(self.derives(m, ss[ns[0]]));
            assert(m.contains_key(k) && self.store().rel(m[k], ps[0], v[0]));
            assert(self.leads(m, ps[0], v));
            let w = cons(ps[0], v);
            lemma_cons(n, ps[0], v);
            assert(l(w) && w[0] == ps[0] && w.last() == q);
        }
    }

    /// The table of the transitions between the states.
    fn edge_table(&mut self, states: &Vec<State>, steps: &Vec<ST>) -> (r: Vec<Vec<SPP>>)
        requires
            old(self).wf(),
            old(self).spans(states@, steps@),
            states@.len() == steps@.len(),
        ensures
            *final(self) == *old(self),
            rows_ok(old(self).store(), r@, states@.len(), states@.len()),
            forall|i: int, j: int, p: Pkt, q: Pkt|
                #![trigger old(self).store().rel(r@[i]@[j], p, q)]
                0 <= i < states@.len() && 0 <= j < states@.len() && p.len() == old(self).n()
                    && q.len() == old(self).n() ==> old(self).store().rel(r@[i]@[j], p, q)
                    == old(self).graph(states@, steps@)(i, j, p, q),
    {
        proof {
            self.lemma_wf();
        }
        let ghost n = states@.len();
        let mut rows: Vec<Vec<SPP>> = Vec::new();
        let mut i: usize = 0;
        while i < states.len()
            invariant
                *self == *old(self),
                self.wf(),
                self.store().consts(),
                self.spans(states@, steps@),
                n == states@.len(),
                states@.len() == steps@.len(),
                i <= n,
                rows_ok(self.store(), rows@, i as nat, n),
                forall|h: int, j: int, p: Pkt, q: Pkt|
                    #![trigger self.store().rel(rows@[h]@[j], p, q)]
                    0 <= h < i && 0 <= j < n && p.len() == self.n() && q.len() == self.n()
                        ==> self.store().rel(rows@[h]@[j], p, q) == self.graph(
                        states@,
                        steps@,
                    )(h, j, p, q),
            decreases n - i,
        {
            let mut row: Vec<SPP> = Vec::new();
            let ghost m = steps@[i as int]@;
            proof {
                assert(self.derives(m, states@[i as int]));
            }
            let st = &steps[i];
            let mut j: usize = 0;
            while j < states.len()
                invariant
                    *self == *old(self),
                    self.store().consts(),
                    st_ok(self.tbl(), self.store(), m),
                    n == states@.len(),
                    j <= n,
                    m == st@,
                    row_ok(self.store(), row@, j as nat),
                    forall|h: int, p: Pkt, q: Pkt|
                        #![trigger self.store().rel(row@[h], p, q)]
                        0 <= h < j && p.len() == self.n() && q.len() == self.n()
                            ==> self.store().rel(row@[h], p, q) == (m.contains_key(states@[h])
                            && self.store().rel(m[states@[h]], p, q)),
                decreases n - j,
            {
                let x = match st.get_transitions().get(&states[j]) {
                    Some(x) => *x,
                    None => self.spp.zero,
                };
                proof {
                    assert(m.contains_key(states@[j as int]) ==> self.store().has(
                        m[states@[j as int]],
                    ));
                }
                row.push(x);
                j = j + 1;
            }
            let ghost r0 = rows@;
            rows.push(row);
            proof {
                assert forall|h: int| 0 <= h < rows@.len() implies row_ok(
                    self.store(),
                    (#[trigger] rows@[h])@,
                    n,
                ) by {
                    if h < i {
                        assert(rows@[h] == r0[h]);
                    }
                }
                assert forall|h: int, j: int, p: Pkt, q: Pkt|
                    #![trigger self.store().rel(rows@[h]@[j], p, q)]
                    0 <= h < i + 1 && 0 <= j < n && p.len() == self.n() && q.len()
                        == self.n() implies self.store().rel(rows@[h]@[j], p, q) == self.graph(
                    states@,
                    steps@,
                )(h, j, p, q) by {
                    if h < i {
                        assert(rows@[h] == r0[h]);
                    } else {
                        assert(rows@[h] == row);
                    }
                }
            }
            i = i + 1;
        }
        rows
    }

    /// The table, of one column, of the single steps of the states.
    fn exit_table(&mut self, states: &Vec<State>) -> (r: Vec<Vec<SPP>>)
        requires
            old(self).wf(),
            old(self).have(states@),
        ensures
            final(self).wf(),
            final(self).extends(old(self)),
            rows_ok(final(self).store(), r@, states@.len(), 1),
            forall|i: int, p: Pkt, q: Pkt|
                #![trigger final(self).store().rel(r@[i]@[0], p, q)]
                0 <= i < states@.len() && p.len() == old(self).n() && q.len() == old(self).n()
                    ==> final(self).store().rel(r@[i]@[0], p, q) == old(self).accepts(
                    states@[i],
                    pair(p, q),
                ),
    {
        let ghost o = *old(self);
        let ghost n = o.n();
        let mut rows: Vec<Vec<SPP>> = Vec::new();
        let mut i: usize = 0;
        while i < states.len()
            invariant
                o.wf(),
                self.wf(),
                self.extends(&o),
                o.have(states@),
                n == o.n(),
                i <= states@.len(),
                rows_ok(self.store(), rows@, i as nat, 1),
                forall|h: int, p: Pkt, q: Pkt|
                    #![trigger self.store().rel(rows@[h]@[0], p, q)]
                    0 <= h < i && p.len() == n && q.len() == n ==> self.store().rel(
                        rows@[h]@[0],
                        p,
                        q,
                    ) == o.accepts(states@[h], pair(p, q)),
            decreases states.len() - i,
        {
            let ghost a = *self;
            let ghost r0 = rows@;
            proof {
                assert(o.has(states@[i as int]));
            }
            let eps = self.epsilon(states[i]);
            proof {
                self.lemma_single_use(&o, eps, states@[i as int]);
            }
            let mut row: Vec<SPP> = Vec::new();
            row.push(eps);
            rows.push(row);
            proof {
                assert forall|h: int| 0 <= h < rows@.len() implies row_ok(
                    self.store(),
                    (#[trigger] rows@[h])@,
                    1,
                ) by {
                    if h < i {
                        assert(rows@[h] == r0[h]);
                        assert(row_ok(a.store(), r0[h]@, 1));
                    }
                }
                assert forall|h: int, p: Pkt, q: Pkt|
                    #![trigger self.store().rel(rows@[h]@[0], p, q)]
                    0 <= h < i + 1 && p.len() == n && q.len() == n implies self.store().rel(
                    rows@[h]@[0],
                    p,
                    q,
                ) == o.accepts(states@[h], pair(p, q)) by {
                    if h < i {
                        assert(rows@[h] == r0[h]);
                        assert(row_ok(a.store(), r0[h]@, 1));
                        assert(a.store().has(r0[h]@[0]));
                        assert(a.store().rel(r0[h]@[0], p, q) == self.store().rel(
                            r0[h]@[0],
                            p,
                            q,
                        ));
                    } else {
                        assert(rows@[h]@[0] == eps);
                    }
                }
            }
            i = i + 1;
        }
        rows
    }

    /// `x` relates the first to the last packet of the words of state `s`.
    pub open spec fn overall(&self, x: SPP, s: State) -> bool {
        overall(self.store(), x, self.lang(s))
    }

    /// The relation between the first and the last packet of the words of a
    /// state.
    pub fn eliminate_dup(&mut self, initial_state: State) -> (r: SPP)
        requires
            old(self).wf(),
            old(self).has(initial_state),
        ensures
            final(self).wf(),
            final(self).extends(old(self)),
            final(self).overall(r, initial_state),
    {
        let ghost o = *old(self);
        let ghost n = o.n();
        match self.eliminate_dup_cache.get(&initial_state) {
            Some(x) => {
                proof {
                    reveal(Aut::caches_ok);
                }
                return *x;
            },
            None => {},
        }
        let (states, steps) = self.explore(initial_state);
        let ghost a = *self;
        let exits = self.exit_table(&states);
        let ghost b = *self;
        proof {
            b.lemma_spans_ext(&a, states@, steps@);
        }
        let edges = self.edge_table(&states, &steps);
        let ghost (es, xs) = (edges@, exits@);
        let solved = solve(&mut self.spp, edges, exits, 1);
        proof {
            self.lemma_grow(&b);
            assert(row_ok(self.store(), solved@[0]@, 1));
        }
        let result = solved[0][0];
        proof {
            let ss = states@;
            let ts = steps@;
            let (e1, x1) = (edges_of(b.store(), es), exits_of(b.store(), xs, 0));
            let (e2, x2) = (b.graph(ss, ts), b.ends(ss));
            assert forall|p: Pkt, q: Pkt|
                #![trigger self.store().rel(result, p, q)]
                p.len() == n && q.len() == n implies (self.store().rel(result, p, q) <==> reaches(
                n,
                self.lang(initial_state),
                p,
                q,
            )) by {
                assert forall|i: int, j: int, x: Pkt, y: Pkt|
                    #![trigger e1(i, j, x, y)]
                    #![trigger e2(i, j, x, y)]
                    0 <= i < ss.len() && 0 <= j < ss.len() && x.len() == n && y.len()
                        == n implies e1(i, j, x, y) == e2(i, j, x, y) by {
                    assert(b.store().rel(es[i]@[j], x, y) == e2(i, j, x, y));
                }
                assert forall|i: int, x: Pkt, y: Pkt|
                    #![trigger x1(i, x, y)]
                    #![trigger x2(i, x, y)]
                    0 <= i < ss.len() && x.len() == n && y.len() == n implies x1(i, x, y) == x2(
                    i,
                    x,
                    y,
                ) by {
                    assert(b.store().rel(xs[i]@[0], x, y) == a.accepts(ss[i], pair(x, y)));
                    assert(is_word(n, pair(x, y)));
                    assert(a.has(ss[i]));
                    assert(b.accepts(ss[i], pair(x, y)) == a.accepts(ss[i], pair(x, y)));
                }
                lemma_flows_same(e1, x1, e2, x2, n, ss.len(), 0, p, q);
                self.lemma_same(&b, initial_state);
                lemma_reaches_same(n, self.lang(initial_state), b.lang(initial_state), p, q);
                if flows(e2, x2, n, ss.len(), 0, p, q) {
                    let (ns, ps) = choose|ns: Seq<int>, ps: Seq<Pkt>| #[trigger]
                        walk(e2, n, ss.len(), ns, ps) && ns[0] == 0 && ps[0] == p && x2(
                            ns.last(),
                            ps.last(),
                            q,
                        );
                    b.lemma_walk_word(ss, ts, ns, ps, q);
                }
                if reaches(n, b.lang(initial_state), p, q) {
                    let l = b.lang(initial_state);
                    let w = choose|w: Word|
                        is_word(n, w) && #[trigger] l(w) && w[0] == p && w.last() == q;
                    b.lemma_word_flows(ss, ts, 0, w);
                }
            }
        }
        let ghost c = *self;
        self.eliminate_dup_cache.insert(initial_state, result);
        proof {
            reveal(Aut::caches_ok);
            assert(self.tbl() == c.tbl() && self.store() == c.store());
        }
        result
    }
}
// ---- pruning and random words ------------------------------------------------------------

/// One way to go on in a random word.
pub enum Onward {
    /// The word ends with this packet.
    Output(Vec<bool>),
    /// The word goes on in this state with this packet.
    Step(State, Vec<bool>),
}

/// A random number below `n`, from `rand::random_range`.
#[verifier::external_body]
fn random_below(n: usize) -> (r: usize)
    requires
        n > 0,
    ensures
        r < n,
{
    rand::random_range(0..n)
}

impl Aut {
    /// Some word of state `s` starts with packet `p`.
    pub open spec fn starts(&self, s: State, p: Pkt) -> bool {
        exists|w: Word| is_word(self.n(), w) && #[trigger] self.accepts(s, w) && w[0] == p
    }

    proof fn lemma_starts_ext(&self, o: &Aut, s: State, p: Pkt)
        requires
            self.extends(o),
            o.has(s),
        ensures
            self.starts(s, p) == o.starts(s, p),
    {
        if self.starts(s, p) {
            let w = choose|w: Word|
                is_word(self.n(), w) && #[trigger] self.accepts(s, w) && w[0] == p;
            assert(o.accepts(s, w));
        }
        if o.starts(s, p) {
            let w = choose|w: Word| is_word(o.n(), w) && #[trigger] o.accepts(s, w) && w[0] == p;
            assert(self.accepts(s, w));
        }
    }

    /// The packets that the words of a state start with.
    fn inputs(&mut self, state: State) -> (r: SP)
        requires
            old(self).wf(),
            old(self).has(state),
        ensures
            final(self).wf(),
            final(self).extends(old(self)),
            final(self).store().sp.has(r),
            forall|p: Pkt|
                #![trigger final(self).store().sp.mem(r, p)]
                p.len() == old(self).n() ==> (final(self).store().sp.mem(r, p) <==> old(self).starts(state, p)),
    {
        let ghost o = *old(self);
        let ghost n = o.n();
        let x = self.eliminate_dup(state);
        let ghost a = *self;
        let r = self.spp.bwd(x);
        proof {
            self.lemma_grow(&a);
            assert forall|p: Pkt|
                #![trigger self.store().sp.mem(r, p)]
                p.len() == n implies (self.store().sp.mem(r, p) <==> o.starts(state, p)) by {
                a.lemma_starts_ext(&o, state, p);
                let l = a.lang(state);
                if self.store().sp.mem(r, p) {
                    let q = choose|q: Pkt| q.len() == n && #[trigger] a.store().rel(x, p, q);
                    assert(reaches(n, l, p, q));
                    let w = choose|w: Word|
                        is_word(n, w) && #[trigger] l(w) && w[0] == p && w.last() == q;
                    assert(a.accepts(state, w));
                }
                if a.starts(state, p) {
                    let w = choose|w: Word|
                        is_word(n, w) && #[trigger] a.accepts(state, w) && w[0] == p;
                    let q = w.last();
                    assert(q.len() == n);
                    assert(l(w));
                    assert(reaches(n, l, p, q));
                    assert(a.store().rel(x, p, q));
                }
            }
        }
        r
    }

    /// The transitions of a state, without those from packets that no word of
    /// the state starts with: to each target the pairs of [`Aut::delta`] from the others.
    pub fn delta_pruned(&mut self, state: State) -> (r: ST)
        requires
            old(self).wf(),
            old(self).has(state),
        ensures
            final(self).wf(),
            final(self).extends(old(self)),
            final(self).derives(r@, state),
            forall|k: State| #[trigger] r@.contains_key(k) ==> r@[k] != final(self).store().zero,
            final(self).delta_known(state) matches Some(d) && forall|k: State, p: Pkt, q: Pkt|
                p.len() == old(self).n() && q.len() == old(self).n() ==> (#[trigger] goes_to(
                    final(self).store(),
                    r@,
                    k,
                    p,
                    q,
                ) <==> goes_to(final(self).store(), d, k, p, q) && old(self).starts(state, p)),
            forall|p: Pkt, q: Pkt|
                p.len() == old(self).n() && q.len() == old(self).n() && #[trigger] final(self).covers(r@, p, q) ==> old(self).starts(state, p),
    {
        let ghost o = *old(self);
        let ghost n = o.n();
        let original_st = self.delta(state);
        let ghost a = *self;
        let ghost d = original_st@;
        let possible_input_packets = self.inputs(state);
        let ghost b = *self;
        let pruning_spp = self.spp.ibwd(possible_input_packets);
        proof {
            self.lemma_grow(&b);
            a.lemma_derives_use(&o, d, state);
        }
        let ghost c = *self;
        let zero_state = self.mk_zero();
        let ghost e = *self;
        let es = original_st.entries();
        proof {
            a.lemma_listed(es@, d);
            assert forall|p: Pkt| #[trigger] a.starts(state, p) == o.starts(state, p) by {
                a.lemma_starts_ext(&o, state, p);
            }
            e.lemma_st_ext(&a, d);
        }
        let mut new_transitions: HashMap<State, SPP> = HashMap::new();
        let mut i: usize = 0;
        while i < es.len()
            invariant
                self.wf(),
                self.extends(&e),
                e.wf(),
                e.extends(&o),
                o.wf(),
                o.has(state),
                n == o.n(),
                e.st_wf(d),
                lists(es@, d),
                i <= es@.len(),
                e.store().has(pruning_spp),
                forall|p: Pkt, q: Pkt|
                    #![trigger e.store().rel(pruning_spp, p, q)]
                    p.len() == n && q.len() == n ==> (e.store().rel(pruning_spp, p, q) <==> o.starts(
                        state,
                        p,
                    )),
                forall|w: Word| is_word(n, w) ==> !(#[trigger] e.accepts(zero_state, w)),
                e.tbl()[zero_state as int] == Node::SPP(e.store().zero),
                forall|j: int, p: Pkt, q: Pkt|
                    #![trigger e.store().rel(es@[j].1, p, q)]
                    0 <= j < i && !new_transitions@.contains_key(es@[j].0) && p.len() == n
                        && q.len() == n && o.starts(state, p) ==> !e.store().rel(es@[j].1, p, q),
                forall|k: State| #[trigger]
                    new_transitions@.contains_key(k) ==> d.contains_key(k) && self.store().has(
                        new_transitions@[k],
                    ) && new_transitions@[k] != self.store().zero,
                forall|k: State, p: Pkt, q: Pkt|
                    #![trigger self.store().rel(new_transitions@[k], p, q)]
                    new_transitions@.contains_key(k) && p.len() == n && q.len() == n ==> (
                    self.store().rel(new_transitions@[k], p, q) <==> e.store().rel(d[k], p, q)
                        && o.starts(state, p)),
                forall|j: int, p: Pkt, v: Word|
                    #![trigger e.store().rel(es@[j].1, p, v[0]), e.accepts(es@[j].0, v)]
                    0 <= j < i && !new_transitions@.contains_key(es@[j].0) && p.len() == n
                        && is_word(n, v) && o.starts(state, p) && e.store().rel(es@[j].1, p, v[0])
                        ==> !e.accepts(es@[j].0, v),
            decreases es.len() - i,
        {
            let (target_state, edge_spp) = es[i];
            let ghost m0 = new_transitions@;
            let ghost f = *self;
            proof {
                assert(es@[i as int] == (target_state, edge_spp));
                assert(d.contains_key(es@[i as int].0));
                assert(e.store().has(d[target_state]));
            }
            let x = self.spp_intersect(edge_spp, pruning_spp);
            proof {
                self.lemma_wf();
                self.store().lemma_nonzero(x);
                assert forall|p: Pkt, q: Pkt|
                    #![trigger self.store().rel(x, p, q)]
                    p.len() == n && q.len() == n implies (self.store().rel(x, p, q)
                    <==> e.store().rel(edge_spp, p, q) && o.starts(state, p)) by {
                    assert(f.store().rel(edge_spp, p, q) == e.store().rel(edge_spp, p, q));
                    assert(f.store().rel(pruning_spp, p, q) == e.store().rel(pruning_spp, p, q));
                }
            }
            let keep = x != self.spp.zero && target_state != zero_state;
            if keep {
                new_transitions.insert(target_state, x);
            }
            proof {
                let m1 = new_transitions@;
                assert(target_state != zero_state);
                assert forall|j: int, p: Pkt, q: Pkt|
                    #![trigger e.store().rel(es@[j].1, p, q)]
                    0 <= j < i + 1 && !m1.contains_key(es@[j].0) && p.len() == n && q.len() == n
                        && o.starts(state, p) implies !e.store().rel(es@[j].1, p, q) by {
                    if j == i {
                        assert(self.store().rel(x, p, q) == e.store().rel(edge_spp, p, q));
                    }
                }
                assert forall|k: State, p: Pkt, q: Pkt|
                    #![trigger self.store().rel(m1[k], p, q)]
                    m1.contains_key(k) && p.len() == n && q.len() == n implies (self.store().rel(
                    m1[k],
                    p,
                    q,
                ) <==> e.store().rel(d[k], p, q) && o.starts(state, p)) by {
                    if !(keep && k == target_state) {
                        assert(m0.contains_key(k) && m1[k] == m0[k]);
                        assert(f.store().rel(m0[k], p, q) == self.store().rel(m0[k], p, q));
                    }
                }
                assert forall|j: int, p: Pkt, v: Word|
                    #![trigger e.store().rel(es@[j].1, p, v[0]), e.accepts(es@[j].0, v)]
                    0 <= j < i + 1 && !m1.contains_key(es@[j].0) && p.len() == n && is_word(n, v)
                        && o.starts(state, p) && e.store().rel(
                        es@[j].1,
                        p,
                        v[0],
                    ) implies !e.accepts(es@[j].0, v) by {
                    if j == i {
                        assert(!keep);
                        if x == self.spp.zero {
                            assert(self.store().rel(x, p, v[0]));
                        }
                    }
                }
            }
            i = i + 1;
        }
        let r = ST::new(new_transitions);
        proof {
            let m = r@;
            assert(self.delta_known(state) == Some(d));
            assert forall|k: State, p: Pkt, q: Pkt|
                p.len() == n && q.len() == n implies (#[trigger] goes_to(self.store(), m, k, p, q)
                <==> goes_to(self.store(), d, k, p, q) && o.starts(state, p)) by {
                if d.contains_key(k) {
                    assert(self.store().rel(d[k], p, q) == e.store().rel(d[k], p, q));
                    let j = choose|j: int| 0 <= j < es@.len() && (#[trigger] es@[j]).0 == k;
                    assert(es@[j].1 == d[k]);
                    if m.contains_key(k) {
                        assert(self.store().rel(m[k], p, q) <==> e.store().rel(d[k], p, q)
                            && o.starts(state, p));
                    } else if o.starts(state, p) {
                        assert(!e.store().rel(es@[j].1, p, q));
                    }
                }
            }
            assert forall|k: State, l: State, p: Pkt, q: Pkt|
                #![trigger self.store().rel(m[k], p, q), self.store().rel(m[l], p, q)]
                m.contains_key(k) && m.contains_key(l) && p.len() == self.store().n() && q.len()
                    == self.store().n() && self.store().rel(m[k], p, q) && self.store().rel(
                    m[l],
                    p,
                    q,
                ) implies k == l by {
                assert(e.store().rel(d[k], p, q) && e.store().rel(d[l], p, q));
            }
            assert forall|p: Pkt, v: Word| p.len() == n && is_word(n, v) implies (
            #[trigger] self.leads(m, p, v) <==> o.accepts(state, cons(p, v))) by {
                assert(a.leads(d, p, v) <==> o.accepts(state, cons(p, v)));
                assert(e.leads(d, p, v) == a.leads(d, p, v));
                if self.leads(m, p, v) {
                    let k = choose|k: State| #[trigger]
                        m.contains_key(k) && self.store().rel(m[k], p, v[0]) && state_lang(
                            self.tbl(),
                            self.store(),
                            k,
                        )(v);
                    assert(e.store().rel(d[k], p, v[0]));
                    assert(self.accepts(k, v));
                    assert(e.accepts(k, v));
                    assert(d.contains_key(k));
                    assert(e.leads(d, p, v));
                }
                if e.leads(d, p, v) {
                    let k = choose|k: State| #[trigger]
                        d.contains_key(k) && e.store().rel(d[k], p, v[0]) && state_lang(
                            e.tbl(),
                            e.store(),
                            k,
                        )(v);
                    assert(e.accepts(k, v));
                    lemma_cons(n, p, v);
                    assert(o.accepts(state, cons(p, v)));
                    assert(o.starts(state, p));
                    let j = choose|j: int| 0 <= j < es@.len() && (#[trigger] es@[j]).0 == k;
                    assert(e.store().rel(es@[j].1, p, v[0]));
                    assert(m.contains_key(k));
                    assert(self.store().rel(m[k], p, v[0]));
                    assert(self.accepts(k, v));
                }
            }
            self.lemma_derives_of(&o, m, state);
            assert forall|p: Pkt, q: Pkt|
                p.len() == n && q.len() == n && #[trigger] self.covers(m, p, q) implies o.starts(
                state,
                p,
            ) by {
                let k = choose|k: State| #[trigger]
                    m.contains_key(k) && self.store().rel(m[k], p, q);
                assert(self.store().rel(m[k], p, q));
            }
        }
        r
    }

    /// A random single step of a state, or `None` if it has none.
    pub fn random_packet_pair(&mut self, state: State) -> (r: Option<(Vec<bool>, Vec<bool>)>)
        requires
            old(self).wf(),
            old(self).has(state),
        ensures
            final(self).wf(),
            final(self).extends(old(self)),
            r is None <==> !exists|p: Pkt, q: Pkt|
                p.len() == old(self).n() && q.len() == old(self).n() && #[trigger] old(self).accepts(state, pair(p, q)),
            r matches Some(pq) ==> pq.0@.len() == old(self).n() && pq.1@.len() == old(self).n()
                && old(self).accepts(state, pair(pq.0@, pq.1@)),
    {
        let ghost o = *old(self);
        let epsilon = self.epsilon(state);
        proof {
            self.lemma_single_use(&o, epsilon, state);
            self.lemma_wf();
            self.store().lemma_nonzero(epsilon);
            if exists|p: Pkt, q: Pkt|
                p.len() == o.n() && q.len() == o.n() && #[trigger] o.accepts(state, pair(p, q)) {
                let (p, q) = choose|p: Pkt, q: Pkt|
                    p.len() == o.n() && q.len() == o.n() && #[trigger] o.accepts(
                        state,
                        pair(p, q),
                    );
                assert(self.store().rel(epsilon, p, q));
            }
        }
        let r = self.spp.random_packet_pair(epsilon);
        proof {
            if r is Some {
                let (p, q) = r.unwrap();
                assert(self.store().rel(epsilon, p@, q@));
            } else {
                assert forall|p: Pkt, q: Pkt|
                    p.len() == o.n() && q.len() == o.n() implies !(#[trigger] o.accepts(
                    state,
                    pair(p, q),
                )) by {
                    assert(!self.store().rel(epsilon, p, q));
                }
            }
        }
        r
    }

    /// A step by `spp` from `packet` to a packet from which state `k` has a
    /// word, or `None` if there is none.  The bits pick among such packets.
    fn step_by(&mut self, spp: SPP, k: State, packet: &Vec<bool>, bits: &Vec<bool>) -> (r: Option<
        Vec<bool>,
    >)
        requires
            old(self).wf(),
            old(self).has(k),
            old(self).store().has(spp),
            packet@.len() == old(self).n(),
            bits@.len() == old(self).n(),
        ensures
            final(self).wf(),
            final(self).extends(old(self)),
            r is None <==> !exists|q: Pkt|
                q.len() == old(self).n() && #[trigger] old(self).store().rel(spp, packet@, q)
                    && old(self).starts(k, q),
            r matches Some(q) ==> q@.len() == old(self).n() && old(self).store().rel(
                spp,
                packet@,
                q@,
            ) && old(self).starts(k, q@),
    {
        let ghost o = *old(self);
        let ghost n = o.n();
        let live = self.inputs(k);
        let ghost a = *self;
        let outputs = self.spp.outputs_of(spp, packet.as_slice());
        proof {
            self.lemma_grow(&a);
            self.spp.lemma_wf();
        }
        let ghost b = *self;
        let both = self.spp.sp.intersect(live, outputs);
        proof {
            self.spp.lemma_sets(&b.spp);
            self.lemma_grow(&b);
            self.spp.lemma_wf();
            self.spp.sp.lemma_nonzero(both);
            assert forall|q: Pkt| q.len() == n implies (#[trigger] self.store().sp.mem(both, q)
                <==> o.store().rel(spp, packet@, q) && o.starts(k, q)) by {
                assert(b.store().sp.mem(live, q) == a.store().sp.mem(live, q));
                assert(b.store().sp.mem(outputs, q) == a.store().rel(spp, packet@, q));
                assert(a.store().rel(spp, packet@, q) == o.store().rel(spp, packet@, q));
            }
        }
        if both == self.spp.sp.zero {
            proof {
                assert forall|q: Pkt| q.len() == n implies !(#[trigger] o.store().rel(
                    spp,
                    packet@,
                    q,
                ) && o.starts(k, q)) by {
                    assert(!self.store().sp.mem(both, q));
                }
            }
            None
        } else {
            let q = self.spp.sp.packet_by(both, bits);
            proof {
                assert(self.store().sp.mem(both, q@));
            }
            Some(q)
        }
    }

    /// The last packet of a word of two packets from `packet`, or `None` if
    /// there is none.  The bits pick among such packets.
    fn output_by(&mut self, state: State, packet: &Vec<bool>, bits: &Vec<bool>) -> (r: Option<
        Vec<bool>,
    >)
        requires
            old(self).wf(),
            old(self).has(state),
            packet@.len() == old(self).n(),
            bits@.len() == old(self).n(),
        ensures
            final(self).wf(),
            final(self).extends(old(self)),
            r is None <==> !exists|q: Pkt|
                q.len() == old(self).n() && #[trigger] old(self).accepts(state, pair(packet@, q)),
            r matches Some(q) ==> q@.len() == old(self).n() && old(self).accepts(
                state,
                pair(packet@, q@),
            ),
    {
        let ghost o = *old(self);
        let ghost n = o.n();
        let epsilon = self.epsilon(state);
        let ghost a = *self;
        let outputs = self.spp.outputs_of(epsilon, packet.as_slice());
        proof {
            a.lemma_single_use(&o, epsilon, state);
            self.lemma_grow(&a);
            self.spp.lemma_wf();
            self.spp.sp.lemma_nonzero(outputs);
            assert forall|q: Pkt| q.len() == n implies (#[trigger] self.store().sp.mem(outputs, q)
                <==> o.accepts(state, pair(packet@, q))) by {
                assert(a.store().rel(epsilon, packet@, q) == o.accepts(state, pair(packet@, q)));
            }
        }
        if outputs == self.spp.sp.zero {
            proof {
                assert forall|q: Pkt| q.len() == n implies !(#[trigger] o.accepts(
                    state,
                    pair(packet@, q),
                )) by {
                    assert(!self.store().sp.mem(outputs, q));
                }
            }
            None
        } else {
            let q = self.spp.sp.packet_by(outputs, bits);
            proof {
                assert(self.store().sp.mem(outputs, q@));
            }
            Some(q)
        }
    }

    /// `r` is a way to go on from `packet` in state `s`, and leads to a word.
    pub open spec fn goes(&self, s: State, packet: Pkt, r: Onward) -> bool {
        match r {
            Onward::Output(q) => q@.len() == self.n() && self.accepts(s, pair(packet, q@)),
            Onward::Step(k, q) => {
                &&& self.has(k)
                &&& q@.len() == self.n()
                &&& self.starts(k, q@)
                &&& forall|v: Word| #[trigger]
                    self.accepts(k, v) && is_word(self.n(), v) && v[0] == q@ ==> self.accepts(
                        s,
                        cons(packet, v),
                    )
            },
        }
    }

    /// A way to go on from `packet` in a state whose transitions are given.
    /// The transition with index `choice` is tried first, or the output if there
    /// is none; the bits pick among the packets.
    pub fn onward(
        &mut self,
        state: State,
        es: &Vec<(State, SPP)>,
        packet: &Vec<bool>,
        choice: usize,
        bits: &Vec<bool>,
    ) -> (r: Onward)
        requires
            old(self).wf(),
            old(self).has(state),
            packet@.len() == old(self).n(),
            bits@.len() == old(self).n(),
            old(self).starts(state, packet@),
            exists|m: Map<State, SPP>| #[trigger] old(self).derives(m, state) && lists(es@, m),
        ensures
            final(self).wf(),
            final(self).extends(old(self)),
            final(self).goes(state, packet@, r),
    {
        let ghost o = *old(self);
        let ghost n = o.n();
        let ghost m = choose|m: Map<State, SPP>| #[trigger] o.derives(m, state) && lists(es@, m);
        let ghost p = packet@;
        proof {
            o.lemma_derives_use(&o, m, state);
            o.lemma_listed(es@, m);
        }
        if choice < es.len() {
            let (k, spp) = es[choice];
            proof {
                assert(es@[choice as int] == (k, spp));
            }
            match self.step_by(spp, k, packet, bits) {
                Some(q) => {
                    let r = Onward::Step(k, q);
                    proof {
                        self.lemma_goes_step(&o, es@, m, state, choice as int, p, q);
                    }
                    return r;
                },
                None => {},
            }
        } else {
            match self.output_by(state, packet, bits) {
                Some(q) => {
                    proof {
                        assert(is_word(n, pair(p, q@)));
                        assert(self.accepts(state, pair(p, q@)));
                    }
                    return Onward::Output(q);
                },
                None => {},
            }
        }
        let mut i: usize = 0;
        while i < es.len()
            invariant
                o == *old(self),
                self.wf(),
                self.extends(&o),
                o.wf(),
                o.has(state),
                n == o.n(),
                p == packet@,
                packet@.len() == n,
                bits@.len() == n,
                o.list_ok(es@),
                o.derives(m, state),
                lists(es@, m),
                i <= es@.len(),
                forall|j: int, q: Pkt|
                    #![trigger o.store().rel(es@[j].1, p, q)]
                    0 <= j < i && q.len() == n && o.store().rel(es@[j].1, p, q) ==> !o.starts(
                        es@[j].0,
                        q,
                    ),
            decreases es.len() - i,
        {
            let (k, spp) = es[i];
            let ghost a = *self;
            proof {
                assert(es@[i as int] == (k, spp));
            }
            match self.step_by(spp, k, packet, bits) {
                Some(q) => {
                    let r = Onward::Step(k, q);
                    proof {
                        a.lemma_starts_ext(&o, k, q@);
                        assert(o.store().rel(spp, p, q@));
                        self.lemma_goes_step(&o, es@, m, state, i as int, p, q);
                    }
                    return r;
                },
                None => {
                    proof {
                        assert forall|j: int, q: Pkt|
                            #![trigger o.store().rel(es@[j].1, p, q)]
                            0 <= j < i + 1 && q.len() == n && o.store().rel(
                                es@[j].1,
                                p,
                                q,
                            ) implies !o.starts(es@[j].0, q) by {
                            if j == i {
                                a.lemma_starts_ext(&o, k, q);
                                assert(a.store().rel(spp, p, q));
                            }
                        }
                    }
                },
            }
            i = i + 1;
        }
        let ghost a = *self;
        proof {
            // the word from the packet has no step left, so it is an output
            let w = choose|w: Word| is_word(n, w) && #[trigger] o.accepts(state, w) && w[0] == p;
            if w.len() == 2 {
                assert(w =~= pair(p, w[1]));
                assert(w[1].len() == n);
                assert(a.accepts(state, pair(p, w[1])));
            } else {
                lemma_uncons(n, w);
                let v = w.skip(1);
                assert(o.leads(m, p, v));
                assert(o.list_leads(es@, p, v));
                let j = choose|j: int|
                    0 <= j < es@.len() && o.store().rel((#[trigger] es@[j]).1, p, v[0])
                        && o.accepts(es@[j].0, v);
                assert(o.starts(es@[j].0, v[0]));
                assert(o.store().rel(es@[j].1, p, v[0]));
                assert(v[0].len() == n);
                assert(false);
            }
        }
        match self.output_by(state, packet, bits) {
            Some(q) => {
                proof {
                    assert(is_word(n, pair(p, q@)));
                    assert(self.accepts(state, pair(p, q@)));
                }
                Onward::Output(q)
            },
            None => {
                proof {
                    assert(false);
                }
                Onward::Output(Vec::new())
            },
        }
    }

    proof fn lemma_goes_step(
        &self,
        o: &Aut,
        es: Seq<(State, SPP)>,
        m: Map<State, SPP>,
        state: State,
        j: int,
        p: Pkt,
        q: Vec<bool>,
    )
        requires
            self.extends(o),
            o.has(state),
            o.derives(m, state),
            lists(es, m),
            0 <= j < es.len(),
            p.len() == o.n(),
            q@.len() == o.n(),
            o.store().rel(es[j].1, p, q@),
            o.starts(es[j].0, q@),
        ensures
            self.goes(state, p, Onward::Step(es[j].0, q)),
    {
        let k = es[j].0;
        o.lemma_derives_use(o, m, state);
        o.lemma_listed(es, m);
        self.lemma_starts_ext(o, k, q@);
        assert forall|v: Word| #[trigger]
            self.accepts(k, v) && is_word(self.n(), v) && v[0] == q@ implies self.accepts(
            state,
            cons(p, v),
        ) by {
            assert(o.accepts(k, v));
            assert(o.list_leads(es, p, v));
            assert(o.leads(m, p, v));
            lemma_cons(o.n(), p, v);
            assert(o.accepts(state, cons(p, v)));
        }
    }

    /// The list is the start of a word of state `s`.
    pub open spec fn begins(&self, s: State, t: Seq<Pkt>) -> bool {
        exists|w: Word|
            is_word(self.n(), w) && #[trigger] self.accepts(s, w) && t.len() <= w.len() && w.take(
                t.len() as int,
            ) == t
    }

    /// A random word of a state, as its packets but the last, and the last; or
    /// only its first `max_length` packets, if there are more before the last;
    /// or `None` if the state is empty.
    pub fn random_trace(&mut self, state: State, max_length: usize) -> (r: Option<
        (Vec<Vec<bool>>, Option<Vec<bool>>),
    >)
        requires
            old(self).wf(),
            old(self).has(state),
        ensures
            final(self).wf(),
            final(self).extends(old(self)),
            r is None <==> !old(self).inhabited(state),
            r matches Some((trace, Some(output))) ==> trace@.len() <= max_length && old(self).accepts(state, packets(trace@).push(output@)) && is_word(
                old(self).n(),
                packets(trace@).push(output@),
            ),
            r matches Some((trace, None)) ==> trace@.len() == max_length && old(self).begins(
                state,
                packets(trace@),
            ),
    {
        let ghost o = *old(self);
        let ghost n = o.n();
        let live = self.inputs(state);
        let ghost a = *self;
        proof {
            self.lemma_wf();
            self.spp.lemma_wf();
            self.spp.sp.lemma_nonzero(live);
        }
        if live == self.spp.sp.zero {
            proof {
                if o.inhabited(state) {
                    let w = choose|w: Word| is_word(n, w) && #[trigger] o.accepts(state, w);
                    assert(o.starts(state, w[0]));
                    assert(w[0].len() == n);
                    assert(a.store().sp.mem(live, w[0]));
                }
            }
            return None;
        }
        let num_vars = self.spp.num_vars;
        let first_bits = random_bits(num_vars);
        let mut current_packet = self.spp.sp.packet_by(live, &first_bits);
        let mut current_state = state;
        let mut trace: Vec<Vec<bool>> = Vec::new();
        proof {
            assert(a.store().sp.mem(live, current_packet@));
            assert(o.starts(state, current_packet@));
            a.lemma_starts_ext(&o, state, current_packet@);
            assert(o.inhabited(state)) by {
                let w = choose|w: Word|
                    is_word(n, w) && #[trigger] o.accepts(state, w) && w[0] == current_packet@;
                assert(o.accepts(state, w));
            }
            assert forall|v: Word| #[trigger]
                self.accepts(state, v) && is_word(n, v) && v[0] == current_packet@ implies o.accepts(
                state,
                packets(trace@) + v,
            ) by {
                assert(packets(trace@) + v =~= v);
                assert(o.accepts(state, v));
            }
        }
        while trace.len() < max_length
            invariant
                o == *old(self),
                self.wf(),
                self.extends(&o),
                o.wf(),
                o.has(state),
                n == o.n(),
                num_vars == n,
                o.inhabited(state),
                trace@.len() <= max_length,
                forall|i: int| 0 <= i < trace@.len() ==> (#[trigger] trace@[i])@.len() == n,
                self.has(current_state),
                current_packet@.len() == n,
                self.starts(current_state, current_packet@),
                forall|v: Word| #[trigger]
                    self.accepts(current_state, v) && is_word(n, v) && v[0] == current_packet@
                        ==> o.accepts(state, packets(trace@) + v),
            decreases max_length - trace.len(),
        {
            let ghost b = *self;
            let ghost cs = current_state;
            let ghost p = current_packet@;
            let ghost t0 = trace@;
            let deltas = self.delta_pruned(current_state);
            let es = deltas.entries();
            let bound: usize = if es.len() < usize::MAX {
                es.len() + 1
            } else {
                es.len()
            };
            let choice = random_below(bound);
            let bits = random_bits(num_vars);
            let ghost c = *self;
            proof {
                c.lemma_starts_ext(&b, cs, p);
                assert(c.derives(deltas@, cs) && lists(es@, deltas@));
            }
            let next = self.onward(current_state, &es, &current_packet, choice, &bits);
            trace.push(current_packet);
            proof {
                assert(packets(trace@) =~= packets(t0).push(p));
                assert forall|v: Word| #[trigger]
                    self.accepts(cs, v) && is_word(n, v) && v[0] == p implies o.accepts(
                    state,
                    packets(t0) + v,
                ) by {
                    assert(b.accepts(cs, v));
                }
            }
            match next {
                Onward::Output(output) => {
                    proof {
                        let w = pair(p, output@);
                        assert(is_word(n, w) && w[0] == p);
                        assert(self.accepts(cs, w));
                        assert(packets(t0) + w =~= packets(trace@).push(output@));
                        let u = packets(trace@).push(output@);
                        assert forall|i: int| 0 <= i < u.len() implies (#[trigger] u[i]).len()
                            == n by {
                            if i < trace@.len() {
                                assert(u[i] == trace@[i]@);
                            }
                        }
                    }
                    return Some((trace, Some(output)));
                },
                Onward::Step(k, q) => {
                    proof {
                        assert forall|v: Word| #[trigger]
                            self.accepts(k, v) && is_word(n, v) && v[0] == q@ implies o.accepts(
                            state,
                            packets(trace@) + v,
                        ) by {
                            lemma_cons(n, p, v);
                            assert(self.accepts(cs, cons(p, v)));
                            assert(packets(t0) + cons(p, v) =~= packets(trace@) + v);
                        }
                    }
                    current_state = k;
                    current_packet = q;
                },
            }
        }
        proof {
            let v = choose|v: Word|
                is_word(n, v) && #[trigger] self.accepts(current_state, v) && v[0]
                    == current_packet@;
            let w = packets(trace@) + v;
            assert(o.accepts(state, w));
            assert forall|i: int| 0 <= i < w.len() implies (#[trigger] w[i]).len() == n by {
                if i < trace@.len() {
                    assert(w[i] == trace@[i]@);
                } else {
                    assert(w[i] == v[i - trace@.len()]);
                }
            }
            assert(w.take(trace@.len() as int) =~= packets(trace@));
        }
        Some((trace, None))
    }
}
// ---- text and contents --------------------------------------------------------------------

/// The texts, with `sep` between them.
pub open spec fn list_text(ts: Seq<Seq<char>>, sep: Seq<char>) -> Seq<char>
    decreases ts.len(),
{
    if ts.len() == 0 {
        ""@
    } else if ts.len() == 1 {
        ts[0]
    } else {
        list_text(ts.drop_last(), sep) + sep + ts.last()
    }
}

/// The text of a state of a table.
pub open spec fn state_text(tbl: Seq<Node>, s: State) -> Seq<char>
    decreases s, 1nat,
{
    if s >= tbl.len() || !below(tbl[s as int], s as int) {
        ""@
    } else {
        match tbl[s as int] {
            Node::SPP(x) => "SPP("@ + decimal(x.0 as nat) + ")"@,
            Node::Union(v) => "("@ + list_text(part_texts(tbl, s, v), " + "@) + ")"@,
            Node::Intersect(v) => "("@ + list_text(part_texts(tbl, s, v), " & "@) + ")"@,
            Node::Xor(a, b) => "("@ + state_text(tbl, a) + " ^ "@ + state_text(tbl, b) + ")"@,
            Node::Difference(a, b) => "("@ + state_text(tbl, a) + " - "@ + state_text(tbl, b)
                + ")"@,
            Node::Complement(a) => "!"@ + state_text(tbl, a),
            Node::Sequence(a, b) => "("@ + state_text(tbl, a) + " ; "@ + state_text(tbl, b)
                + ")"@,
            Node::Star(a) => "("@ + state_text(tbl, a) + ")*"@,
            Node::Dup => "dup"@,
            Node::LtlNext(a) => "X("@ + state_text(tbl, a) + ")"@,
            Node::LtlUntil(a, b) => "("@ + state_text(tbl, a) + " U "@ + state_text(tbl, b)
                + ")"@,
            Node::Top => "⊤"@,
        }
    }
}

/// The texts of a list of states below `s`.
pub open spec fn part_texts(tbl: Seq<Node>, s: State, v: Seq<State>) -> Seq<Seq<char>>
    decreases s, 0nat,
{
    Seq::new(
        v.len(),
        |i: int|
            if 0 <= i < v.len() && v[i] < s {
                state_text(tbl, v[i])
            } else {
                ""@
            },
    )
}

/// Relation `x` occurs in the expression of a state of a table.
pub open spec fn occurs(tbl: Seq<Node>, s: State, x: usize) -> bool
    decreases s,
{
    if s >= tbl.len() || !below(tbl[s as int], s as int) {
        false
    } else {
        match tbl[s as int] {
            Node::SPP(y) => y.0 == x,
            Node::Union(v) => exists|i: int|
                0 <= i < v.len() && #[trigger] v[i] < s && occurs(tbl, v[i], x),
            Node::Intersect(v) => exists|i: int|
                0 <= i < v.len() && #[trigger] v[i] < s && occurs(tbl, v[i], x),
            Node::Xor(a, b) => occurs(tbl, a, x) || occurs(tbl, b, x),
            Node::Difference(a, b) => occurs(tbl, a, x) || occurs(tbl, b, x),
            Node::Sequence(a, b) => occurs(tbl, a, x) || occurs(tbl, b, x),
            Node::LtlUntil(a, b) => occurs(tbl, a, x) || occurs(tbl, b, x),
            Node::Complement(a) => occurs(tbl, a, x),
            Node::Star(a) => occurs(tbl, a, x),
            Node::LtlNext(a) => occurs(tbl, a, x),
            Node::Dup => false,
            Node::Top => false,
        }
    }
}

impl Aut {
    /// The texts of the states, with `sep` between them.
    fn states_text(&self, states: &Vec<State>, sep: &str, Ghost(s): Ghost<State>) -> (r: String)
        requires
            self.wf(),
            self.has(s),
            forall|i: int| 0 <= i < states@.len() ==> #[trigger] states@[i] < s,
        ensures
            r@ == list_text(part_texts(self.tbl(), s, states@), sep@),
        decreases s, 0nat,
    {
        let ghost ts = part_texts(self.tbl(), s, states@);
        let mut r = String::from_str("");
        proof {
            reveal_with_fuel(part_texts, 2);
        }
        let mut i: usize = 0;
        while i < states.len()
            invariant
                self.wf(),
                self.has(s),
                forall|j: int| 0 <= j < states@.len() ==> #[trigger] states@[j] < s,
                i <= states@.len(),
                ts.len() == states@.len(),
                forall|j: int|
                    0 <= j < ts.len() ==> #[trigger] ts[j] == state_text(self.tbl(), states@[j]),
                r@ == list_text(ts.take(i as int), sep@),
            decreases states.len() - i,
        {
            let one = self.state_to_string(states[i]);
            proof {
                assert(ts.take(i + 1).drop_last() =~= ts.take(i as int));
                assert(ts.take(i + 1).last() == ts[i as int]);
            }
            if i > 0 {
                r.append(sep);
                r.append(one.as_str());
            } else {
                r = one;
            }
            i = i + 1;
        }
        proof {
            assert(ts.take(i as int) =~= ts);
        }
        r
    }

    /// The text of the expression of a state.
    pub fn state_to_string(&self, state: State) -> (r: String)
        requires
            self.wf(),
            self.has(state),
        ensures
            r@ == state_text(self.tbl(), state),
        decreases state, 1nat,
    {
        proof {
            self.lemma_node(state);
        }
        match self.get_expr(state) {
            AExpr::SPP(spp) => join3("SPP(", number(spp.0).as_str(), ")"),
            AExpr::Union(states) => {
                proof {
                    assert(below(Node::Union(states@), state as int));
                }
                join3("(", self.states_text(states, " + ", Ghost(state)).as_str(), ")")
            },
            AExpr::Intersect(states) => {
                proof {
                    assert(below(Node::Intersect(states@), state as int));
                }
                join3("(", self.states_text(states, " & ", Ghost(state)).as_str(), ")")
            },
            AExpr::Xor(e1, e2) => join5(
                "(",
                self.state_to_string(*e1).as_str(),
                " ^ ",
                self.state_to_string(*e2).as_str(),
                ")",
            ),
            AExpr::Difference(e1, e2) => join5(
                "(",
                self.state_to_string(*e1).as_str(),
                " - ",
                self.state_to_string(*e2).as_str(),
                ")",
            ),
            AExpr::Complement(e) => join2("!", self.state_to_string(*e).as_str()),
            AExpr::Sequence(e1, e2) => join5(
                "(",
                self.state_to_string(*e1).as_str(),
                " ; ",
                self.state_to_string(*e2).as_str(),
                ")",
            ),
            AExpr::Star(e) => join3("(", self.state_to_string(*e).as_str(), ")*"),
            AExpr::Dup => String::from_str("dup"),
            AExpr::LtlNext(e) => join3("X(", self.state_to_string(*e).as_str(), ")"),
            AExpr::LtlUntil(e1, e2) => join5(
                "(",
                self.state_to_string(*e1).as_str(),
                " U ",
                self.state_to_string(*e2).as_str(),
                ")",
            ),
            AExpr::Top => String::from_str("⊤"),
        }
    }

    /// Adds the indices of the relations that occur in the expression of a
    /// state.
    pub fn collect_spps(&self, state: State, spps: &mut HashSet<usize>)
        requires
            self.wf(),
            self.has(state),
        ensures
            forall|x: usize| #[trigger]
                final(spps)@.contains(x) <==> old(spps)@.contains(x) || occurs(
                    self.tbl(),
                    state,
                    x,
                ),
        decreases state,
    {
        proof {
            self.lemma_node(state);
        }
        let ghost before = spps@;
        match self.get_expr(state) {
            AExpr::SPP(spp) => {
                spps.insert(spp.0);
            },
            AExpr::Union(states) | AExpr::Intersect(states) => {
                let ghost v = states@;
                proof {
                    assert(below(Node::Union(v), state as int) || below(
                        Node::Intersect(v),
                        state as int,
                    ));
                }
                let mut i: usize = 0;
                while i < states.len()
                    invariant
                        self.wf(),
                        self.has(state),
                        v == states@,
                        i <= v.len(),
                        forall|j: int| 0 <= j < v.len() ==> #[trigger] v[j] < state,
                        forall|x: usize| #[trigger]
                            spps@.contains(x) <==> before.contains(x) || exists|j: int|
                                0 <= j < i && #[trigger] v[j] < state && occurs(
                                    self.tbl(),
                                    v[j],
                                    x,
                                ),
                    decreases states.len() - i,
                {
                    let ghost mid = spps@;
                    self.collect_spps(states[i], spps);
                    proof {
                        assert forall|x: usize| #[trigger] spps@.contains(x) <==> before.contains(x)
                            || exists|j: int|
                            0 <= j < i + 1 && #[trigger] v[j] < state && occurs(
                                self.tbl(),
                                v[j],
                                x,
                            ) by {
                            if occurs(self.tbl(), v[i as int], x) {
                                assert(v[i as int] < state);
                            }
                            if mid.contains(x) && !before.contains(x) {
                                let j = choose|j: int|
                                    0 <= j < i && #[trigger] v[j] < state && occurs(
                                        self.tbl(),
                                        v[j],
                                        x,
                                    );
                                assert(v[j] < state);
                            }
                        }
                    }
                    i = i + 1;
                }
            },
            AExpr::Xor(e1, e2)
            | AExpr::Difference(e1, e2)
            | AExpr::Sequence(e1, e2)
            | AExpr::LtlUntil(e1, e2) => {
                self.collect_spps(*e1, spps);
                self.collect_spps(*e2, spps);
            },
            AExpr::Complement(e) | AExpr::Star(e) | AExpr::LtlNext(e) => {
                self.collect_spps(*e, spps);
            },
            AExpr::Dup | AExpr::Top => {},
        }
    }
}

/// Two single steps are one.
proof fn lemma_cat_once(
    n: nat,
    f: spec_fn(Pkt, Pkt) -> bool,
    g: spec_fn(Pkt, Pkt) -> bool,
    w: Word,
)
    requires
        is_word(n, w),
    ensures
        cat(n, once(f), once(g))(w) <==> w.len() == 2 && exists|m: Pkt|
            m.len() == n && #[trigger] f(w[0], m) && g(m, w[1]),
{
    let (a, b) = (once(f), once(g));
    if w.len() == 2 {
        lemma_cat_step(n, a, b, w[0], w[1]);
        assert(pair(w[0], w[1]) =~= w);
        if cat(n, a, b)(w) {
            let m = choose|m: Pkt|
                m.len() == n && #[trigger] a(pair(w[0], m)) && b(pair(m, w[1]));
            assert(f(w[0], m));
        }
        if exists|m: Pkt| m.len() == n && #[trigger] f(w[0], m) && g(m, w[1]) {
            let m = choose|m: Pkt| m.len() == n && #[trigger] f(w[0], m) && g(m, w[1]);
            assert(a(pair(w[0], m)));
        }
    } else if cat(n, a, b)(w) {
        let (i, m) = choose|i: int, m: Pkt| #[trigger] cut(n, a, b, w, i, m);
        lemma_parts(n, w, i, m);
    }
}

/// Single steps any number of times are a single step.
pub(crate) proof fn lemma_star_once(n: nat, f: spec_fn(Pkt, Pkt) -> bool, w: Word)
    requires
        is_word(n, w),
    ensures
        star(n, once(f))(w) <==> w.len() == 2 && star_of(f, n, w[0], w[1]),
{
    let a = once(f);
    if w.len() == 2 {
        assert(pair(w[0], w[1]) =~= w);
        lemma_star_step(n, a, w[0], w[1]);
        assert forall|x: Pkt, y: Pkt| #[trigger] steps_of(a)(x, y) == f(x, y) by {}
        crate::spp::lemma_star_same(steps_of(a), f, n, w[0], w[1]);
    } else if star(n, a)(w) {
        let k = choose|k: nat| #[trigger] pow(n, a, k)(w);
        lemma_pow_once(n, f, k, w);
    }
}

proof fn lemma_pow_once(n: nat, f: spec_fn(Pkt, Pkt) -> bool, k: nat, w: Word)
    requires
        is_word(n, w),
        pow(n, once(f), k)(w),
    ensures
        w.len() == 2,
    decreases k,
{
    if k > 0 {
        let b = pow(n, once(f), (k - 1) as nat);
        let (i, m) = choose|i: int, m: Pkt| #[trigger] cut(n, once(f), b, w, i, m);
        lemma_parts(n, w, i, m);
        lemma_pow_once(n, f, (k - 1) as nat, back(w, i, m));
    }
}

} // verus!
