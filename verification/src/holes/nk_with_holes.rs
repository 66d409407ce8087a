//! NetKAT expressions with holes, and their automaton.
//!
//! A hole stands for an unknown sub-program.  Each edge of the automaton is
//! labelled either by a relation or by a hole: a step that is made of several
//! parts goes through invisible states in between.
use vstd::prelude::*;
use crate::aut::{copy_states, lemma_star_once, same_states, sorted_states};
use crate::holes::heads::{
    branches, edge_list, edge_to, headed_of, heads_of, lemma_apart_ext, lemma_apart_more,
    lemma_chain_list_ext, lemma_edge_list_ext, lemma_heads_ext, lemma_parted_once, parted,
    settled, taken_apart,
};
use crate::holes::normal::{
    chain_list, chain_of, flat_sum, in_table, indexes, joins, is_part, item_of, items_of, law_index_stays,
    lemma_append_const, lemma_append_join, lemma_append_new, lemma_append_part,
    lemma_chain_list_tidy, lemma_chain_more, lemma_chain_result, lemma_chain_two, lemma_flat_add,
    lemma_flat_ext, lemma_flat_none, lemma_gather, lemma_gathered, lemma_items_ext,
    lemma_items_join, lemma_items_one, lemma_list_ext, lemma_normal_ext, lemma_one_zero,
    lemma_relation_ext, lemma_relation_once, lemma_sum_result, lemma_sum_two, lemma_tidy_sum_ext,
    lemma_value_ext, lemma_void_rest, normal, normal_table, plus, push_item, push_items, relation,
    relations_known, repeats, sum_list, sums, sum_of, tidy_list, times, Item,
};
use crate::holes::weigh::{
    erase, lemma_erase_cat, lemma_erase_star, lemma_list_add, lemma_list_one, lemma_list_push,
    lemma_list_up, lemma_list_within, lemma_more_up, lemma_more_within, lemma_star_up,
    lemma_star_within, lemma_tight_both, lemma_tight_cat, lemma_tight_trans, lemma_weighed_assoc,
    lemma_weighed_unit, tight, upward, weighed_cat, weighed_cut, weighed_list, weighed_more,
    weighed_pow, weighed_star, weighed_unit, within, Weighed,
};
use crate::lang::{
    back, cat, cut, front, is_word, lemma_cat_same, lemma_parts, lemma_star_same_lang,
    lemma_star_star, once, same, star, unit, Lang, Word,
};
use crate::sp::Pkt;
use crate::spp::{lemma_star_same, star_of, SPPstore, SPP};

pub use crate::expr::Hole;

verus! {

/// An expression with holes.  Tests and assignments are relations already.
#[derive(Debug, PartialEq, Eq)]
pub enum Expr {
    Spp(SPP),
    Hole(Hole),
    Dup,
    Union(Box<Expr>, Box<Expr>),
    Sequence(Box<Expr>, Box<Expr>),
    Star(Box<Expr>),
}

impl Expr {
    pub fn spp(s: SPP) -> (e: Expr)
        ensures
            e == Expr::Spp(s),
    {
        Expr::Spp(s)
    }

    pub fn hole(h: Hole) -> (e: Expr)
        ensures
            e == Expr::Hole(h),
    {
        Expr::Hole(h)
    }

    pub fn dup() -> (e: Expr)
        ensures
            e == Expr::Dup,
    {
        Expr::Dup
    }

    pub fn union(e1: Expr, e2: Expr) -> (e: Expr)
        ensures
            e == Expr::Union(Box::new(e1), Box::new(e2)),
    {
        Expr::Union(Box::new(e1), Box::new(e2))
    }

    pub fn sequence(e1: Expr, e2: Expr) -> (e: Expr)
        ensures
            e == Expr::Sequence(Box::new(e1), Box::new(e2)),
    {
        Expr::Sequence(Box::new(e1), Box::new(e2))
    }

    pub fn star(e1: Expr) -> (e: Expr)
        ensures
            e == Expr::Star(Box::new(e1)),
    {
        Expr::Star(Box::new(e1))
    }
}

/// What each hole is filled with.
pub type Fill = spec_fn(Hole) -> Lang;

/// The words that record one packet and leave it as it is.
pub open spec fn dup_lang() -> Lang {
    |w: Word| w.len() == 3 && w[0] == w[1] && w[1] == w[2]
}

/// The language of an expression, with its holes filled.
pub open spec fn filled(e: Expr, st: SPPstore, hs: Fill) -> Lang
    decreases e,
{
    match e {
        Expr::Spp(s) => once(st.fun(s)),
        Expr::Hole(h) => hs(h),
        Expr::Dup => dup_lang(),
        Expr::Union(a, b) => |w: Word| filled(*a, st, hs)(w) || filled(*b, st, hs)(w),
        Expr::Sequence(a, b) => cat(st.n(), filled(*a, st, hs), filled(*b, st, hs)),
        Expr::Star(a) => star(st.n(), filled(*a, st, hs)),
    }
}

/// The relations of the expression are relations of the store.
pub open spec fn drawn_from(e: Expr, st: &SPPstore) -> bool
    decreases e,
{
    match e {
        Expr::Spp(s) => st.has(s),
        Expr::Hole(h) => true,
        Expr::Dup => true,
        Expr::Union(a, b) => drawn_from(*a, st) && drawn_from(*b, st),
        Expr::Sequence(a, b) => drawn_from(*a, st) && drawn_from(*b, st),
        Expr::Star(a) => drawn_from(*a, st),
    }
}

/// The holes of the expression.
pub open spec fn mentions(e: Expr, h: Hole) -> bool
    decreases e,
{
    match e {
        Expr::Spp(s) => false,
        Expr::Hole(g) => g == h,
        Expr::Dup => false,
        Expr::Union(a, b) => mentions(*a, h) || mentions(*b, h),
        Expr::Sequence(a, b) => mentions(*a, h) || mentions(*b, h),
        Expr::Star(a) => mentions(*a, h),
    }
}

/// The label of an edge: a relation, or a hole for one.
#[derive(Clone, Copy, Debug, PartialEq, Eq, Hash, Structural)]
pub enum EdgeLabel {
    Concrete(SPP),
    Abstract(Hole),
}

/// The words of a label.
pub open spec fn label_lang(st: SPPstore, hs: Fill, l: EdgeLabel) -> Lang {
    match l {
        EdgeLabel::Concrete(s) => once(st.fun(s)),
        EdgeLabel::Abstract(h) => hs(h),
    }
}

/// The index of an expression in the table of an [`AutWithHoles`].
pub type AExprIdx = usize;

/// An expression whose parts are indices.
#[derive(Debug)]
pub enum AExpr {
    Spp(SPP),
    Hole(Hole),
    Dup,
    Union(Vec<AExprIdx>),
    Sequence(Vec<AExprIdx>),
    Star(AExprIdx),
}

/// An expression of the table as a mathematical value.
pub enum Node {
    Spp(SPP),
    Hole(Hole),
    Dup,
    Union(Seq<AExprIdx>),
    Sequence(Seq<AExprIdx>),
    Star(AExprIdx),
}

impl View for AExpr {
    type V = Node;

    open spec fn view(&self) -> Node {
        match *self {
            AExpr::Spp(s) => Node::Spp(s),
            AExpr::Hole(h) => Node::Hole(h),
            AExpr::Dup => Node::Dup,
            AExpr::Union(v) => Node::Union(v@),
            AExpr::Sequence(v) => Node::Sequence(v@),
            AExpr::Star(a) => Node::Star(a),
        }
    }
}

impl AExpr {
    fn is(&self, o: &AExpr) -> (r: bool)
        ensures
            r == (self@ == o@),
    {
        match (self, o) {
            (AExpr::Spp(a), AExpr::Spp(b)) => *a == *b,
            (AExpr::Hole(a), AExpr::Hole(b)) => *a == *b,
            (AExpr::Dup, AExpr::Dup) => true,
            (AExpr::Union(a), AExpr::Union(b)) => same_states(a, b),
            (AExpr::Sequence(a), AExpr::Sequence(b)) => same_states(a, b),
            (AExpr::Star(a), AExpr::Star(b)) => *a == *b,
            _ => false,
        }
    }

    fn copy(&self) -> (r: AExpr)
        ensures
            r@ == self@,
    {
        match self {
            AExpr::Spp(a) => AExpr::Spp(*a),
            AExpr::Hole(a) => AExpr::Hole(*a),
            AExpr::Dup => AExpr::Dup,
            AExpr::Union(v) => AExpr::Union(copy_states(v)),
            AExpr::Sequence(v) => AExpr::Sequence(copy_states(v)),
            AExpr::Star(a) => AExpr::Star(*a),
        }
    }
}

/// A state: an expression of the table, and whether entering the state records
/// a packet.
#[derive(Clone, Copy, Debug, PartialEq, Eq, Hash, PartialOrd, Ord, Structural)]
pub struct State {
    pub aexpr: AExprIdx,
    pub visible: bool,
}

// ---- the words of the table ---------------------------------------------------------

/// The parts of a node come before `s`.
pub open spec fn below(node: Node, s: int) -> bool {
    match node {
        Node::Union(v) => forall|i: int| 0 <= i < v.len() ==> #[trigger] v[i] < s,
        Node::Sequence(v) => forall|i: int| 0 <= i < v.len() ==> #[trigger] v[i] < s,
        Node::Star(a) => a < s,
        _ => true,
    }
}

/// Some language of the list has the word within the bound.
pub open spec fn any_of(ls: Seq<Weighed>, w: Word, c: nat) -> bool {
    exists|i: int| 0 <= i < ls.len() && (#[trigger] ls[i])(w, c)
}

/// One step of a relation, as one part.
pub open spec fn step_weight(r: spec_fn(Pkt, Pkt) -> bool) -> Weighed {
    |w: Word, c: nat| c >= 1 && once(r)(w)
}

/// The words of entry `s` of a table, with bounds on the choices made in them.
pub open spec fn weights(tbl: Seq<Node>, st: SPPstore, hs: Fill, s: AExprIdx) -> Weighed
    decreases s, 1nat,
{
    if s >= tbl.len() || !below(tbl[s as int], s as int) {
        |w: Word, c: nat| false
    } else {
        match tbl[s as int] {
            Node::Spp(x) => step_weight(st.fun(x)),
            Node::Hole(h) => |w: Word, c: nat| c >= 1 && hs(h)(w),
            Node::Dup => |w: Word, c: nat| c >= 2 && dup_lang()(w),
            Node::Union(v) => {
                let ls = part_weights(tbl, st, hs, s, v);
                weighed_more(|w: Word, c: nat| any_of(ls, w, c))
            },
            Node::Sequence(v) => weighed_list(st.n(), part_weights(tbl, st, hs, s, v)),
            Node::Star(a) => weighed_star(st.n(), weights(tbl, st, hs, a)),
        }
    }
}

/// The words of each of a list of entries below `s`.
pub open spec fn part_weights(
    tbl: Seq<Node>,
    st: SPPstore,
    hs: Fill,
    s: AExprIdx,
    v: Seq<AExprIdx>,
) -> Seq<Weighed>
    decreases s, 0nat,
{
    Seq::new(
        v.len(),
        |i: int|
            if 0 <= i < v.len() && v[i] < s {
                weights(tbl, st, hs, v[i])
            } else {
                |w: Word, c: nat| false
            },
    )
}

/// A node that may stand in a table at `s`.
pub open spec fn node_ok(st: &SPPstore, node: Node, s: int) -> bool {
    &&& below(node, s)
    &&& node matches Node::Spp(x) ==> st.has(x)
    &&& node matches Node::Sequence(v) ==> v.len() >= 2
}

/// No expression of the list is a sequence.
pub open spec fn flat_in(tbl: Seq<Node>, v: Seq<AExprIdx>) -> bool {
    forall|k: int|
        #![trigger v[k]]
        0 <= k < v.len() ==> v[k] < tbl.len() && !(tbl[v[k] as int] is Sequence)
}

/// Every part of a node comes before it, the nodes are normal forms and no node occurs
/// twice.
#[verifier::opaque]
pub open spec fn table_ok(tbl: Seq<Node>, st: &SPPstore) -> bool {
    &&& tbl.len() <= usize::MAX
    &&& forall|i: int| 0 <= i < tbl.len() ==> node_ok(st, #[trigger] tbl[i], i)
    &&& forall|i: int| 0 <= i < tbl.len() ==> normal(tbl, *st, #[trigger] tbl[i])
    &&& forall|i: int, j: int|
        #![trigger tbl[i], tbl[j]]
        0 <= i < tbl.len() && 0 <= j < tbl.len() && tbl[i] == tbl[j] ==> i == j
}

/// Table `b` is table `a` with nodes added at the end.
pub open spec fn table_ext(a: Seq<Node>, b: Seq<Node>) -> bool {
    &&& a.len() <= b.len()
    &&& forall|i: int| 0 <= i < a.len() ==> a[i] == #[trigger] b[i]
}

proof fn lemma_any_up(ls: Seq<Weighed>)
    requires
        forall|i: int| 0 <= i < ls.len() ==> upward(#[trigger] ls[i]),
    ensures
        upward(|w: Word, c: nat| any_of(ls, w, c)),
{
    let r = |w: Word, c: nat| any_of(ls, w, c);
    assert forall|w: Word, c: nat, d: nat| #![trigger r(w, c), r(w, d)] r(w, c) && c <= d implies r(
        w,
        d,
    ) by {
        let i = choose|i: int| 0 <= i < ls.len() && (#[trigger] ls[i])(w, c);
        assert(ls[i](w, d));
    }
}

/// A larger bound holds too, and no bound is 0.
proof fn lemma_weights(tbl: Seq<Node>, st: SPPstore, hs: Fill, s: AExprIdx)
    requires
        table_ok(tbl, &st),
    ensures
        upward(weights(tbl, st, hs, s)),
        forall|w: Word, c: nat| #[trigger] weights(tbl, st, hs, s)(w, c) ==> c >= 1,
    decreases s,
{
    reveal(table_ok);
    reveal_with_fuel(part_weights, 2);
    reveal_with_fuel(weights, 2);
    if s < tbl.len() {
        assert(node_ok(&st, tbl[s as int], s as int));
        match tbl[s as int] {
            Node::Union(v) => {
                let ls = part_weights(tbl, st, hs, s, v);
                assert forall|i: int| 0 <= i < ls.len() implies upward(#[trigger] ls[i]) by {
                    lemma_weights(tbl, st, hs, v[i]);
                }
                lemma_any_up(ls);
                lemma_more_up(|w: Word, c: nat| any_of(ls, w, c));
            },
            Node::Sequence(v) => {
                let ls = part_weights(tbl, st, hs, s, v);
                assert forall|i: int| 0 <= i < ls.len() implies upward(#[trigger] ls[i]) by {
                    lemma_weights(tbl, st, hs, v[i]);
                }
                lemma_list_up(st.n(), ls);
                assert forall|w: Word, c: nat| #[trigger]
                    weights(tbl, st, hs, s)(w, c) implies c >= 1 by {
                    lemma_weights(tbl, st, hs, v[0]);
                    let t = weighed_list(st.n(), ls.skip(1));
                    let (i, m, d) = choose|i: int, m: Pkt, d: nat| #[trigger]
                        weighed_cut(st.n(), ls[0], t, w, c, i, m, d);
                    assert(ls[0](front(w, i, m), d));
                    assert(ls[0] == weights(tbl, st, hs, v[0]));
                }
            },
            Node::Star(a) => {
                lemma_star_up(st.n(), weights(tbl, st, hs, a));
                assert forall|w: Word, c: nat| #[trigger]
                    weights(tbl, st, hs, s)(w, c) implies c >= 1 by {
                    let k = choose|k: nat| #[trigger]
                        weighed_pow(st.n(), weights(tbl, st, hs, a), k)(w, c);
                }
            },
            _ => {},
        }
    }
}

proof fn lemma_weights_ext(
    a: Seq<Node>,
    st: SPPstore,
    b: Seq<Node>,
    st2: SPPstore,
    hs: Fill,
    s: AExprIdx,
)
    requires
        table_ok(a, &st),
        table_ext(a, b),
        st2.extends(&st),
        s < a.len(),
    ensures
        within(st.n(), weights(a, st, hs, s), weights(b, st2, hs, s)),
        within(st.n(), weights(b, st2, hs, s), weights(a, st, hs, s)),
    decreases s,
{
    reveal(table_ok);
    reveal_with_fuel(part_weights, 2);
    reveal_with_fuel(weights, 2);
    let n = st.n();
    assert(a[s as int] == b[s as int]);
    assert(node_ok(&st, a[s as int], s as int));
    let la = weights(a, st, hs, s);
    let lb = weights(b, st2, hs, s);
    match a[s as int] {
        Node::Spp(x) => {
            assert forall|w: Word, c: nat| is_word(n, w) implies #[trigger] la(w, c) == lb(w, c) by {
                assert(st.fun(x)(w[0], w[1]) == st.rel(x, w[0], w[1]));
                assert(st2.fun(x)(w[0], w[1]) == st2.rel(x, w[0], w[1]));
            }
            assert forall|w: Word, c: nat| is_word(n, w) implies la(w, c) == #[trigger] lb(w, c) by {
                assert(la(w, c) == lb(w, c));
            }
        },
        Node::Union(v) => {
            let fs = part_weights(a, st, hs, s, v);
            let gs = part_weights(b, st2, hs, s, v);
            assert forall|i: int| 0 <= i < v.len() implies within(n, #[trigger] fs[i], gs[i])
                && within(n, gs[i], fs[i]) by {
                lemma_weights_ext(a, st, b, st2, hs, v[i]);
            }
            let f = |w: Word, c: nat| any_of(fs, w, c);
            let g = |w: Word, c: nat| any_of(gs, w, c);
            assert forall|w: Word, c: nat| is_word(n, w) && #[trigger] f(w, c) implies g(w, c) by {
                let i = choose|i: int| 0 <= i < fs.len() && (#[trigger] fs[i])(w, c);
                assert(gs[i](w, c));
            }
            assert forall|w: Word, c: nat| is_word(n, w) && #[trigger] g(w, c) implies f(w, c) by {
                let i = choose|i: int| 0 <= i < gs.len() && (#[trigger] gs[i])(w, c);
                assert(within(n, fs[i], gs[i]) && within(n, gs[i], fs[i]));
                assert(fs[i](w, c));
            }
            lemma_more_within(n, f, g);
            lemma_more_within(n, g, f);
        },
        Node::Sequence(v) => {
            let fs = part_weights(a, st, hs, s, v);
            let gs = part_weights(b, st2, hs, s, v);
            assert forall|i: int| 0 <= i < v.len() implies within(n, #[trigger] fs[i], gs[i]) by {
                lemma_weights_ext(a, st, b, st2, hs, v[i]);
            }
            assert forall|i: int| 0 <= i < v.len() implies within(n, #[trigger] gs[i], fs[i]) by {
                lemma_weights_ext(a, st, b, st2, hs, v[i]);
            }
            lemma_list_within(n, fs, gs);
            lemma_list_within(n, gs, fs);
        },
        Node::Star(x) => {
            lemma_weights_ext(a, st, b, st2, hs, x);
            lemma_star_within(n, weights(a, st, hs, x), weights(b, st2, hs, x));
            lemma_star_within(n, weights(b, st2, hs, x), weights(a, st, hs, x));
        },
        _ => {},
    }
}


proof fn lemma_step_one(n: nat, a: Weighed, f: spec_fn(Pkt, Pkt) -> bool)
    requires
        upward(a),
        forall|p: Pkt, q: Pkt|
            #![trigger f(p, q)]
            p.len() == n && q.len() == n ==> (f(p, q) <==> p == q),
    ensures
        tight(n, weighed_cat(n, a, step_weight(f)), a),
{
    let b = step_weight(f);
    let r = weighed_cat(n, a, b);
    assert forall|w: Word, c: nat| is_word(n, w) && #[trigger] r(w, c) implies a(w, c) by {
        let (i, m, d) = choose|i: int, m: Pkt, d: nat| #[trigger]
            weighed_cut(n, a, b, w, c, i, m, d);
        lemma_parts(n, w, i, m);
        let t = back(w, i, m);
        assert(b(t, (c - d) as nat));
        assert(t.len() == 2 && f(t[0], t[1]));
        assert(t[1] == w.last());
        assert(front(w, i, m) =~= w);
        assert(a(w, d));
    }
    assert forall|w: Word| is_word(n, w) && #[trigger] erase(a)(w) implies erase(r)(w) by {
        let c = choose|c: nat| #[trigger] a(w, c);
        let e = w.len() - 2;
        assert(front(w, e, w.last()) =~= w);
        lemma_parts(n, w, e, w.last());
        let t = back(w, e, w.last());
        assert(t[1] == w.last());
        assert(f(t[0], t[1]));
        assert(((c + 1) - c) as nat == 1);
        assert(b(t, 1));
        assert(weighed_cut(n, a, b, w, c + 1, e, w.last(), c));
        assert(r(w, c + 1));
    }
}

/// `h` is `f` and then `g`.
spec fn composed(
    n: nat,
    f: spec_fn(Pkt, Pkt) -> bool,
    g: spec_fn(Pkt, Pkt) -> bool,
    h: spec_fn(Pkt, Pkt) -> bool,
) -> bool {
    forall|p: Pkt, q: Pkt|
        #![trigger h(p, q)]
        p.len() == n && q.len() == n ==> (h(p, q) <==> exists|m: Pkt|
            #![trigger f(p, m)]
            m.len() == n && f(p, m) && g(m, q))
}

proof fn lemma_step_merge(
    n: nat,
    f: spec_fn(Pkt, Pkt) -> bool,
    g: spec_fn(Pkt, Pkt) -> bool,
    h: spec_fn(Pkt, Pkt) -> bool,
)
    requires
        composed(n, f, g, h),
    ensures
        tight(n, weighed_cat(n, step_weight(f), step_weight(g)), step_weight(h)),
{
    let a = step_weight(f);
    let b = step_weight(g);
    let r = weighed_cat(n, a, b);
    let t = step_weight(h);
    assert forall|w: Word, c: nat| is_word(n, w) && #[trigger] r(w, c) implies t(w, c) by {
        let (i, m, d) = choose|i: int, m: Pkt, d: nat| #[trigger]
            weighed_cut(n, a, b, w, c, i, m, d);
        lemma_parts(n, w, i, m);
        let x = front(w, i, m);
        let y = back(w, i, m);
        assert(a(x, d) && b(y, (c - d) as nat));
        assert(x[0] == w[0] && x[1] == m);
        assert(y[0] == m && y[1] == w[1]);
        assert(f(w[0], m) && g(m, w[1]));
        assert(h(w[0], w[1]));
    }
    assert forall|w: Word| is_word(n, w) && #[trigger] erase(t)(w) implies erase(r)(w) by {
        let c = choose|c: nat| #[trigger] t(w, c);
        assert(h(w[0], w[1]));
        let m = choose|m: Pkt| m.len() == n && #[trigger] f(w[0], m) && g(m, w[1]);
        lemma_parts(n, w, 0, m);
        let x = front(w, 0, m);
        let y = back(w, 0, m);
        assert(x[0] == w[0] && x[1] == m);
        assert(y[0] == m && y[1] == w[1]);
        assert(a(x, 1) && b(y, 1));
        assert((2 - 1) as nat == 1);
        assert(weighed_cut(n, a, b, w, 2, 0, m, 1));
        assert(r(w, 2));
    }
}

/// The language has no words.
spec fn void(n: nat, a: Weighed) -> bool {
    forall|w: Word, c: nat| is_word(n, w) ==> !#[trigger] a(w, c)
}

proof fn lemma_void_cat(n: nat, a: Weighed, b: Weighed)
    requires
        void(n, a) || void(n, b),
    ensures
        void(n, weighed_cat(n, a, b)),
{
    assert forall|w: Word, c: nat| is_word(n, w) implies !#[trigger] weighed_cat(n, a, b)(w, c) by {
        if weighed_cat(n, a, b)(w, c) {
            let (i, m, d) = choose|i: int, m: Pkt, d: nat| #[trigger]
                weighed_cut(n, a, b, w, c, i, m, d);
            lemma_parts(n, w, i, m);
            assert(a(front(w, i, m), d));
            assert(b(back(w, i, m), (c - d) as nat));
        }
    }
}

proof fn lemma_void_step(n: nat, f: spec_fn(Pkt, Pkt) -> bool)
    requires
        forall|p: Pkt, q: Pkt| #![trigger f(p, q)] p.len() == n && q.len() == n ==> !f(p, q),
    ensures
        void(n, step_weight(f)),
{
}

// ---- the automaton -----------------------------------------------------------------

/// The automaton of expressions with holes: a table of expressions, each at most
/// once.  The relations are kept in a store of the caller's.
pub struct AutWithHoles {
    aexprs: Vec<AExpr>,
}

/// `b` over `st2` is `a` over `st` with expressions and relations added: those of
/// `a` are kept, with the same words.
pub open spec fn keeps(a: AutWithHoles, st: SPPstore, b: AutWithHoles, st2: SPPstore) -> bool {
    &&& table_ext(a.tbl(), b.tbl())
    &&& st2.extends(&st)
    &&& forall|hs: Fill, s: AExprIdx, w: Word, c: nat|
        #![trigger a.takes(st, hs, s, w, c)]
        #![trigger b.takes(st2, hs, s, w, c)]
        a.has(s) && is_word(st.n(), w) ==> a.takes(st, hs, s, w, c) == b.takes(st2, hs, s, w, c)
    &&& forall|hs: Fill, s: AExprIdx, w: Word|
        #![trigger a.accepts(st, hs, s, w)]
        #![trigger b.accepts(st2, hs, s, w)]
        a.has(s) && is_word(st.n(), w) ==> a.accepts(st, hs, s, w) == b.accepts(st2, hs, s, w)
}

/// No hole is added.
pub open spec fn same_holes(a: AutWithHoles, b: AutWithHoles) -> bool {
    forall|h: Hole| #[trigger] b.uses(h) ==> a.uses(h)
}

impl AutWithHoles {
    /// The table.
    pub closed spec fn tbl(&self) -> Seq<Node> {
        self.aexprs@.map_values(|a: AExpr| a@)
    }

    /// `s` is an expression of the table.
    pub open spec fn has(&self, s: AExprIdx) -> bool {
        s < self.tbl().len()
    }

    /// The hole occurs in the table.
    pub open spec fn uses(&self, h: Hole) -> bool {
        exists|i: int| 0 <= i < self.tbl().len() && #[trigger] self.tbl()[i] == Node::Hole(h)
    }

    /// The table is well formed over the relations of a store.
    pub open spec fn wf(&self, st: &SPPstore) -> bool {
        table_ok(self.tbl(), st)
    }

    /// Expression `s` has the word within the bound.
    pub open spec fn takes(&self, st: SPPstore, hs: Fill, s: AExprIdx, w: Word, c: nat) -> bool {
        weights(self.tbl(), st, hs, s)(w, c)
    }

    /// Expression `s` has the word.
    pub open spec fn accepts(&self, st: SPPstore, hs: Fill, s: AExprIdx, w: Word) -> bool {
        exists|c: nat| #[trigger] self.takes(st, hs, s, w, c)
    }

    /// All are expressions of the table.
    pub open spec fn have(&self, v: Seq<AExprIdx>) -> bool {
        forall|i: int| 0 <= i < v.len() ==> self.has(#[trigger] v[i])
    }

    /// The words of each of a list of expressions.
    pub open spec fn list(&self, st: SPPstore, hs: Fill, v: Seq<AExprIdx>) -> Seq<Weighed> {
        Seq::new(v.len(), |i: int| weights(self.tbl(), st, hs, v[i]))
    }

    /// One word of each expression of a list, in order.
    pub open spec fn chained(&self, st: SPPstore, hs: Fill, v: Seq<AExprIdx>) -> Weighed {
        weighed_list(st.n(), self.list(st, hs, v))
    }

    /// Some expression of the list has the word.
    pub open spec fn some(&self, st: SPPstore, hs: Fill, v: Seq<AExprIdx>, w: Word) -> bool {
        exists|i: int| 0 <= i < v.len() && self.accepts(st, hs, #[trigger] v[i], w)
    }

    proof fn lemma_erased(&self, st: SPPstore, hs: Fill, s: AExprIdx, w: Word)
        ensures
            self.accepts(st, hs, s, w) == erase(weights(self.tbl(), st, hs, s))(w),
    {
        if self.accepts(st, hs, s, w) {
            let c = choose|c: nat| #[trigger] self.takes(st, hs, s, w, c);
            assert(weights(self.tbl(), st, hs, s)(w, c));
        }
        if erase(weights(self.tbl(), st, hs, s))(w) {
            let c = choose|c: nat| #[trigger] weights(self.tbl(), st, hs, s)(w, c);
            assert(self.takes(st, hs, s, w, c));
        }
    }

    proof fn lemma_list_ups(&self, st: SPPstore, hs: Fill, v: Seq<AExprIdx>)
        requires
            self.wf(&st),
        ensures
            forall|i: int| 0 <= i < v.len() ==> upward(#[trigger] self.list(st, hs, v)[i]),
            upward(self.chained(st, hs, v)),
    {
        let ls = self.list(st, hs, v);
        assert forall|i: int| 0 <= i < v.len() implies upward(#[trigger] ls[i]) by {
            lemma_weights(self.tbl(), st, hs, v[i]);
        }
        lemma_list_up(st.n(), ls);
    }

    /// Adding to the table and to the store keeps what is there.
    pub proof fn lemma_keeps(&self, st: SPPstore, o: &AutWithHoles, st0: SPPstore)
        requires
            o.wf(&st0),
            table_ext(o.tbl(), self.tbl()),
            st.extends(&st0),
        ensures
            keeps(*o, st0, *self, st),
    {
        assert forall|hs: Fill, s: AExprIdx, w: Word, c: nat|
            #![trigger o.takes(st0, hs, s, w, c)]
            o.has(s) && is_word(st0.n(), w) implies o.takes(st0, hs, s, w, c) == self.takes(
            st,
            hs,
            s,
            w,
            c,
        ) by {
            lemma_weights_ext(o.tbl(), st0, self.tbl(), st, hs, s);
        }
        assert forall|hs: Fill, s: AExprIdx, w: Word|
            #![trigger o.accepts(st0, hs, s, w)]
            o.has(s) && is_word(st0.n(), w) implies o.accepts(st0, hs, s, w) == self.accepts(
            st,
            hs,
            s,
            w,
        ) by {
            if o.accepts(st0, hs, s, w) {
                let c = choose|c: nat| #[trigger] o.takes(st0, hs, s, w, c);
                assert(self.takes(st, hs, s, w, c));
            }
            if self.accepts(st, hs, s, w) {
                let c = choose|c: nat| #[trigger] self.takes(st, hs, s, w, c);
                lemma_weights_ext(o.tbl(), st0, self.tbl(), st, hs, s);
                assert(o.takes(st0, hs, s, w, c));
            }
        }
    }

    /// A store that is added to keeps the table well formed.
    pub proof fn lemma_wf_ext(&self, st: SPPstore, st0: SPPstore)
        requires
            self.wf(&st0),
            st.extends(&st0),
        ensures
            self.wf(&st),
            keeps(*self, st0, *self, st),
    {
        reveal(table_ok);
        assert forall|i: int| 0 <= i < self.tbl().len() implies normal(
            self.tbl(),
            st,
            #[trigger] self.tbl()[i],
        ) by {
            lemma_normal_ext(self.tbl(), st, self.tbl(), st0, self.tbl()[i]);
        }
        self.lemma_keeps(st, self, st0);
    }

    /// The table is one of normal forms.
    pub proof fn lemma_normal(&self, st: SPPstore)
        requires
            self.wf(&st),
            st.wf(),
        ensures
            normal_table(self.tbl(), st),
    {
        reveal(table_ok);
        let tbl = self.tbl();
        assert forall|i: int| 0 <= i < tbl.len() implies (#[trigger] tbl[i] matches Node::Union(v)
            ==> in_table(tbl, v)) by {
            assert(node_ok(&st, tbl[i], i));
        }
        assert forall|i: int| 0 <= i < tbl.len() implies (
        #[trigger] tbl[i] matches Node::Sequence(v) ==> in_table(tbl, v)) by {
            assert(node_ok(&st, tbl[i], i));
        }
        assert forall|i: int| 0 <= i < tbl.len() implies (#[trigger] tbl[i] matches Node::Spp(x)
            ==> st.has(x)) by {
            assert(node_ok(&st, tbl[i], i));
        }
    }

    /// What a chain of expressions means stays the same.
    proof fn lemma_chain_ext(
        &self,
        st: SPPstore,
        o: &AutWithHoles,
        st0: SPPstore,
        hs: Fill,
        v: Seq<AExprIdx>,
    )
        requires
            o.wf(&st0),
            table_ext(o.tbl(), self.tbl()),
            st.extends(&st0),
            o.have(v),
        ensures
            tight(st.n(), o.chained(st0, hs, v), self.chained(st, hs, v)),
            tight(st.n(), self.chained(st, hs, v), o.chained(st0, hs, v)),
    {
        let a = o.list(st0, hs, v);
        let b = self.list(st, hs, v);
        assert forall|i: int| 0 <= i < v.len() implies within(st.n(), #[trigger] a[i], b[i]) by {
            assert(o.has(v[i]));
            lemma_weights_ext(o.tbl(), st0, self.tbl(), st, hs, v[i]);
        }
        assert forall|i: int| 0 <= i < v.len() implies within(st.n(), #[trigger] b[i], a[i]) by {
            assert(o.has(v[i]));
            lemma_weights_ext(o.tbl(), st0, self.tbl(), st, hs, v[i]);
        }
        lemma_list_within(st.n(), a, b);
        lemma_list_within(st.n(), b, a);
        lemma_tight_both(st.n(), weighed_list(st.n(), a), weighed_list(st.n(), b));
        lemma_tight_both(st.n(), weighed_list(st.n(), b), weighed_list(st.n(), a));
    }

    proof fn lemma_chain_push(&self, st: SPPstore, hs: Fill, v: Seq<AExprIdx>, s: AExprIdx)
        requires
            self.wf(&st),
        ensures
            tight(
                st.n(),
                self.chained(st, hs, v.push(s)),
                weighed_cat(st.n(), self.chained(st, hs, v), weights(self.tbl(), st, hs, s)),
            ),
            tight(
                st.n(),
                weighed_cat(st.n(), self.chained(st, hs, v), weights(self.tbl(), st, hs, s)),
                self.chained(st, hs, v.push(s)),
            ),
    {
        self.lemma_list_ups(st, hs, v);
        lemma_weights(self.tbl(), st, hs, s);
        assert(self.list(st, hs, v.push(s)) =~= self.list(st, hs, v).push(
            weights(self.tbl(), st, hs, s),
        ));
        lemma_list_push(st.n(), self.list(st, hs, v), weights(self.tbl(), st, hs, s));
    }

    proof fn lemma_chain_add(&self, st: SPPstore, hs: Fill, v: Seq<AExprIdx>, u: Seq<AExprIdx>)
        requires
            self.wf(&st),
        ensures
            tight(
                st.n(),
                self.chained(st, hs, v + u),
                weighed_cat(st.n(), self.chained(st, hs, v), self.chained(st, hs, u)),
            ),
            tight(
                st.n(),
                weighed_cat(st.n(), self.chained(st, hs, v), self.chained(st, hs, u)),
                self.chained(st, hs, v + u),
            ),
    {
        self.lemma_list_ups(st, hs, v);
        self.lemma_list_ups(st, hs, u);
        let a = self.list(st, hs, v);
        let b = self.list(st, hs, u);
        assert(self.list(st, hs, v + u) =~= a + b);
        lemma_list_add(st.n(), a, b);
        lemma_tight_both(
            st.n(),
            weighed_list(st.n(), a + b),
            weighed_cat(st.n(), weighed_list(st.n(), a), weighed_list(st.n(), b)),
        );
        lemma_tight_both(
            st.n(),
            weighed_cat(st.n(), weighed_list(st.n(), a), weighed_list(st.n(), b)),
            weighed_list(st.n(), a + b),
        );
    }

    proof fn lemma_chain_one(&self, st: SPPstore, hs: Fill, s: AExprIdx)
        requires
            self.wf(&st),
        ensures
            tight(st.n(), self.chained(st, hs, seq![s]), weights(self.tbl(), st, hs, s)),
            tight(st.n(), weights(self.tbl(), st, hs, s), self.chained(st, hs, seq![s])),
    {
        lemma_weights(self.tbl(), st, hs, s);
        let a = weights(self.tbl(), st, hs, s);
        assert(self.list(st, hs, seq![s]) =~= seq![a]);
        lemma_list_one(st.n(), a);
        lemma_tight_both(st.n(), a, weighed_list(st.n(), seq![a]));
        lemma_tight_both(st.n(), weighed_list(st.n(), seq![a]), a);
    }

    /// What the table holds at `s`.
    proof fn lemma_node(&self, st: SPPstore, s: AExprIdx)
        requires
            self.wf(&st),
            self.has(s),
        ensures
            node_ok(&st, self.tbl()[s as int], s as int),
            self.tbl().len() <= usize::MAX,
            self.tbl()[s as int] matches Node::Union(v) ==> self.have(v),
            self.tbl()[s as int] matches Node::Sequence(v) ==> flat_in(self.tbl(), v),
            self.tbl()[s as int] matches Node::Sequence(v) ==> self.have(v) && forall|hs: Fill|
                #[trigger]
                weights(self.tbl(), st, hs, s) == self.chained(st, hs, v),
            self.tbl()[s as int] matches Node::Star(a) ==> self.has(a) && forall|hs: Fill|
                #[trigger]
                weights(self.tbl(), st, hs, s) == weighed_star(
                    st.n(),
                    weights(self.tbl(), st, hs, a),
                ),
            self.tbl()[s as int] matches Node::Spp(x) ==> forall|hs: Fill| #[trigger]
                weights(self.tbl(), st, hs, s) == step_weight(st.fun(x)),
    {
        reveal(table_ok);
        reveal_with_fuel(part_weights, 2);
        reveal_with_fuel(weights, 2);
        assert(node_ok(&st, self.tbl()[s as int], s as int));
        assert(normal(self.tbl(), st, self.tbl()[s as int]));
        reveal(normal);
        match self.tbl()[s as int] {
            Node::Sequence(v) => {
                assert forall|hs: Fill| #[trigger]
                    weights(self.tbl(), st, hs, s) == self.chained(st, hs, v) by {
                    assert(part_weights(self.tbl(), st, hs, s, v) =~= self.list(st, hs, v));
                }
            },
            _ => {},
        }
    }

    proof fn lemma_below(&self, st: SPPstore, s: AExprIdx, v: Seq<AExprIdx>, i: int)
        requires
            self.wf(&st),
            self.has(s),
            self.tbl()[s as int] == Node::Union(v),
            0 <= i < v.len(),
        ensures
            v[i] < s,
    {
        reveal(table_ok);
        assert(node_ok(&st, self.tbl()[s as int], s as int));
        match self.tbl()[s as int] {
            Node::Union(u) => {
                assert(u == v);
                assert(u[i] < s as int);
            },
            _ => {},
        }
    }

    /// The words of a union.
    proof fn lemma_union(&self, st: SPPstore, hs: Fill, s: AExprIdx, v: Seq<AExprIdx>, w: Word)
        requires
            self.wf(&st),
            self.has(s),
            self.tbl()[s as int] == Node::Union(v),
        ensures
            self.accepts(st, hs, s, w) == self.some(st, hs, v, w),
            forall|c: nat| #[trigger]
                self.takes(st, hs, s, w, c) ==> c >= 1 && exists|i: int|
                    0 <= i < v.len() && #[trigger] self.takes(
                        st,
                        hs,
                        v[i],
                        w,
                        (c - 1) as nat,
                    ),
    {
        reveal(table_ok);
        reveal_with_fuel(part_weights, 2);
        reveal_with_fuel(weights, 2);
        assert(node_ok(&st, self.tbl()[s as int], s as int));
        assert(below(Node::Union(v), s as int));
        let ls = part_weights(self.tbl(), st, hs, s, v);
        assert forall|i: int| 0 <= i < v.len() implies #[trigger] ls[i] == weights(
            self.tbl(),
            st,
            hs,
            v[i],
        ) by {
            self.lemma_below(st, s, v, i);
        }
        assert forall|c: nat| #[trigger] self.takes(st, hs, s, w, c) implies c >= 1 && exists|
            i: int,
        |
            0 <= i < v.len() && #[trigger] self.takes(st, hs, v[i], w, (c - 1) as nat) by {
            let d = (c - 1) as nat;
            assert(any_of(ls, w, d));
            let i = choose|i: int| 0 <= i < ls.len() && (#[trigger] ls[i])(w, d);
            assert(self.takes(st, hs, v[i], w, d));
        }
        if self.accepts(st, hs, s, w) {
            let c = choose|c: nat| #[trigger] self.takes(st, hs, s, w, c);
            let i = choose|i: int|
                0 <= i < v.len() && #[trigger] self.takes(st, hs, v[i], w, (c - 1) as nat);
            assert(self.accepts(st, hs, v[i], w));
        }
        if self.some(st, hs, v, w) {
            let i = choose|i: int| 0 <= i < v.len() && self.accepts(st, hs, #[trigger] v[i], w);
            let c = choose|c: nat| #[trigger] self.takes(st, hs, v[i], w, c);
            assert(ls[i](w, c));
            assert(any_of(ls, w, c));
            assert(((c + 1) - 1) as nat == c);
            assert(self.takes(st, hs, s, w, c + 1));
        }
    }

    /// An automaton without expressions.
    pub fn new() -> (a: AutWithHoles)
        ensures
            a.tbl().len() == 0,
            forall|st: SPPstore| #[trigger] a.wf(&st),
    {
        let a = AutWithHoles { aexprs: Vec::new() };
        proof {
            reveal(table_ok);
        }
        a
    }

    /// The same automaton.
    pub fn copy(&self) -> (r: AutWithHoles)
        ensures
            r.tbl() == self.tbl(),
    {
        let mut aexprs: Vec<AExpr> = Vec::new();
        let mut i: usize = 0;
        while i < self.aexprs.len()
            invariant
                i <= self.aexprs@.len(),
                aexprs@.len() == i,
                forall|j: int| 0 <= j < i ==> (#[trigger] aexprs@[j])@ == self.aexprs@[j]@,
            decreases self.aexprs.len() - i,
        {
            aexprs.push(self.aexprs[i].copy());
            i = i + 1;
        }
        let r = AutWithHoles { aexprs };
        assert(r.tbl() =~= self.tbl());
        r
    }

    /// The expression at `aexpr`.
    pub fn get_expr(&self, aexpr: AExprIdx) -> (e: &AExpr)
        requires
            self.has(aexpr),
        ensures
            e@ == self.tbl()[aexpr as int],
    {
        &self.aexprs[aexpr]
    }

    /// The index of an expression: where it stands already, or a new one.
    fn intern(&mut self, aexpr: AExpr, st: Ghost<SPPstore>) -> (r: AExprIdx)
        requires
            old(self).wf(&st@),
            node_ok(&st@, aexpr@, old(self).tbl().len() as int),
            normal(old(self).tbl(), st@, aexpr@),
            st@.extends(&st@),
        ensures
            final(self).wf(&st@),
            keeps(*old(self), st@, *final(self), st@),
            forall|h: Hole| #[trigger]
                final(self).uses(h) ==> old(self).uses(h) || aexpr@ == Node::Hole(h),
            final(self).has(r),
            final(self).tbl()[r as int] == aexpr@,
    {
        let mut i: usize = 0;
        while i < self.aexprs.len()
            invariant
                *self == *old(self),
                self.wf(&st@),
                st@.extends(&st@),
                i <= self.aexprs@.len(),
                forall|j: int| 0 <= j < i ==> #[trigger] self.tbl()[j] != aexpr@,
            decreases self.aexprs.len() - i,
        {
            if self.aexprs[i].is(&aexpr) {
                assert(self.tbl()[i as int] == aexpr@);
                proof {
                    self.lemma_keeps(st@, old(self), st@);
                }
                return i;
            }
            assert(self.tbl()[i as int] != aexpr@);
            i = i + 1;
        }
        let id: usize = self.aexprs.len();
        let ghost e = aexpr@;
        self.aexprs.push(aexpr);
        proof {
            let a = old(self).tbl();
            let b = self.tbl();
            assert(b =~= a.push(e));
            assert(b.len() == self.aexprs.len());
            reveal(table_ok);
            assert(table_ok(b, &st@)) by {
                assert forall|i: int| 0 <= i < b.len() implies node_ok(&st@, #[trigger] b[i], i) by {
                    if i < a.len() {
                        assert(a[i] == b[i]);
                    }
                }
                assert forall|i: int| 0 <= i < b.len() implies normal(b, st@, #[trigger] b[i]) by {
                    if i < a.len() {
                        assert(a[i] == b[i]);
                        assert(normal(a, st@, a[i]));
                    }
                    lemma_normal_ext(b, st@, a, st@, b[i]);
                }
                assert forall|i: int, j: int|
                    #![trigger b[i], b[j]]
                    0 <= i < b.len() && 0 <= j < b.len() && b[i] == b[j] implies i == j by {
                    if i < a.len() {
                        assert(a[i] == b[i]);
                    }
                    if j < a.len() {
                        assert(a[j] == b[j]);
                    }
                }
            }
            self.lemma_keeps(st@, old(self), st@);
            assert forall|h: Hole| #[trigger] self.uses(h) implies old(self).uses(h) || e
                == Node::Hole(h) by {
                let i = choose|i: int| 0 <= i < b.len() && #[trigger] b[i] == Node::Hole(h);
                if i < a.len() {
                    assert(a[i] == b[i]);
                }
            }
        }
        id
    }

    /// One step of a relation.
    pub fn mk_spp(&mut self, s: SPP, st: &SPPstore) -> (r: AExprIdx)
        requires
            old(self).wf(st),
            st.has(s),
        ensures
            final(self).wf(st),
            keeps(*old(self), *st, *final(self), *st),
            same_holes(*old(self), *final(self)),
            final(self).has(r),
            final(self).tbl()[r as int] == Node::Spp(s),
            forall|hs: Fill, w: Word| #[trigger]
                final(self).accepts(*st, hs, r, w) <==> once(st.fun(s))(w),
    {
        proof {
            reveal(normal);
        }
        let r = self.intern(AExpr::Spp(s), Ghost(*st));
        proof {
            self.lemma_node(*st, r);
            assert forall|hs: Fill, w: Word| #[trigger]
                self.accepts(*st, hs, r, w) <==> once(st.fun(s))(w) by {
                self.lemma_erased(*st, hs, r, w);
                if once(st.fun(s))(w) {
                    assert(weights(self.tbl(), *st, hs, r) == step_weight(st.fun(s)));
                    assert(self.takes(*st, hs, r, w, 1));
                }
                if self.accepts(*st, hs, r, w) {
                    let c = choose|c: nat| #[trigger] self.takes(*st, hs, r, w, c);
                    assert(weights(self.tbl(), *st, hs, r) == step_weight(st.fun(s)));
                }
            }
        }
        r
    }

    /// A hole.
    pub fn mk_hole(&mut self, h: Hole, st: &SPPstore) -> (r: AExprIdx)
        requires
            old(self).wf(st),
        ensures
            final(self).wf(st),
            keeps(*old(self), *st, *final(self), *st),
            forall|g: Hole| #[trigger] final(self).uses(g) ==> old(self).uses(g) || g == h,
            final(self).has(r),
            final(self).tbl()[r as int] == Node::Hole(h),
            forall|hs: Fill, w: Word| #[trigger]
                final(self).accepts(*st, hs, r, w) <==> hs(h)(w),
    {
        proof {
            reveal(normal);
        }
        let r = self.intern(AExpr::Hole(h), Ghost(*st));
        proof {
            reveal(table_ok);
            assert forall|hs: Fill, w: Word| #[trigger]
                self.accepts(*st, hs, r, w) <==> hs(h)(w) by {
                if hs(h)(w) {
                    assert(self.takes(*st, hs, r, w, 1));
                }
            }
        }
        r
    }

    /// A recorded packet.
    pub fn mk_dup(&mut self, st: &SPPstore) -> (r: AExprIdx)
        requires
            old(self).wf(st),
        ensures
            final(self).wf(st),
            keeps(*old(self), *st, *final(self), *st),
            same_holes(*old(self), *final(self)),
            final(self).has(r),
            final(self).tbl()[r as int] == Node::Dup,
            forall|hs: Fill, w: Word| #[trigger]
                final(self).accepts(*st, hs, r, w) <==> dup_lang()(w),
    {
        proof {
            reveal(normal);
        }
        let r = self.intern(AExpr::Dup, Ghost(*st));
        proof {
            reveal(table_ok);
            assert forall|hs: Fill, w: Word| #[trigger]
                self.accepts(*st, hs, r, w) <==> dup_lang()(w) by {
                if dup_lang()(w) {
                    assert(self.takes(*st, hs, r, w, 2));
                }
            }
        }
        r
    }
}


/// The chain `u` of `b` has the words of the chain `v` of `a`, within no more parts.
spec fn stands(
    a: AutWithHoles,
    st: SPPstore,
    v: Seq<AExprIdx>,
    b: AutWithHoles,
    st2: SPPstore,
    u: Seq<AExprIdx>,
    hs: Fill,
) -> bool {
    tight(st.n(), a.chained(st, hs, v), b.chained(st2, hs, u))
}

/// Expression `r` of `b` has the words of the chain `v` of `a`, within no more
/// parts.
pub open spec fn sums_up(
    a: AutWithHoles,
    st: SPPstore,
    v: Seq<AExprIdx>,
    b: AutWithHoles,
    st2: SPPstore,
    r: AExprIdx,
    hs: Fill,
) -> bool {
    tight(st.n(), a.chained(st, hs, v), weights(b.tbl(), st2, hs, r))
}

impl AutWithHoles {
    /// The expressions of a list, with each sequence in it written out.
    fn flatten_sequences(&self, states: &Vec<AExprIdx>, st: Ghost<SPPstore>) -> (flat: Vec<
        AExprIdx,
    >)
        requires
            self.wf(&st@),
            st@.wf(),
            self.have(states@),
        ensures
            push_items(st@.n(), Some(Seq::empty()), items_of(self.tbl(), st@, flat@))
                == chain_list(self.tbl(), st@, states@, states@.len() as int),
            self.have(flat@),
            flat_in(self.tbl(), flat@),
            states@.len() > 0 ==> flat@.len() > 0,
            forall|hs: Fill| #[trigger] stands(*self, st@, states@, *self, st@, flat@, hs),
    {
        let mut flat: Vec<AExprIdx> = Vec::new();
        let mut i: usize = 0;
        let ghost nil = Some(Seq::<Item>::empty());
        proof {
            self.lemma_normal(st@);
            assert(in_table(self.tbl(), states@)) by {
                assert forall|k: int| 0 <= k < states@.len() implies #[trigger] states@[k]
                    < self.tbl().len() by {
                    assert(self.has(states@[k]));
                }
            }
            assert(items_of(self.tbl(), st@, flat@) =~= Seq::empty());
            assert forall|hs: Fill| #[trigger]
                stands(*self, st@, states@.take(0), *self, st@, flat@, hs) by {
                assert(states@.take(0) =~= flat@);
            }
        }
        while i < states.len()
            invariant
                self.wf(&st@),
                self.have(states@),
                normal_table(self.tbl(), st@),
                in_table(self.tbl(), states@),
                nil == Some(Seq::<Item>::empty()),
                push_items(st@.n(), nil, items_of(self.tbl(), st@, flat@)) == chain_list(
                    self.tbl(),
                    st@,
                    states@,
                    i as int,
                ),
                i <= states@.len(),
                self.have(flat@),
                flat_in(self.tbl(), flat@),
                i > 0 ==> flat@.len() > 0,
                forall|hs: Fill| #[trigger]
                    stands(*self, st@, states@.take(i as int), *self, st@, flat@, hs),
            decreases states.len() - i,
        {
            let s = states[i];
            let ghost f0 = flat@;
            proof {
                self.lemma_node(st@, s);
            }
            let ghost mut added: Seq<AExprIdx> = seq![s];
            match self.get_expr(s) {
                AExpr::Sequence(children) => {
                    let mut j: usize = 0;
                    while j < children.len()
                        invariant
                            j <= children@.len(),
                            self.have(children@),
                            flat_in(self.tbl(), children@),
                            self.have(flat@),
                            flat_in(self.tbl(), flat@),
                            flat@ == f0 + children@.take(j as int),
                        decreases children.len() - j,
                    {
                        flat.push(children[j]);
                        j = j + 1;
                        assert(f0 + children@.take(j as int) =~= (f0 + children@.take(j - 1)).push(
                            children@[j - 1],
                        ));
                    }
                    proof {
                        assert(children@.take(j as int) =~= children@);
                        added = children@;
                    }
                },
                _ => {
                    flat.push(s);
                    assert(flat@ =~= f0 + seq![s]);
                },
            }
            proof {
                let c = chain_list(self.tbl(), st@, states@, i as int);
                lemma_chain_list_tidy(self.tbl(), st@, states@, i as int);
                lemma_chain_more(self.tbl(), st@, c, s);
                lemma_items_join(self.tbl(), st@, nil, f0, added);
                lemma_items_one(self.tbl(), st@, c, s);
                let n = st@.n();
                let t = states@.take(i as int);
                assert(states@.take(i + 1) =~= t.push(s));
                assert forall|hs: Fill| #[trigger]
                    stands(*self, st@, states@.take(i + 1), *self, st@, flat@, hs) by {
                    assert(stands(*self, st@, t, *self, st@, f0, hs));
                    let ws = weights(self.tbl(), st@, hs, s);
                    let wt = self.chained(st@, hs, t);
                    let wf = self.chained(st@, hs, f0);
                    let wa = self.chained(st@, hs, added);
                    self.lemma_chain_push(st@, hs, t, s);
                    self.lemma_chain_add(st@, hs, f0, added);
                    self.lemma_chain_one(st@, hs, s);
                    assert(tight(n, ws, wa));
                    lemma_tight_cat(n, wt, ws, wf, wa);
                    lemma_tight_trans(
                        n,
                        self.chained(st@, hs, t.push(s)),
                        weighed_cat(n, wt, ws),
                        weighed_cat(n, wf, wa),
                    );
                    lemma_tight_trans(
                        n,
                        self.chained(st@, hs, t.push(s)),
                        weighed_cat(n, wf, wa),
                        self.chained(st@, hs, flat@),
                    );
                }
            }
            i = i + 1;
        }
        assert(states@.take(i as int) =~= states@);
        flat
    }

    /// A chain that has a part without words has none.
    proof fn lemma_void_chain(&self, st: SPPstore, hs: Fill, v: Seq<AExprIdx>, i: int)
        requires
            self.wf(&st),
            0 <= i <= v.len(),
            void(st.n(), self.chained(st, hs, v.take(i))),
        ensures
            void(st.n(), self.chained(st, hs, v)),
    {
        assert(v.take(i) + v.skip(i) =~= v);
        self.lemma_chain_add(st, hs, v.take(i), v.skip(i));
        lemma_void_cat(
            st.n(),
            self.chained(st, hs, v.take(i)),
            self.chained(st, hs, v.skip(i)),
        );
    }

    /// `x` is put at the end of the list, joined with what stands there where both
    /// are relations.  The result is `false` where the list comes to have no words.
    fn append_step(&mut self, store: &mut SPPstore, out: &mut Vec<AExprIdx>, x: SPP) -> (r: bool)
        requires
            old(self).wf(old(store)),
            old(store).wf(),
            old(store).has(x),
            flat_in(old(self).tbl(), old(out)@),
            tidy_list(old(self).tbl(), *old(store), old(out)@),
        ensures
            ({
                let c = push_item(
                    old(store).n(),
                    Some(items_of(old(self).tbl(), *old(store), old(out)@)),
                    Item::Rel(relation(*old(store), x)),
                );
                if r {
                    &&& c == Some(items_of(final(self).tbl(), *final(store), final(out)@))
                    &&& tidy_list(final(self).tbl(), *final(store), final(out)@)
                } else {
                    c is None
                }
            }),
            final(store).wf(),
            final(store).sp == old(store).sp,
            final(self).wf(final(store)),
            keeps(*old(self), *old(store), *final(self), *final(store)),
            same_holes(*old(self), *final(self)),
            flat_in(final(self).tbl(), final(out)@),
            r ==> forall|hs: Fill|
                tight(
                    old(store).n(),
                    weighed_cat(
                        old(store).n(),
                        #[trigger] old(self).chained(*old(store), hs, old(out)@),
                        step_weight(old(store).fun(x)),
                    ),
                    final(self).chained(*final(store), hs, final(out)@),
                ),
            !r ==> forall|hs: Fill|
                void(
                    old(store).n(),
                    weighed_cat(
                        old(store).n(),
                        #[trigger] old(self).chained(*old(store), hs, old(out)@),
                        step_weight(old(store).fun(x)),
                    ),
                ),
    {
        let zero = store.zero;
        let one = store.one;
        let ghost n = store.n();
        let ghost a0 = *self;
        let ghost st0 = *store;
        let ghost out0 = out@;
        proof {
            store.lemma_wf();
            self.lemma_wf_ext(*store, *store);
            self.lemma_normal(*store);
            lemma_one_zero(st0);
            lemma_append_const(st0, Some(items_of(a0.tbl(), st0, out0)), x);
        }
        if x == zero {
            proof {
                lemma_void_step(n, st0.fun(x));
                assert forall|hs: Fill|
                    void(
                        n,
                        weighed_cat(
                            n,
                            #[trigger] a0.chained(st0, hs, out0),
                            step_weight(st0.fun(x)),
                        ),
                    ) by {
                    lemma_void_cat(n, a0.chained(st0, hs, out0), step_weight(st0.fun(x)));
                }
            }
            return false;
        }
        if x == one {
            proof {
                assert forall|hs: Fill|
                    tight(
                        n,
                        weighed_cat(
                            n,
                            #[trigger] a0.chained(st0, hs, out0),
                            step_weight(st0.fun(x)),
                        ),
                        self.chained(*store, hs, out@),
                    ) by {
                    a0.lemma_list_ups(st0, hs, out0);
                    lemma_step_one(n, a0.chained(st0, hs, out0), st0.fun(x));
                }
            }
            return true;
        }
        if out.len() > 0 {
            let prev = out[out.len() - 1];
            let joined: Option<SPP> = match self.get_expr(prev) {
                AExpr::Spp(p) => Some(*p),
                _ => None,
            };
            if let Some(p) = joined {
                proof {
                    self.lemma_node(*store, prev);
                }
                out.pop();
                let ghost out1 = out@;
                assert(out0 =~= out1.push(prev));
                let combined = store.sequence(p, x);
                let ghost st1 = *store;
                proof {
                    store.lemma_wf();
                    self.lemma_wf_ext(*store, st0);
                    assert(composed(n, st0.fun(p), st0.fun(x), st1.fun(combined))) by {
                        assert forall|u: Pkt, v: Pkt|
                            #![trigger st1.fun(combined)(u, v)]
                            u.len() == n && v.len() == n implies (st1.fun(combined)(u, v)
                            <==> exists|m: Pkt|
                            #![trigger st0.fun(p)(u, m)]
                            m.len() == n && st0.fun(p)(u, m) && st0.fun(x)(m, v)) by {
                            if st1.rel(combined, u, v) {
                                let m = choose|m: Pkt|
                                    #![trigger st0.rel(p, u, m)]
                                    m.len() == n && st0.rel(p, u, m) && st0.rel(x, m, v);
                                assert(st0.fun(p)(u, m) && st0.fun(x)(m, v));
                            }
                            if exists|m: Pkt|
                                #![trigger st0.fun(p)(u, m)]
                                m.len() == n && st0.fun(p)(u, m) && st0.fun(x)(m, v) {
                                let m = choose|m: Pkt|
                                    #![trigger st0.fun(p)(u, m)]
                                    m.len() == n && st0.fun(p)(u, m) && st0.fun(x)(m, v);
                                assert(st0.rel(p, u, m) && st0.rel(x, m, v));
                            }
                        }
                    }
                    lemma_step_merge(n, st0.fun(p), st0.fun(x), st1.fun(combined));
                    assert forall|hs: Fill|
                        tight(
                            n,
                            weighed_cat(
                                n,
                                #[trigger] a0.chained(st0, hs, out0),
                                step_weight(st0.fun(x)),
                            ),
                            weighed_cat(
                                n,
                                self.chained(st1, hs, out1),
                                step_weight(st1.fun(combined)),
                            ),
                        ) by {
                        let w0 = a0.chained(st0, hs, out0);
                        let w1 = a0.chained(st0, hs, out1);
                        let wp = step_weight(st0.fun(p));
                        let wx = step_weight(st0.fun(x));
                        let wc = step_weight(st1.fun(combined));
                        assert(weights(a0.tbl(), st0, hs, prev) == wp);
                        a0.lemma_chain_push(st0, hs, out1, prev);
                        lemma_tight_both(n, wx, wx);
                        lemma_tight_both(n, wc, wc);
                        lemma_tight_both(n, w1, w1);
                        lemma_tight_cat(n, w0, wx, weighed_cat(n, w1, wp), wx);
                        lemma_weighed_assoc(n, w1, wp, wx);
                        let l = weighed_cat(n, weighed_cat(n, w1, wp), wx);
                        let r = weighed_cat(n, w1, weighed_cat(n, wp, wx));
                        lemma_tight_both(n, l, r);
                        lemma_tight_trans(n, weighed_cat(n, w0, wx), l, r);
                        lemma_tight_cat(n, w1, weighed_cat(n, wp, wx), w1, wc);
                        lemma_tight_trans(n, weighed_cat(n, w0, wx), r, weighed_cat(n, w1, wc));
                        self.lemma_chain_ext(st1, &a0, st0, hs, out1);
                        lemma_tight_cat(n, w1, wc, self.chained(st1, hs, out1), wc);
                        lemma_tight_trans(
                            n,
                            weighed_cat(n, w0, wx),
                            weighed_cat(n, w1, wc),
                            weighed_cat(n, self.chained(st1, hs, out1), wc),
                        );
                    }
                }
                if combined == zero {
                    proof {
                        lemma_append_join(
                            self.tbl(),
                            st1,
                            a0.tbl(),
                            st0,
                            out0,
                            p,
                            x,
                            combined,
                            0,
                        );
                        lemma_void_step(n, st1.fun(combined));
                        assert forall|hs: Fill|
                            void(
                                n,
                                weighed_cat(
                                    n,
                                    #[trigger] a0.chained(st0, hs, out0),
                                    step_weight(st0.fun(x)),
                                ),
                            ) by {
                            lemma_void_cat(
                                n,
                                self.chained(st1, hs, out1),
                                step_weight(st1.fun(combined)),
                            );
                        }
                    }
                    return false;
                }
                if combined == one {
                    proof {
                        lemma_append_join(
                            self.tbl(),
                            st1,
                            a0.tbl(),
                            st0,
                            out0,
                            p,
                            x,
                            combined,
                            0,
                        );
                        assert(out1 =~= out0.drop_last());
                        assert forall|hs: Fill|
                            tight(
                                n,
                                weighed_cat(
                                    n,
                                    #[trigger] a0.chained(st0, hs, out0),
                                    step_weight(st0.fun(x)),
                                ),
                                self.chained(st1, hs, out1),
                            ) by {
                            self.lemma_list_ups(st1, hs, out1);
                            lemma_step_one(
                                n,
                                self.chained(st1, hs, out1),
                                st1.fun(combined),
                            );
                            lemma_tight_trans(
                                n,
                                weighed_cat(
                                    n,
                                    a0.chained(st0, hs, out0),
                                    step_weight(st0.fun(x)),
                                ),
                                weighed_cat(
                                    n,
                                    self.chained(st1, hs, out1),
                                    step_weight(st1.fun(combined)),
                                ),
                                self.chained(st1, hs, out1),
                            );
                        }
                    }
                    return true;
                }
                let ghost a1 = *self;
                let c = self.mk_spp(combined, store);
                out.push(c);
                proof {
                    lemma_append_join(
                        self.tbl(),
                        st1,
                        a0.tbl(),
                        st0,
                        out0,
                        p,
                        x,
                        combined,
                        c,
                    );
                    assert(out1 =~= out0.drop_last());
                    self.lemma_keeps(st1, &a0, st0);
                    self.lemma_node(st1, c);
                    assert forall|hs: Fill|
                        tight(
                            n,
                            weighed_cat(
                                n,
                                #[trigger] a0.chained(st0, hs, out0),
                                step_weight(st0.fun(x)),
                            ),
                            self.chained(st1, hs, out@),
                        ) by {
                        let wc = step_weight(st1.fun(combined));
                        assert(weights(self.tbl(), st1, hs, c) == wc);
                        lemma_tight_both(n, wc, wc);
                        self.lemma_chain_ext(st1, &a1, st1, hs, out1);
                        self.lemma_chain_push(st1, hs, out1, c);
                        lemma_tight_cat(
                            n,
                            a1.chained(st1, hs, out1),
                            wc,
                            self.chained(st1, hs, out1),
                            wc,
                        );
                        let x0 = weighed_cat(
                            n,
                            a0.chained(st0, hs, out0),
                            step_weight(st0.fun(x)),
                        );
                        let x1 = weighed_cat(n, a1.chained(st1, hs, out1), wc);
                        let x2 = weighed_cat(n, self.chained(st1, hs, out1), wc);
                        lemma_tight_trans(n, x0, x1, x2);
                        lemma_tight_trans(n, x0, x2, self.chained(st1, hs, out@));
                    }
                }
                return true;
            }
        }
        let c = self.mk_spp(x, store);
        out.push(c);
        proof {
            lemma_append_new(self.tbl(), st0, a0.tbl(), st0, out0, x, c);
            self.lemma_node(st0, c);
            assert forall|hs: Fill|
                tight(
                    n,
                    weighed_cat(n, #[trigger] a0.chained(st0, hs, out0), step_weight(st0.fun(x))),
                    self.chained(st0, hs, out@),
                ) by {
                let wc = step_weight(st0.fun(x));
                assert(weights(self.tbl(), st0, hs, c) == wc);
                lemma_tight_both(n, wc, wc);
                self.lemma_chain_ext(st0, &a0, st0, hs, out0);
                self.lemma_chain_push(st0, hs, out0, c);
                let x1 = weighed_cat(n, a0.chained(st0, hs, out0), wc);
                let x2 = weighed_cat(n, self.chained(st0, hs, out0), wc);
                lemma_tight_cat(n, a0.chained(st0, hs, out0), wc, self.chained(st0, hs, out0), wc);
                lemma_tight_trans(n, x1, x2, self.chained(st0, hs, out@));
            }
        }
        true
    }
}


impl AutWithHoles {
    /// The sequence of the expressions of a list: nested sequences are written
    /// out, the empty relation takes all, the identity is left out and relations
    /// side by side are joined.  That of none is the identity.
    pub fn mk_sequence_n(&mut self, store: &mut SPPstore, states: &Vec<AExprIdx>) -> (r: AExprIdx)
        requires
            old(store).wf(),
            old(self).wf(old(store)),
            old(self).have(states@),
        ensures
            final(store).wf(),
            final(store).sp == old(store).sp,
            final(self).wf(final(store)),
            keeps(*old(self), *old(store), *final(self), *final(store)),
            same_holes(*old(self), *final(self)),
            final(self).has(r),
            states@.len() > 0 ==> forall|hs: Fill| #[trigger]
                sums_up(*old(self), *old(store), states@, *final(self), *final(store), r, hs),
            chain_of(final(self).tbl(), *final(store), r) == chain_list(
                old(self).tbl(),
                *old(store),
                states@,
                states@.len() as int,
            ),
            states@.len() == 0 ==> final(self).tbl()[r as int] == Node::Spp(final(store).one),
    {
        let ghost a0 = *self;
        let ghost st0 = *store;
        let ghost n = store.n();
        let zero = store.zero;
        let one = store.one;
        let flat = self.flatten_sequences(states, Ghost(*store));
        let mut out: Vec<AExprIdx> = Vec::new();
        let mut i: usize = 0;
        let ghost nil = Some(Seq::<Item>::empty());
        let ghost fs = items_of(a0.tbl(), st0, flat@);
        proof {
            store.lemma_wf();
            self.lemma_wf_ext(*store, *store);
            a0.lemma_normal(st0);
            lemma_one_zero(st0);
            assert(fs.take(0) =~= Seq::empty());
            assert(items_of(self.tbl(), *store, out@) =~= Seq::empty());
            assert forall|hs: Fill| #[trigger]
                stands(a0, st0, flat@.take(0), *self, *store, out@, hs) by {
                assert(flat@.take(0) =~= out@);
            }
        }
        while i < flat.len()
            invariant
                a0 == *old(self),
                st0 == *old(store),
                n == st0.n(),
                zero == st0.zero,
                one == st0.one,
                store.wf(),
                store.sp == st0.sp,
                a0.wf(&st0),
                self.wf(store),
                keeps(a0, st0, *self, *store),
                same_holes(a0, *self),
                flat_in(a0.tbl(), flat@),
                flat_in(self.tbl(), out@),
                i <= flat@.len(),
                st0.wf(),
                normal_table(a0.tbl(), st0),
                nil == Some(Seq::<Item>::empty()),
                fs == items_of(a0.tbl(), st0, flat@),
                push_items(n, nil, fs) == chain_list(
                    a0.tbl(),
                    st0,
                    states@,
                    states@.len() as int,
                ),
                push_items(n, nil, fs.take(i as int)) == Some(items_of(self.tbl(), *store, out@)),
                tidy_list(self.tbl(), *store, out@),
                forall|hs: Fill| #[trigger] stands(a0, st0, states@, a0, st0, flat@, hs),
                forall|hs: Fill| #[trigger]
                    stands(a0, st0, flat@.take(i as int), *self, *store, out@, hs),
            decreases flat.len() - i,
        {
            let s = flat[i];
            let ghost a1 = *self;
            let ghost st1 = *store;
            let ghost out1 = out@;
            let ghost t = flat@.take(i as int);
            proof {
                assert(a0.has(flat@[i as int]));
                assert(flat@.take(i + 1) =~= t.push(s));
                self.lemma_node(*store, s);
                assert(fs.take(i + 1).drop_last() =~= fs.take(i as int));
                assert(fs.take(i + 1).last() == item_of(a0.tbl(), st0, s));
                assert(a0.tbl()[s as int] == a1.tbl()[s as int]);
                if let Node::Spp(x) = a0.tbl()[s as int] {
                    lemma_relation_ext(st1, st0, x);
                }
                assert forall|hs: Fill|
                    tight(
                        n,
                        #[trigger] a0.chained(st0, hs, t.push(s)),
                        weighed_cat(
                            n,
                            a1.chained(st1, hs, out1),
                            weights(a1.tbl(), st1, hs, s),
                        ),
                    ) by {
                    assert(stands(a0, st0, t, a1, st1, out1, hs));
                    let w0 = weights(a0.tbl(), st0, hs, s);
                    let w1 = weights(a1.tbl(), st1, hs, s);
                    a0.lemma_chain_push(st0, hs, t, s);
                    lemma_weights_ext(a0.tbl(), st0, a1.tbl(), st1, hs, s);
                    lemma_tight_both(n, w0, w1);
                    lemma_tight_cat(n, a0.chained(st0, hs, t), w0, a1.chained(st1, hs, out1), w1);
                    lemma_tight_trans(
                        n,
                        a0.chained(st0, hs, t.push(s)),
                        weighed_cat(n, a0.chained(st0, hs, t), w0),
                        weighed_cat(n, a1.chained(st1, hs, out1), w1),
                    );
                }
            }
            let step: Option<SPP> = match self.get_expr(s) {
                AExpr::Spp(x) => Some(*x),
                _ => None,
            };
            match step {
                Some(x) => {
                    let live = self.append_step(store, &mut out, x);
                    if !live {
                        proof {
                            store.lemma_wf();
                            lemma_void_rest(n, fs, i + 1);
                        }
                        let ghost a2 = *self;
                        let r = self.mk_spp(zero, store);
                        proof {
                            self.lemma_keeps(*store, &a0, st0);
                            self.lemma_node(*store, r);
                            lemma_void_step(n, store.fun(zero));
                            lemma_append_const(*store, nil, zero);
                            assert forall|hs: Fill| #[trigger]
                                sums_up(a0, st0, states@, *self, *store, r, hs) by {
                                assert(stands(a0, st0, states@, a0, st0, flat@, hs));
                                assert(weights(a1.tbl(), st1, hs, s) == step_weight(st1.fun(x)));
                                assert(void(
                                    n,
                                    weighed_cat(
                                        n,
                                        a1.chained(st1, hs, out1),
                                        step_weight(st1.fun(x)),
                                    ),
                                ));
                                assert(tight(
                                    n,
                                    a0.chained(st0, hs, t.push(s)),
                                    weighed_cat(
                                        n,
                                        a1.chained(st1, hs, out1),
                                        step_weight(st1.fun(x)),
                                    ),
                                ));
                                assert(void(n, a0.chained(st0, hs, flat@.take(i + 1))));
                                a0.lemma_void_chain(st0, hs, flat@, i + 1);
                                let z = weights(self.tbl(), *store, hs, r);
                                assert(z == step_weight(store.fun(zero)));
                                assert(void(n, z));
                                assert forall|w: Word| is_word(n, w) implies !#[trigger] erase(z)(
                                    w,
                                ) by {
                                    if erase(z)(w) {
                                        let c = choose|c: nat| #[trigger] z(w, c);
                                    }
                                }
                                assert(void(n, a0.chained(st0, hs, states@)));
                            }
                        }
                        return r;
                    }
                    proof {
                        self.lemma_keeps(*store, &a0, st0);
                        assert forall|hs: Fill| #[trigger]
                            stands(a0, st0, flat@.take(i + 1), *self, *store, out@, hs) by {
                            assert(weights(a1.tbl(), st1, hs, s) == step_weight(st1.fun(x)));
                            assert(tight(
                                n,
                                a0.chained(st0, hs, t.push(s)),
                                weighed_cat(
                                    n,
                                    a1.chained(st1, hs, out1),
                                    step_weight(st1.fun(x)),
                                ),
                            ));
                            lemma_tight_trans(
                                n,
                                a0.chained(st0, hs, t.push(s)),
                                weighed_cat(
                                    n,
                                    a1.chained(st1, hs, out1),
                                    step_weight(st1.fun(x)),
                                ),
                                self.chained(*store, hs, out@),
                            );
                        }
                    }
                },
                None => {
                    out.push(s);
                    proof {
                        assert(!(a0.tbl()[flat@[i as int] as int] is Sequence));
                        lemma_append_part(a1.tbl(), st1, out1, s);
                        assert forall|hs: Fill| #[trigger]
                            stands(a0, st0, flat@.take(i + 1), *self, *store, out@, hs) by {
                            a1.lemma_chain_push(st1, hs, out1, s);
                            assert(tight(
                                n,
                                a0.chained(st0, hs, t.push(s)),
                                weighed_cat(
                                    n,
                                    a1.chained(st1, hs, out1),
                                    weights(a1.tbl(), st1, hs, s),
                                ),
                            ));
                            lemma_tight_trans(
                                n,
                                a0.chained(st0, hs, t.push(s)),
                                weighed_cat(
                                    n,
                                    a1.chained(st1, hs, out1),
                                    weights(a1.tbl(), st1, hs, s),
                                ),
                                a1.chained(st1, hs, out1.push(s)),
                            );
                        }
                    }
                },
            }
            i = i + 1;
        }
        let ghost a2 = *self;
        let ghost st2 = *store;
        proof {
            assert(flat@.take(i as int) =~= flat@);
            assert(fs.take(i as int) =~= fs);
            store.lemma_wf();
            self.lemma_wf_ext(*store, *store);
            assert forall|hs: Fill| #[trigger]
                stands(a0, st0, states@, a2, st2, out@, hs) by {
                assert(stands(a0, st0, states@, a0, st0, flat@, hs));
                assert(stands(a0, st0, flat@.take(i as int), a2, st2, out@, hs));
                lemma_tight_trans(
                    n,
                    a0.chained(st0, hs, states@),
                    a0.chained(st0, hs, flat@),
                    a2.chained(st2, hs, out@),
                );
            }
        }
        if out.len() == 0 {
            let r = self.mk_spp(one, store);
            proof {
                self.lemma_keeps(*store, &a0, st0);
                self.lemma_node(*store, r);
                self.lemma_normal(*store);
                lemma_chain_result(self.tbl(), *store, out@, r);
                assert(items_of(self.tbl(), *store, out@) =~= items_of(a2.tbl(), st2, out@));
                assert forall|hs: Fill| states@.len() > 0 implies #[trigger]
                    sums_up(a0, st0, states@, *self, *store, r, hs) by {
                    assert(stands(a0, st0, states@, a2, st2, out@, hs));
                    self.lemma_one_sums(&a0, st0, states@, *store, hs, r, &a2, st2, out@);
                }
            }
            return r;
        }
        if out.len() == 1 {
            let r = out[0];
            proof {
                self.lemma_normal(*store);
                assert(out@[0] < self.tbl().len());
                lemma_chain_result(self.tbl(), *store, out@, r);
                assert forall|hs: Fill| #[trigger]
                    sums_up(a0, st0, states@, *self, *store, r, hs) by {
                    assert(stands(a0, st0, states@, a2, st2, out@, hs));
                    assert(out@ =~= seq![r]);
                    self.lemma_chain_one(*store, hs, r);
                    lemma_tight_trans(
                        n,
                        a0.chained(st0, hs, states@),
                        a2.chained(st2, hs, out@),
                        weights(self.tbl(), *store, hs, r),
                    );
                }
            }
            return r;
        }
        let ghost ov = out@;
        proof {
            assert(normal(self.tbl(), *store, Node::Sequence(ov))) by {
                reveal(normal);
            }
        }
        let r = self.intern(AExpr::Sequence(out), Ghost(*store));
        proof {
            self.lemma_keeps(*store, &a0, st0);
            self.lemma_node(*store, r);
            self.lemma_normal(*store);
            a2.lemma_normal(st2);
            lemma_list_ext(self.tbl(), *store, a2.tbl(), st2, ov);
            lemma_items_ext(self.tbl(), *store, a2.tbl(), st2, ov);
            lemma_chain_result(self.tbl(), *store, ov, r);
            assert forall|hs: Fill| #[trigger]
                sums_up(a0, st0, states@, *self, *store, r, hs) by {
                assert(stands(a0, st0, states@, a2, st2, ov, hs));
                self.lemma_chain_ext(*store, &a2, st2, hs, ov);
                assert(weights(self.tbl(), *store, hs, r) == self.chained(*store, hs, ov));
                lemma_tight_trans(
                    n,
                    a0.chained(st0, hs, states@),
                    a2.chained(st2, hs, ov),
                    weights(self.tbl(), *store, hs, r),
                );
            }
        }
        r
    }

    /// The identity stands for a chain that has come to be empty.
    proof fn lemma_one_sums(
        &self,
        a0: &AutWithHoles,
        st0: SPPstore,
        states: Seq<AExprIdx>,
        st: SPPstore,
        hs: Fill,
        r: AExprIdx,
        a2: &AutWithHoles,
        st2: SPPstore,
        out: Seq<AExprIdx>,
    )
        requires
            a0.wf(&st0),
            states.len() > 0,
            st.wf(),
            st.n() == st0.n(),
            self.wf(&st),
            self.has(r),
            self.tbl()[r as int] == Node::Spp(st.one),
            out.len() == 0,
            stands(*a0, st0, states, *a2, st2, out, hs),
        ensures
            sums_up(*a0, st0, states, *self, st, r, hs),
    {
        let n = st.n();
        st.lemma_wf();
        self.lemma_node(st, r);
        let x = a0.chained(st0, hs, states);
        let z = weights(self.tbl(), st, hs, r);
        assert(z == step_weight(st.fun(st.one)));
        let u = a2.chained(st2, hs, out);
        assert(u == weighed_unit());
        assert forall|w: Word, c: nat| is_word(n, w) && #[trigger] x(w, c) implies z(w, c) by {
            assert(u(w, c));
            let ls = a0.list(st0, hs, states);
            let t = weighed_list(n, ls.skip(1));
            let (i, m, d) = choose|i: int, m: Pkt, d: nat| #[trigger]
                weighed_cut(n, ls[0], t, w, c, i, m, d);
            lemma_weights(a0.tbl(), st0, hs, states[0]);
            assert(ls[0] == weights(a0.tbl(), st0, hs, states[0]));
            assert(ls[0](front(w, i, m), d));
            assert(c >= 1);
            assert(st.fun(st.one)(w[0], w[1]));
        }
        assert forall|w: Word| is_word(n, w) && #[trigger] erase(z)(w) implies erase(x)(w) by {
            let c = choose|c: nat| #[trigger] z(w, c);
            assert(st.fun(st.one)(w[0], w[1]));
            assert(u(w, 0));
            assert(erase(u)(w));
        }
    }

    pub fn mk_sequence(&mut self, store: &mut SPPstore, e1: AExprIdx, e2: AExprIdx) -> (r: AExprIdx)
        requires
            old(store).wf(),
            old(self).wf(old(store)),
            old(self).has(e1),
            old(self).has(e2),
        ensures
            final(store).wf(),
            final(store).sp == old(store).sp,
            final(self).wf(final(store)),
            keeps(*old(self), *old(store), *final(self), *final(store)),
            same_holes(*old(self), *final(self)),
            final(self).has(r),
            forall|hs: Fill, w: Word|
                is_word(old(store).n(), w) ==> (#[trigger] final(self).accepts(
                    *final(store),
                    hs,
                    r,
                    w,
                ) <==> cat(
                    old(store).n(),
                    |v: Word| old(self).accepts(*old(store), hs, e1, v),
                    |v: Word| old(self).accepts(*old(store), hs, e2, v),
                )(w)),
            chain_of(final(self).tbl(), *final(store), r) == times(
                old(store).n(),
                chain_of(old(self).tbl(), *old(store), e1),
                chain_of(old(self).tbl(), *old(store), e2),
            ),
    {
        let mut v: Vec<AExprIdx> = Vec::new();
        v.push(e1);
        v.push(e2);
        let r = self.mk_sequence_n(store, &v);
        proof {
            let a0 = *old(self);
            let st0 = *old(store);
            let n = st0.n();
            a0.lemma_normal(st0);
            lemma_chain_two(a0.tbl(), st0, v@);
            assert forall|hs: Fill, w: Word| is_word(n, w) implies (#[trigger] self.accepts(
                *store,
                hs,
                r,
                w,
            ) <==> cat(
                n,
                |v: Word| a0.accepts(st0, hs, e1, v),
                |v: Word| a0.accepts(st0, hs, e2, v),
            )(w)) by {
                assert(sums_up(a0, st0, v@, *self, *store, r, hs));
                let w1 = weights(a0.tbl(), st0, hs, e1);
                let w2 = weights(a0.tbl(), st0, hs, e2);
                let l = a0.chained(st0, hs, v@);
                assert(v@ =~= seq![e1].push(e2));
                a0.lemma_chain_push(st0, hs, seq![e1], e2);
                a0.lemma_chain_one(st0, hs, e1);
                lemma_tight_both(n, w2, w2);
                let x = weighed_cat(n, a0.chained(st0, hs, seq![e1]), w2);
                let y = weighed_cat(n, w1, w2);
                lemma_tight_cat(n, a0.chained(st0, hs, seq![e1]), w2, w1, w2);
                lemma_tight_cat(n, w1, w2, a0.chained(st0, hs, seq![e1]), w2);
                lemma_erase_cat(n, w1, w2);
                self.lemma_erased(*store, hs, r, w);
                lemma_erase_within(n, l, weights(self.tbl(), *store, hs, r), w);
                lemma_erase_within(n, l, x, w);
                lemma_erase_within(n, x, l, w);
                lemma_erase_within(n, x, y, w);
                lemma_erase_within(n, y, x, w);
                let f1 = |v: Word| a0.accepts(st0, hs, e1, v);
                let f2 = |v: Word| a0.accepts(st0, hs, e2, v);
                assert(same(n, f1, erase(w1))) by {
                    assert forall|u: Word| is_word(n, u) implies f1(u) == erase(w1)(u) by {
                        a0.lemma_erased(st0, hs, e1, u);
                    }
                }
                assert(same(n, f2, erase(w2))) by {
                    assert forall|u: Word| is_word(n, u) implies f2(u) == erase(w2)(u) by {
                        a0.lemma_erased(st0, hs, e2, u);
                    }
                }
                lemma_cat_same(n, f1, f2, erase(w1), erase(w2));
                assert(cat(n, f1, f2)(w) == cat(n, erase(w1), erase(w2))(w));
                assert(erase(y)(w) == cat(n, erase(w1), erase(w2))(w));
            }
        }
        r
    }
}

proof fn lemma_erase_within(n: nat, a: Weighed, b: Weighed, w: Word)
    requires
        tight(n, a, b),
        is_word(n, w),
    ensures
        erase(a)(w) == erase(b)(w),
{
    if erase(a)(w) {
        let c = choose|c: nat| #[trigger] a(w, c);
        assert(b(w, c));
    }
}


impl AutWithHoles {
    proof fn lemma_some_push(
        &self,
        st: SPPstore,
        hs: Fill,
        v: Seq<AExprIdx>,
        s: AExprIdx,
        w: Word,
    )
        ensures
            self.some(st, hs, v.push(s), w) == (self.some(st, hs, v, w) || self.accepts(
                st,
                hs,
                s,
                w,
            )),
    {
        let u = v.push(s);
        if self.some(st, hs, v, w) {
            let i = choose|i: int| 0 <= i < v.len() && self.accepts(st, hs, #[trigger] v[i], w);
            assert(u[i] == v[i]);
        }
        if self.accepts(st, hs, s, w) {
            assert(u[v.len() as int] == s);
        }
        if self.some(st, hs, u, w) {
            let i = choose|i: int| 0 <= i < u.len() && self.accepts(st, hs, #[trigger] u[i], w);
            if i < v.len() {
                assert(v[i] == u[i]);
            }
        }
    }

    proof fn lemma_some_add(
        &self,
        st: SPPstore,
        hs: Fill,
        v: Seq<AExprIdx>,
        u: Seq<AExprIdx>,
        w: Word,
    )
        ensures
            self.some(st, hs, v + u, w) == (self.some(st, hs, v, w) || self.some(st, hs, u, w)),
    {
        let t = v + u;
        if self.some(st, hs, v, w) {
            let i = choose|i: int| 0 <= i < v.len() && self.accepts(st, hs, #[trigger] v[i], w);
            assert(t[i] == v[i]);
        }
        if self.some(st, hs, u, w) {
            let i = choose|i: int| 0 <= i < u.len() && self.accepts(st, hs, #[trigger] u[i], w);
            assert(t[v.len() + i] == u[i]);
        }
        if self.some(st, hs, t, w) {
            let i = choose|i: int| 0 <= i < t.len() && self.accepts(st, hs, #[trigger] t[i], w);
            if i < v.len() {
                assert(v[i] == t[i]);
            } else {
                assert(u[i - v.len()] == t[i]);
            }
        }
    }

    proof fn lemma_some_set(
        &self,
        st: SPPstore,
        hs: Fill,
        v: Seq<AExprIdx>,
        u: Seq<AExprIdx>,
        w: Word,
    )
        requires
            forall|x: AExprIdx|
                #![trigger v.contains(x)]
                #![trigger u.contains(x)]
                v.contains(x) <==> u.contains(x),
        ensures
            self.some(st, hs, v, w) == self.some(st, hs, u, w),
    {
        if self.some(st, hs, v, w) {
            let i = choose|i: int| 0 <= i < v.len() && self.accepts(st, hs, #[trigger] v[i], w);
            assert(v.contains(v[i]));
            let j = choose|j: int| 0 <= j < u.len() && u[j] == v[i];
            assert(self.accepts(st, hs, u[j], w));
        }
        if self.some(st, hs, u, w) {
            let i = choose|i: int| 0 <= i < u.len() && self.accepts(st, hs, #[trigger] u[i], w);
            assert(u.contains(u[i]));
            let j = choose|j: int| 0 <= j < v.len() && v[j] == u[i];
            assert(self.accepts(st, hs, v[j], w));
        }
    }

    proof fn lemma_some_ext(
        &self,
        st: SPPstore,
        o: &AutWithHoles,
        st0: SPPstore,
        hs: Fill,
        v: Seq<AExprIdx>,
        w: Word,
    )
        requires
            keeps(*o, st0, *self, st),
            o.have(v),
            is_word(st0.n(), w),
        ensures
            self.some(st, hs, v, w) == o.some(st0, hs, v, w),
    {
        if self.some(st, hs, v, w) {
            let i = choose|i: int| 0 <= i < v.len() && self.accepts(st, hs, #[trigger] v[i], w);
            assert(o.accepts(st0, hs, v[i], w));
        }
        if o.some(st0, hs, v, w) {
            let i = choose|i: int| 0 <= i < v.len() && o.accepts(st0, hs, #[trigger] v[i], w);
            assert(self.accepts(st, hs, v[i], w));
        }
    }

    proof fn lemma_spp_accepts(&self, st: SPPstore, hs: Fill, s: AExprIdx, x: SPP, w: Word)
        requires
            self.wf(&st),
            self.has(s),
            self.tbl()[s as int] == Node::Spp(x),
        ensures
            self.accepts(st, hs, s, w) == once(st.fun(x))(w),
    {
        self.lemma_node(st, s);
        assert(weights(self.tbl(), st, hs, s) == step_weight(st.fun(x)));
        if once(st.fun(x))(w) {
            assert(self.takes(st, hs, s, w, 1));
        }
    }

    /// The expressions of a list, with each union in it written out.
    fn flatten_unions(&self, states: &Vec<AExprIdx>, st: Ghost<SPPstore>) -> (flat: Vec<AExprIdx>)
        requires
            self.wf(&st@),
            st@.wf(),
            self.have(states@),
        ensures
            flat_sum(self.tbl(), st@, flat@) == sum_list(
                self.tbl(),
                st@,
                states@,
                states@.len() as int,
            ),
            forall|k: int| 0 <= k < flat@.len() ==> !(self.tbl()[#[trigger] flat@[k] as int] is Union),
            self.have(flat@),
            forall|hs: Fill, w: Word| #[trigger]
                self.some(st@, hs, flat@, w) <==> self.some(st@, hs, states@, w),
    {
        let mut flat: Vec<AExprIdx> = Vec::new();
        let mut i: usize = 0;
        proof {
            self.lemma_normal(st@);
            lemma_flat_none(self.tbl(), st@);
            assert(flat@ =~= Seq::empty());
        }
        while i < states.len()
            invariant
                normal_table(self.tbl(), st@),
                flat_sum(self.tbl(), st@, flat@) == sum_list(self.tbl(), st@, states@, i as int),
                forall|k: int|
                    0 <= k < flat@.len() ==> !(self.tbl()[#[trigger] flat@[k] as int] is Union),
                self.wf(&st@),
                self.have(states@),
                i <= states@.len(),
                self.have(flat@),
                forall|hs: Fill, w: Word| #[trigger]
                    self.some(st@, hs, flat@, w) <==> self.some(
                        st@,
                        hs,
                        states@.take(i as int),
                        w,
                    ),
            decreases states.len() - i,
        {
            let s = states[i];
            let ghost f0 = flat@;
            proof {
                self.lemma_node(st@, s);
                assert(normal(self.tbl(), st@, self.tbl()[s as int]));
                reveal(normal);
            }
            let ghost added = match self.tbl()[s as int] {
                Node::Union(v) => v,
                _ => seq![s],
            };
            match self.get_expr(s) {
                AExpr::Union(children) => {
                    let mut j: usize = 0;
                    while j < children.len()
                        invariant
                            j <= children@.len(),
                            self.have(children@),
                            self.have(flat@),
                            flat@ == f0 + children@.take(j as int),
                        decreases children.len() - j,
                    {
                        flat.push(children[j]);
                        j = j + 1;
                        assert(f0 + children@.take(j as int) =~= (f0 + children@.take(j - 1)).push(
                            children@[j - 1],
                        ));
                    }
                    proof {
                        assert(children@.take(j as int) =~= children@);
                        assert forall|hs: Fill, w: Word| #[trigger]
                            self.some(st@, hs, flat@, w) <==> self.some(st@, hs, f0, w)
                                || self.accepts(st@, hs, s, w) by {
                            self.lemma_union(st@, hs, s, children@, w);
                            self.lemma_some_add(st@, hs, f0, children@, w);
                        }
                    }
                },
                _ => {
                    flat.push(s);
                    proof {
                        assert forall|hs: Fill, w: Word| #[trigger]
                            self.some(st@, hs, flat@, w) <==> self.some(st@, hs, f0, w)
                                || self.accepts(st@, hs, s, w) by {
                            self.lemma_some_push(st@, hs, f0, s, w);
                        }
                    }
                },
            }
            proof {
                assert(flat@ =~= f0 + added);
                lemma_flat_add(self.tbl(), st@, f0, added);
                assert forall|k: int| 0 <= k < flat@.len() implies !(
                self.tbl()[#[trigger] flat@[k] as int] is Union) by {
                    if k < f0.len() {
                        assert(flat@[k] == f0[k]);
                    } else {
                        assert(flat@[k] == added[k - f0.len()]);
                    }
                }
                assert(states@.take(i + 1) =~= states@.take(i as int).push(s));
                assert forall|hs: Fill, w: Word| #[trigger]
                    self.some(st@, hs, flat@, w) <==> self.some(
                        st@,
                        hs,
                        states@.take(i + 1),
                        w,
                    ) by {
                    assert(self.some(st@, hs, f0, w) <==> self.some(
                        st@,
                        hs,
                        states@.take(i as int),
                        w,
                    ));
                    self.lemma_some_push(st@, hs, states@.take(i as int), s, w);
                }
            }
            i = i + 1;
        }
        assert(states@.take(i as int) =~= states@);
        flat
    }

    /// The union of the expressions of a list: nested unions are written out, the
    /// relations are united and nothing is listed twice.
    pub fn mk_union_n(&mut self, store: &mut SPPstore, states: &Vec<AExprIdx>) -> (r: AExprIdx)
        requires
            old(store).wf(),
            old(self).wf(old(store)),
            old(self).have(states@),
        ensures
            final(store).wf(),
            final(store).sp == old(store).sp,
            final(self).wf(final(store)),
            keeps(*old(self), *old(store), *final(self), *final(store)),
            same_holes(*old(self), *final(self)),
            final(self).has(r),
            forall|hs: Fill, w: Word|
                is_word(old(store).n(), w) ==> (#[trigger] final(self).accepts(
                    *final(store),
                    hs,
                    r,
                    w,
                ) <==> old(self).some(*old(store), hs, states@, w)),
            sum_of(final(self).tbl(), *final(store), r) == sum_list(
                old(self).tbl(),
                *old(store),
                states@,
                states@.len() as int,
            ),
    {
        let ghost a0 = *self;
        let ghost st0 = *store;
        let ghost n = store.n();
        let flat = self.flatten_unions(states, Ghost(*store));
        proof {
            store.lemma_wf();
            self.lemma_wf_ext(*store, *store);
        }
        let zero = store.zero;
        let mut combined = zero;
        let mut others: Vec<AExprIdx> = Vec::new();
        let mut i: usize = 0;
        proof {
            a0.lemma_normal(st0);
            lemma_relation_once(st0, zero, zero);
            lemma_flat_none(a0.tbl(), st0);
            assert(flat@.take(0) =~= Seq::empty());
        }
        while i < flat.len()
            invariant
                st0.wf(),
                relations_known(a0.tbl(), st0),
                forall|x: AExprIdx| #[trigger]
                    others@.contains(x) <==> is_part(a0.tbl(), flat@.take(i as int), x),
                relation(*store, combined) == flat_sum(a0.tbl(), st0, flat@.take(i as int)).rel,
                *self == a0,
                a0 == *old(self),
                st0 == *old(store),
                n == st0.n(),
                zero == st0.zero,
                store.wf(),
                store.sp == st0.sp,
                store.extends(&st0),
                a0.wf(&st0),
                a0.have(flat@),
                a0.have(others@),
                i <= flat@.len(),
                store.has(combined),
                store.consts(),
                forall|hs: Fill, w: Word|
                    is_word(n, w) ==> (#[trigger] a0.some(st0, hs, flat@.take(i as int), w)
                        <==> a0.some(st0, hs, others@, w) || once(store.fun(combined))(w)),
            decreases flat.len() - i,
        {
            let s = flat[i];
            let ghost st1 = *store;
            let ghost others0 = others@;
            let ghost combined0 = combined;
            let joined: Option<SPP> = match self.get_expr(s) {
                AExpr::Spp(x) => Some(*x),
                _ => None,
            };
            proof {
                a0.lemma_node(st0, s);
            }
            match joined {
                Some(x) => {
                    combined = store.union(combined, x);
                },
                None => {
                    others.push(s);
                },
            }
            proof {
                store.lemma_wf();
                assert(flat@.take(i + 1) =~= flat@.take(i as int).push(s));
                assert(in_table(a0.tbl(), flat@.take(i as int))) by {
                    assert forall|k: int| 0 <= k < i implies #[trigger] flat@.take(
                        i as int,
                    )[k] < a0.tbl().len() by {
                        assert(a0.has(flat@[k]));
                    }
                }
                lemma_gather(
                    a0.tbl(),
                    st0,
                    st1,
                    *store,
                    flat@.take(i as int),
                    others0,
                    combined0,
                    combined,
                    s,
                );
                assert forall|hs: Fill, w: Word| is_word(n, w) implies (#[trigger] a0.some(
                    st0,
                    hs,
                    flat@.take(i + 1),
                    w,
                ) <==> a0.some(st0, hs, others@, w) || once(store.fun(combined))(w)) by {
                    a0.lemma_some_push(st0, hs, flat@.take(i as int), s, w);
                    a0.lemma_some_push(st0, hs, others0, s, w);
                    assert(a0.some(st0, hs, flat@.take(i as int), w) <==> a0.some(
                        st0,
                        hs,
                        others0,
                        w,
                    ) || once(st1.fun(combined0))(w));
                    if let Some(x) = joined {
                        a0.lemma_spp_accepts(st0, hs, s, x, w);
                        assert(st0.rel(x, w[0], w[1]) == st1.rel(x, w[0], w[1]));
                    }
                }
            }
            i = i + 1;
        }
        proof {
            assert(flat@.take(i as int) =~= flat@);
            self.lemma_wf_ext(*store, st0);
        }
        let ghost mid = *self;
        let ghost others1 = others@;
        if combined != zero {
            let s = self.mk_spp(combined, store);
            others.push(s);
        }
        proof {
            self.lemma_keeps(*store, &a0, st0);
            assert forall|hs: Fill, w: Word| is_word(n, w) implies (#[trigger] self.some(
                *store,
                hs,
                others@,
                w,
            ) <==> a0.some(st0, hs, states@, w)) by {
                assert(a0.some(st0, hs, flat@, w) <==> a0.some(st0, hs, states@, w));
                self.lemma_some_ext(*store, &a0, st0, hs, others1, w);
                assert(a0.some(st0, hs, flat@.take(i as int), w) <==> a0.some(
                    st0,
                    hs,
                    others1,
                    w,
                ) || once(store.fun(combined))(w));
                if combined != zero {
                    self.lemma_some_push(*store, hs, others1, others@.last(), w);
                    assert(others@ =~= others1.push(others@.last()));
                    assert(self.accepts(*store, hs, others@.last(), w) <==> once(
                        store.fun(combined),
                    )(w));
                }
            }
        }
        let sorted = sorted_states(&others);
        let ghost last = *self;
        proof {
            self.lemma_normal(*store);
            assert(in_table(a0.tbl(), flat@)) by {
                assert forall|k: int| 0 <= k < flat@.len() implies #[trigger] flat@[k]
                    < a0.tbl().len() by {
                    assert(a0.has(flat@[k]));
                }
            }
            lemma_gathered(
                self.tbl(),
                *store,
                a0.tbl(),
                st0,
                flat@,
                others1,
                combined,
                others@,
                sorted@,
            );
            assert forall|k: int| 0 <= k < sorted@.len() implies self.has(#[trigger] sorted@[k]) by {
                assert(sorted@.contains(sorted@[k]));
                let j = choose|j: int| 0 <= j < others@.len() && others@[j] == sorted@[k];
                assert(self.has(others@[j]));
            }
            assert forall|hs: Fill, w: Word| is_word(n, w) implies (#[trigger] last.some(
                *store,
                hs,
                sorted@,
                w,
            ) <==> a0.some(st0, hs, states@, w)) by {
                self.lemma_some_set(*store, hs, sorted@, others@, w);
                assert(self.some(*store, hs, others@, w) <==> a0.some(st0, hs, states@, w));
            }
        }
        if sorted.len() == 0 {
            let r = self.mk_spp(zero, store);
            proof {
                self.lemma_normal(*store);
                lemma_flat_ext(self.tbl(), *store, last.tbl(), *store, sorted@);
                lemma_tidy_sum_ext(self.tbl(), *store, last.tbl(), *store, sorted@);
                lemma_sum_result(self.tbl(), *store, sorted@, r);
                self.lemma_keeps(*store, &a0, st0);
                assert forall|hs: Fill, w: Word| is_word(n, w) implies (#[trigger] self.accepts(
                    *store,
                    hs,
                    r,
                    w,
                ) <==> a0.some(st0, hs, states@, w)) by {
                    assert(last.some(*store, hs, sorted@, w) <==> a0.some(st0, hs, states@, w));
                    assert(store.fun(zero)(w[0], w[1]) == store.rel(zero, w[0], w[1]));
                }
            }
            return r;
        }
        if sorted.len() == 1 {
            let r = sorted[0];
            proof {
                assert(sorted@[0] < self.tbl().len());
                lemma_sum_result(self.tbl(), *store, sorted@, r);
                assert forall|hs: Fill, w: Word| is_word(n, w) implies (#[trigger] self.accepts(
                    *store,
                    hs,
                    r,
                    w,
                ) <==> a0.some(st0, hs, states@, w)) by {
                    assert(last.some(*store, hs, sorted@, w) <==> a0.some(st0, hs, states@, w));
                    assert(sorted@[0] == r);
                }
            }
            return r;
        }
        let ghost sv = sorted@;
        proof {
            self.lemma_wf_ext(*store, *store);
            assert(below(Node::Union(sv), self.tbl().len() as int));
            assert(normal(self.tbl(), *store, Node::Union(sv))) by {
                reveal(normal);
            }
        }
        let r = self.intern(AExpr::Union(sorted), Ghost(*store));
        proof {
            self.lemma_normal(*store);
            lemma_flat_ext(self.tbl(), *store, last.tbl(), *store, sv);
            lemma_tidy_sum_ext(self.tbl(), *store, last.tbl(), *store, sv);
            lemma_sum_result(self.tbl(), *store, sv, r);
            self.lemma_keeps(*store, &a0, st0);
            assert forall|hs: Fill, w: Word| is_word(n, w) implies (#[trigger] self.accepts(
                *store,
                hs,
                r,
                w,
            ) <==> a0.some(st0, hs, states@, w)) by {
                assert(last.some(*store, hs, sv, w) <==> a0.some(st0, hs, states@, w));
                self.lemma_union(*store, hs, r, sv, w);
                self.lemma_some_ext(*store, &last, *store, hs, sv, w);
            }
        }
        r
    }

    pub fn mk_union(&mut self, store: &mut SPPstore, e1: AExprIdx, e2: AExprIdx) -> (r: AExprIdx)
        requires
            old(store).wf(),
            old(self).wf(old(store)),
            old(self).has(e1),
            old(self).has(e2),
        ensures
            final(store).wf(),
            final(store).sp == old(store).sp,
            final(self).wf(final(store)),
            keeps(*old(self), *old(store), *final(self), *final(store)),
            same_holes(*old(self), *final(self)),
            final(self).has(r),
            forall|hs: Fill, w: Word|
                is_word(old(store).n(), w) ==> (#[trigger] final(self).accepts(
                    *final(store),
                    hs,
                    r,
                    w,
                ) <==> old(self).accepts(*old(store), hs, e1, w) || old(self).accepts(
                    *old(store),
                    hs,
                    e2,
                    w,
                )),
            sum_of(final(self).tbl(), *final(store), r) == plus(
                sum_of(old(self).tbl(), *old(store), e1),
                sum_of(old(self).tbl(), *old(store), e2),
            ),
    {
        let mut v: Vec<AExprIdx> = Vec::new();
        v.push(e1);
        v.push(e2);
        let r = self.mk_union_n(store, &v);
        proof {
            let a0 = *old(self);
            let st0 = *old(store);
            lemma_sum_two(a0.tbl(), st0, v@);
            assert forall|hs: Fill, w: Word| is_word(st0.n(), w) implies (#[trigger] self.accepts(
                *store,
                hs,
                r,
                w,
            ) <==> a0.accepts(st0, hs, e1, w) || a0.accepts(st0, hs, e2, w)) by {
                assert(a0.some(st0, hs, v@, w) <==> a0.accepts(st0, hs, e1, w) || a0.accepts(
                    st0,
                    hs,
                    e2,
                    w,
                )) by {
                    assert(v@[0] == e1 && v@[1] == e2);
                }
            }
        }
        r
    }

    /// Any number of repetitions: those of repetitions are the same, and those of a
    /// relation are a relation.
    pub fn mk_star(&mut self, store: &mut SPPstore, e: AExprIdx) -> (r: AExprIdx)
        requires
            old(store).wf(),
            old(self).wf(old(store)),
            old(self).has(e),
        ensures
            final(store).wf(),
            final(store).sp == old(store).sp,
            final(self).wf(final(store)),
            keeps(*old(self), *old(store), *final(self), *final(store)),
            same_holes(*old(self), *final(self)),
            final(self).has(r),
            forall|hs: Fill, w: Word|
                is_word(old(store).n(), w) ==> (#[trigger] final(self).accepts(
                    *final(store),
                    hs,
                    r,
                    w,
                ) <==> star(
                    old(store).n(),
                    |v: Word| old(self).accepts(*old(store), hs, e, v),
                )(w)),
            repeats(final(self).tbl(), *final(store), e, r),
    {
        let ghost a0 = *self;
        let ghost st0 = *store;
        let ghost n = store.n();
        proof {
            store.lemma_wf();
            self.lemma_wf_ext(*store, *store);
            self.lemma_node(*store, e);
        }
        let (done, step): (bool, Option<SPP>) = match self.get_expr(e) {
            AExpr::Star(_) => (true, None),
            AExpr::Spp(s) => (false, Some(*s)),
            _ => (false, None),
        };
        if done {
            proof {
                let inner = self.tbl()[e as int]->Star_0;
                assert(self.tbl()[e as int] == Node::Star(inner));
                assert forall|hs: Fill, w: Word| is_word(n, w) implies (#[trigger] self.accepts(
                    *store,
                    hs,
                    e,
                    w,
                ) <==> star(n, |v: Word| a0.accepts(st0, hs, e, v))(w)) by {
                    let f = |v: Word| a0.accepts(st0, hs, e, v);
                    let x = weights(a0.tbl(), st0, hs, inner);
                    a0.lemma_star_words(st0, hs, e, inner);
                    lemma_star_same_lang(n, f, star(n, erase(x)));
                    lemma_star_star(n, erase(x));
                    assert(f(w) == star(n, erase(x))(w));
                    assert(star(n, star(n, erase(x)))(w) == star(n, erase(x))(w));
                    assert(star(n, f)(w) == star(n, star(n, erase(x)))(w));
                }
            }
            return e;
        }
        match step {
            Some(s) => {
                let t = store.star(s);
                proof {
                    self.lemma_wf_ext(*store, st0);
                }
                let ghost a1 = *self;
                let r = self.mk_spp(t, store);
                proof {
                    assert(self.tbl()[e as int] == a0.tbl()[e as int]);
                    let f = st0.fun(s);
                    let g = relation(*store, s);
                    assert forall|p: Pkt, q: Pkt| p.len() == n && q.len() == n implies (
                    #[trigger] store.rel(t, p, q) <==> star_of(g, n, p, q)) by {
                        assert forall|x: Pkt, y: Pkt|
                            #![trigger f(x, y)]
                            x.len() == n && y.len() == n implies f(x, y) == g(x, y) by {
                            assert(store.rel(s, x, y) == st0.rel(s, x, y));
                        }
                        lemma_star_same(f, g, n, p, q);
                    }
                    self.lemma_keeps(*store, &a0, st0);
                    assert forall|hs: Fill, w: Word| is_word(n, w) implies (#[trigger] self.accepts(
                        *store,
                        hs,
                        r,
                        w,
                    ) <==> star(n, |v: Word| a0.accepts(st0, hs, e, v))(w)) by {
                        let f = |v: Word| a0.accepts(st0, hs, e, v);
                        let g = once(st0.fun(s));
                        assert(same(n, f, g)) by {
                            assert forall|u: Word| is_word(n, u) implies f(u) == g(u) by {
                                a0.lemma_spp_accepts(st0, hs, e, s, u);
                            }
                        }
                        lemma_star_same_lang(n, f, g);
                        assert(star(n, f)(w) == star(n, g)(w));
                        lemma_star_once(n, st0.fun(s), w);
                        assert(self.accepts(*store, hs, r, w) <==> once(store.fun(t))(w));
                    }
                }
                r
            },
            None => {
                proof {
                    reveal(normal);
                }
                let r = self.intern(AExpr::Star(e), Ghost(*store));
                proof {
                    assert(self.tbl()[e as int] == a0.tbl()[e as int]);
                    self.lemma_keeps(*store, &a0, st0);
                    assert forall|hs: Fill, w: Word| is_word(n, w) implies (#[trigger] self.accepts(
                        *store,
                        hs,
                        r,
                        w,
                    ) <==> star(n, |v: Word| a0.accepts(st0, hs, e, v))(w)) by {
                        let f = |v: Word| a0.accepts(st0, hs, e, v);
                        let x = weights(self.tbl(), st0, hs, e);
                        self.lemma_star_words(st0, hs, r, e);
                        assert(same(n, f, erase(x))) by {
                            assert forall|u: Word| is_word(n, u) implies f(u) == erase(x)(u) by {
                                self.lemma_erased(st0, hs, e, u);
                                assert(a0.accepts(st0, hs, e, u) == self.accepts(st0, hs, e, u));
                            }
                        }
                        lemma_star_same_lang(n, f, erase(x));
                        assert(star(n, f)(w) == star(n, erase(x))(w));
                    }
                }
                r
            },
        }
    }

    /// The words of a repetition.
    proof fn lemma_star_words(&self, st: SPPstore, hs: Fill, s: AExprIdx, a: AExprIdx)
        requires
            self.wf(&st),
            self.has(s),
            self.tbl()[s as int] == Node::Star(a),
        ensures
            same(
                st.n(),
                |v: Word| self.accepts(st, hs, s, v),
                star(st.n(), erase(weights(self.tbl(), st, hs, a))),
            ),
    {
        self.lemma_node(st, s);
        let x = weights(self.tbl(), st, hs, a);
        lemma_erase_star(st.n(), x);
        assert(weights(self.tbl(), st, hs, s) == weighed_star(st.n(), x));
        let f = |v: Word| self.accepts(st, hs, s, v);
        assert forall|u: Word| is_word(st.n(), u) implies f(u) == star(st.n(), erase(x))(u) by {
            self.lemma_erased(st, hs, s, u);
            assert(erase(weighed_star(st.n(), x))(u) == star(st.n(), erase(x))(u));
        }
    }
}


// ---- derivatives ---------------------------------------------------------------------

/// The expression begins with a relation, a hole or a recorded packet.
pub open spec fn headed(tbl: Seq<Node>, s: AExprIdx) -> bool {
    s < tbl.len() && match tbl[s as int] {
        Node::Spp(_) => true,
        Node::Hole(_) => true,
        Node::Dup => true,
        Node::Union(_) => false,
        Node::Sequence(v) => v[0] < tbl.len() && match tbl[v[0] as int] {
            Node::Spp(_) => true,
            Node::Hole(_) => true,
            Node::Dup => true,
            _ => false,
        },
        Node::Star(_) => false,
    }
}

/// Every word of `s` within a bound is one of the list within a smaller bound.
pub open spec fn spreads(
    a: AutWithHoles,
    st: SPPstore,
    s: AExprIdx,
    v: Seq<AExprIdx>,
) -> bool {
    forall|hs: Fill, w: Word, c: nat|
        is_word(st.n(), w) && #[trigger] a.takes(st, hs, s, w, c) ==> c >= 1 && a.one_takes(
            st,
            hs,
            v,
            w,
            (c - 1) as nat,
        )
}

/// The heads have between them the words of `s`.
pub open spec fn splits(a: AutWithHoles, st: SPPstore, s: AExprIdx, v: Seq<AExprIdx>) -> bool {
    &&& forall|j: int| 0 <= j < v.len() ==> headed(a.tbl(), #[trigger] v[j])
    &&& forall|hs: Fill, w: Word, c: nat|
        is_word(st.n(), w) && #[trigger] a.takes(st, hs, s, w, c) ==> a.one_takes(st, hs, v, w, c)
    &&& a.inside(st, s, v)
}

impl AutWithHoles {
    /// Some expression of the list has the word within the bound.
    pub open spec fn one_takes(
        &self,
        st: SPPstore,
        hs: Fill,
        v: Seq<AExprIdx>,
        w: Word,
        c: nat,
    ) -> bool {
        exists|j: int| 0 <= j < v.len() && self.takes(st, hs, #[trigger] v[j], w, c)
    }

    /// The words of the list are words of `s`.
    pub open spec fn inside(&self, st: SPPstore, s: AExprIdx, v: Seq<AExprIdx>) -> bool {
        forall|hs: Fill, w: Word, j: int|
            #![trigger self.accepts(st, hs, v[j], w)]
            is_word(st.n(), w) && 0 <= j < v.len() && self.accepts(st, hs, v[j], w)
                ==> self.accepts(st, hs, s, w)
    }

    proof fn lemma_up(&self, st: SPPstore, hs: Fill, s: AExprIdx, w: Word, c: nat, d: nat)
        requires
            self.wf(&st),
            self.takes(st, hs, s, w, c),
            c <= d,
        ensures
            self.takes(st, hs, s, w, d),
            c >= 1,
    {
        lemma_weights(self.tbl(), st, hs, s);
        assert(weights(self.tbl(), st, hs, s)(w, c));
        assert(weights(self.tbl(), st, hs, s)(w, d));
    }

    /// Spreading is kept when the automaton and the list grow.
    proof fn lemma_spreads_ext(
        &self,
        st: SPPstore,
        o: &AutWithHoles,
        st0: SPPstore,
        s: AExprIdx,
        v: Seq<AExprIdx>,
        u: Seq<AExprIdx>,
    )
        requires
            keeps(*o, st0, *self, st),
            o.has(s),
            o.have(v),
            spreads(*o, st0, s, v),
            forall|x: AExprIdx| #[trigger] v.contains(x) ==> u.contains(x),
        ensures
            spreads(*self, st, s, u),
    {
        assert forall|hs: Fill, w: Word, c: nat|
            is_word(st.n(), w) && #[trigger] self.takes(st, hs, s, w, c) implies c >= 1
            && self.one_takes(st, hs, u, w, (c - 1) as nat) by {
            assert(o.takes(st0, hs, s, w, c));
            let d = (c - 1) as nat;
            assert(o.one_takes(st0, hs, v, w, d));
            let j = choose|j: int| 0 <= j < v.len() && o.takes(st0, hs, #[trigger] v[j], w, d);
            assert(v.contains(v[j]));
            let k = choose|k: int| 0 <= k < u.len() && u[k] == v[j];
            assert(self.takes(st, hs, u[k], w, d));
        }
    }

    /// The list with another first.
    fn with_first(first: AExprIdx, rest: &Vec<AExprIdx>) -> (r: Vec<AExprIdx>)
        requires
            rest@.len() > 0,
        ensures
            r@ == seq![first] + rest@.skip(1),
    {
        let mut r: Vec<AExprIdx> = Vec::new();
        r.push(first);
        let mut i: usize = 1;
        assert(r@ =~= seq![first] + rest@.skip(1).take(0));
        while i < rest.len()
            invariant
                1 <= i <= rest@.len(),
                r@ == seq![first] + rest@.skip(1).take(i - 1),
            decreases rest.len() - i,
        {
            r.push(rest[i]);
            assert(rest@.skip(1).take(i as int) =~= rest@.skip(1).take(i - 1).push(
                rest@[i as int],
            ));
            assert(r@ =~= seq![first] + rest@.skip(1).take(i as int));
            i = i + 1;
        }
        assert(rest@.skip(1).take(i - 1) =~= rest@.skip(1));
        r
    }

    /// The list without its first.
    fn rest_of(v: &Vec<AExprIdx>) -> (r: Vec<AExprIdx>)
        requires
            v@.len() > 0,
        ensures
            r@ == v@.skip(1),
    {
        let mut r: Vec<AExprIdx> = Vec::new();
        let mut i: usize = 1;
        assert(r@ =~= v@.skip(1).take(0));
        while i < v.len()
            invariant
                1 <= i <= v@.len(),
                r@ == v@.skip(1).take(i - 1),
            decreases v.len() - i,
        {
            r.push(v[i]);
            assert(v@.skip(1).take(i as int) =~= v@.skip(1).take(i - 1).push(v@[i as int]));
            i = i + 1;
        }
        assert(v@.skip(1).take(i - 1) =~= v@.skip(1));
        r
    }

    /// The words of a sequence are those of its first part and then of the rest.
    proof fn lemma_sequence(&self, st: SPPstore, hs: Fill, s: AExprIdx, v: Seq<AExprIdx>)
        requires
            self.wf(&st),
            self.has(s),
            self.tbl()[s as int] == Node::Sequence(v),
        ensures
            v.len() >= 2,
            self.have(v),
            weights(self.tbl(), st, hs, s) == weighed_cat(
                st.n(),
                weights(self.tbl(), st, hs, v[0]),
                self.chained(st, hs, v.skip(1)),
            ),
    {
        self.lemma_node(st, s);
        assert(weights(self.tbl(), st, hs, s) == self.chained(st, hs, v));
        assert(self.list(st, hs, v).skip(1) =~= self.list(st, hs, v.skip(1)));
    }

    /// The words of the list `[x] + rest`.
    proof fn lemma_first(&self, st: SPPstore, hs: Fill, x: AExprIdx, rest: Seq<AExprIdx>)
        ensures
            self.chained(st, hs, seq![x] + rest) == weighed_cat(
                st.n(),
                weights(self.tbl(), st, hs, x),
                self.chained(st, hs, rest),
            ),
    {
        let v = seq![x] + rest;
        assert(self.list(st, hs, v).skip(1) =~= self.list(st, hs, rest));
        assert(v[0] == x);
    }

    /// What stands for a list has its words.
    proof fn lemma_sums(
        &self,
        st: SPPstore,
        o: &AutWithHoles,
        st0: SPPstore,
        v: Seq<AExprIdx>,
        r: AExprIdx,
        hs: Fill,
        w: Word,
    )
        requires
            sums_up(*o, st0, v, *self, st, r, hs),
            is_word(st0.n(), w),
        ensures
            forall|c: nat| #[trigger]
                o.chained(st0, hs, v)(w, c) ==> self.takes(st, hs, r, w, c),
            self.accepts(st, hs, r, w) == erase(o.chained(st0, hs, v))(w),
    {
        self.lemma_erased(st, hs, r, w);
        lemma_erase_within(st0.n(), o.chained(st0, hs, v), weights(self.tbl(), st, hs, r), w);
    }

    proof fn lemma_erase_cat_mono(n: nat, a: Weighed, b: Weighed, c: Weighed, w: Word)
        requires
            is_word(n, w),
            forall|u: Word| is_word(n, u) && #[trigger] erase(a)(u) ==> erase(b)(u),
            erase(weighed_cat(n, a, c))(w),
        ensures
            erase(weighed_cat(n, b, c))(w),
    {
        lemma_erase_cat(n, a, c);
        lemma_erase_cat(n, b, c);
        assert(cat(n, erase(a), erase(c))(w));
        let (i, m) = choose|i: int, m: Pkt| #[trigger] cut(n, erase(a), erase(c), w, i, m);
        lemma_parts(n, w, i, m);
        assert(erase(a)(front(w, i, m)));
        assert(cut(n, erase(b), erase(c), w, i, m));
        assert(cat(n, erase(b), erase(c))(w));
    }

    /// A sequence that begins with a union is one of the sequences that begin with
    /// its parts.
    fn expand_union(&mut self, store: &mut SPPstore, s: AExprIdx, v: &Vec<AExprIdx>, bs: &Vec<
        AExprIdx,
    >) -> (r: Vec<AExprIdx>)
        requires
            old(store).wf(),
            old(self).wf(old(store)),
            old(self).has(s),
            old(self).tbl()[s as int] == Node::Sequence(v@),
            v@.len() >= 2,
            old(self).has(v@[0]),
            old(self).tbl()[v@[0] as int] == Node::Union(bs@),
        ensures
            final(store).wf(),
            final(store).sp == old(store).sp,
            final(self).wf(final(store)),
            keeps(*old(self), *old(store), *final(self), *final(store)),
            same_holes(*old(self), *final(self)),
            final(self).have(r@),
            spreads(*final(self), *final(store), s, r@),
            final(self).inside(*final(store), s, r@),
            parted(final(self).tbl(), *final(store), s, r@),
    {
        let ghost a0 = *self;
        let ghost st0 = *store;
        let ghost n = store.n();
        let ghost tail = v@.skip(1);
        let mut r: Vec<AExprIdx> = Vec::new();
        let mut i: usize = 0;
        proof {
            store.lemma_wf();
            self.lemma_wf_ext(*store, *store);
            self.lemma_node(*store, s);
            self.lemma_node(*store, v@[0]);
            self.lemma_normal(*store);
        }
        while i < bs.len()
            invariant
                a0 == *old(self),
                st0 == *old(store),
                n == st0.n(),
                tail == v@.skip(1),
                a0.have(v@),
                a0.have(bs@),
                a0.has(s),
                v@.len() >= 2,
                store.wf(),
                store.sp == st0.sp,
                a0.wf(&st0),
                self.wf(store),
                keeps(a0, st0, *self, *store),
                same_holes(a0, *self),
                i <= bs@.len(),
                r@.len() == i,
                self.have(r@),
                normal_table(a0.tbl(), st0),
                forall|j: int|
                    0 <= j < i ==> chain_of(self.tbl(), *store, #[trigger] r@[j]) == chain_list(
                        a0.tbl(),
                        st0,
                        seq![bs@[j]] + tail,
                        v@.len() as int,
                    ),
                forall|j: int, hs: Fill, w: Word, c: nat|
                    #![trigger self.takes(*store, hs, r@[j], w, c)]
                    0 <= j < i && is_word(n, w) && a0.chained(st0, hs, seq![bs@[j]] + tail)(w, c)
                        ==> self.takes(*store, hs, r@[j], w, c),
                forall|j: int, hs: Fill, w: Word|
                    #![trigger self.accepts(*store, hs, r@[j], w)]
                    0 <= j < i && is_word(n, w) ==> self.accepts(*store, hs, r@[j], w) == erase(
                        a0.chained(st0, hs, seq![bs@[j]] + tail),
                    )(w),
            decreases bs.len() - i,
        {
            let l = Self::with_first(bs[i], v);
            let ghost a1 = *self;
            let ghost st1 = *store;
            let ghost r1 = r@;
            proof {
                assert forall|k: int| 0 <= k < l@.len() implies self.has(#[trigger] l@[k]) by {
                    if k > 0 {
                        assert(l@[k] == v@[k]);
                    }
                    assert(a0.has(bs@[i as int]));
                }
            }
            let x = self.mk_sequence_n(store, &l);
            r.push(x);
            proof {
                a1.lemma_normal(st1);
                assert(l@ =~= seq![bs@[i as int]] + tail);
                assert(in_table(a0.tbl(), l@)) by {
                    assert forall|k: int| 0 <= k < l@.len() implies #[trigger] l@[k]
                        < a0.tbl().len() by {
                        if k > 0 {
                            assert(l@[k] == v@[k]);
                        }
                        assert(a0.has(bs@[i as int]));
                        assert(a0.has(v@[k]));
                    }
                }
                lemma_chain_list_ext(a1.tbl(), st1, a0.tbl(), st0, l@, v@.len() as int);
                assert forall|j: int| 0 <= j < i + 1 implies chain_of(
                    self.tbl(),
                    *store,
                    #[trigger] r@[j],
                ) == chain_list(a0.tbl(), st0, seq![bs@[j]] + tail, v@.len() as int) by {
                    if j < i {
                        assert(r@[j] == r1[j]);
                        assert(a1.has(r1[j]));
                        lemma_value_ext(self.tbl(), *store, a1.tbl(), st1, r1[j]);
                    }
                }
                self.lemma_keeps(*store, &a0, st0);
                assert forall|k: int| 0 <= k < l@.len() implies a0.has(#[trigger] l@[k]) by {
                    if k > 0 {
                        assert(l@[k] == v@[k]);
                    }
                    assert(a0.has(bs@[i as int]));
                }
                assert forall|j: int, hs: Fill, w: Word, c: nat|
                    #![trigger self.takes(*store, hs, r@[j], w, c)]
                    0 <= j < i + 1 && is_word(n, w) && a0.chained(st0, hs, seq![bs@[j]] + tail)(
                        w,
                        c,
                    ) implies self.takes(*store, hs, r@[j], w, c) by {
                    if j < i {
                        assert(a1.takes(st1, hs, r1[j], w, c));
                    } else {
                        assert(sums_up(a1, st1, l@, *self, *store, x, hs));
                        a1.lemma_chain_ext(st1, &a0, st0, hs, l@);
                        self.lemma_sums(*store, &a1, st1, l@, x, hs, w);
                        assert(a1.chained(st1, hs, l@)(w, c));
                    }
                }
                assert forall|j: int, hs: Fill, w: Word|
                    #![trigger self.accepts(*store, hs, r@[j], w)]
                    0 <= j < i + 1 && is_word(n, w) implies self.accepts(*store, hs, r@[j], w)
                    == erase(a0.chained(st0, hs, seq![bs@[j]] + tail))(w) by {
                    if j < i {
                        assert(a1.accepts(st1, hs, r1[j], w) == self.accepts(*store, hs, r1[j], w));
                    } else {
                        assert(sums_up(a1, st1, l@, *self, *store, x, hs));
                        a1.lemma_chain_ext(st1, &a0, st0, hs, l@);
                        self.lemma_sums(*store, &a1, st1, l@, x, hs, w);
                        lemma_erase_within(
                            n,
                            a0.chained(st0, hs, l@),
                            a1.chained(st1, hs, l@),
                            w,
                        );
                    }
                }
            }
            i = i + 1;
        }
        proof {
            let h = v@[0];
            assert(parted(self.tbl(), *store, s, r@)) by {
                assert(self.tbl()[s as int] == a0.tbl()[s as int]);
                assert(self.tbl()[h as int] == a0.tbl()[h as int]);
                assert forall|k: int| 0 <= k < r@.len() implies #[trigger] branches(
                    self.tbl(),
                    *store,
                    v@,
                    bs@,
                    r@,
                    k,
                ) by {
                    let l = seq![bs@[k]] + tail;
                    assert(in_table(a0.tbl(), l)) by {
                        assert forall|m: int| 0 <= m < l.len() implies #[trigger] l[m]
                            < a0.tbl().len() by {
                            if m > 0 {
                                assert(l[m] == v@[m]);
                            }
                            assert(a0.has(bs@[k]));
                            assert(a0.has(v@[m]));
                        }
                    }
                    lemma_chain_list_ext(self.tbl(), *store, a0.tbl(), st0, l, v@.len() as int);
                    assert(chain_of(self.tbl(), *store, r@[k]) == chain_list(
                        a0.tbl(),
                        st0,
                        l,
                        v@.len() as int,
                    ));
                }
                assert forall|k: int| 0 <= k < r@.len() implies #[trigger] r@[k]
                    < self.tbl().len() by {
                    assert(self.has(r@[k]));
                }
            }
            assert forall|hs: Fill, w: Word, c: nat|
                is_word(n, w) && #[trigger] self.takes(*store, hs, s, w, c) implies c >= 1
                && self.one_takes(*store, hs, r@, w, (c - 1) as nat) by {
                assert(a0.takes(st0, hs, s, w, c));
                a0.lemma_sequence(st0, hs, s, v@);
                let x = weights(a0.tbl(), st0, hs, h);
                let y = a0.chained(st0, hs, tail);
                let (k, m, d) = choose|k: int, m: Pkt, d: nat| #[trigger]
                    weighed_cut(n, x, y, w, c, k, m, d);
                lemma_parts(n, w, k, m);
                a0.lemma_union(st0, hs, h, bs@, front(w, k, m));
                assert(a0.takes(st0, hs, h, front(w, k, m), d));
                let e = (d - 1) as nat;
                let j = choose|j: int|
                    0 <= j < bs@.len() && #[trigger] a0.takes(st0, hs, bs@[j], front(w, k, m), e);
                let z = weights(a0.tbl(), st0, hs, bs@[j]);
                a0.lemma_first(st0, hs, bs@[j], tail);
                assert((((c - 1) as nat) - e) as nat == (c - d) as nat);
                assert(weighed_cut(n, z, y, w, (c - 1) as nat, k, m, e));
                assert(a0.chained(st0, hs, seq![bs@[j]] + tail)(w, (c - 1) as nat));
                assert(self.takes(*store, hs, r@[j], w, (c - 1) as nat));
            }
            assert forall|hs: Fill, w: Word, j: int|
                #![trigger self.accepts(*store, hs, r@[j], w)]
                is_word(n, w) && 0 <= j < r@.len() && self.accepts(*store, hs, r@[j], w)
                implies self.accepts(*store, hs, s, w) by {
                a0.lemma_first(st0, hs, bs@[j], tail);
                a0.lemma_sequence(st0, hs, s, v@);
                let z = weights(a0.tbl(), st0, hs, bs@[j]);
                let x = weights(a0.tbl(), st0, hs, h);
                assert forall|u: Word| is_word(n, u) && #[trigger] erase(z)(u) implies erase(x)(
                    u,
                ) by {
                    a0.lemma_union(st0, hs, h, bs@, u);
                    a0.lemma_erased(st0, hs, h, u);
                    a0.lemma_erased(st0, hs, bs@[j], u);
                    assert(a0.accepts(st0, hs, bs@[j], u));
                }
                Self::lemma_erase_cat_mono(n, z, x, a0.chained(st0, hs, tail), w);
                a0.lemma_erased(st0, hs, s, w);
                assert(a0.accepts(st0, hs, s, w));
            }
        }
        r
    }
}


impl AutWithHoles {
    /// What a repetition has: nothing, or one round and the repetition again.
    proof fn lemma_star_takes(
        &self,
        st: SPPstore,
        hs: Fill,
        s: AExprIdx,
        a: AExprIdx,
        w: Word,
        c: nat,
    )
        requires
            self.wf(&st),
            self.has(s),
            self.tbl()[s as int] == Node::Star(a),
            self.takes(st, hs, s, w, c),
        ensures
            (c >= 2 && unit()(w)) || (c >= 1 && weighed_cat(
                st.n(),
                weights(self.tbl(), st, hs, a),
                weights(self.tbl(), st, hs, s),
            )(w, (c - 1) as nat)),
    {
        self.lemma_node(st, s);
        let n = st.n();
        let x = weights(self.tbl(), st, hs, a);
        assert(weights(self.tbl(), st, hs, s) == weighed_star(n, x));
        let k = choose|k: nat| #[trigger] weighed_pow(n, x, k)(w, c);
        if k > 0 {
            let y = weighed_pow(n, x, (k - 1) as nat);
            let d = (c - 1) as nat;
            assert(weighed_cat(n, x, y)(w, d));
            let (i, m, e) = choose|i: int, m: Pkt, e: nat| #[trigger]
                weighed_cut(n, x, y, w, d, i, m, e);
            assert(y(back(w, i, m), (d - e) as nat));
            assert(weighed_star(n, x)(back(w, i, m), (d - e) as nat));
            assert(weighed_cut(n, x, weighed_star(n, x), w, d, i, m, e));
        }
    }

    /// One round and the repetition again is a repetition, and so is nothing.
    proof fn lemma_star_again(&self, st: SPPstore, hs: Fill, s: AExprIdx, a: AExprIdx, w: Word)
        requires
            self.wf(&st),
            self.has(s),
            self.tbl()[s as int] == Node::Star(a),
            is_word(st.n(), w),
        ensures
            unit()(w) ==> self.accepts(st, hs, s, w),
            erase(
                weighed_cat(
                    st.n(),
                    weights(self.tbl(), st, hs, a),
                    weights(self.tbl(), st, hs, s),
                ),
            )(w) ==> self.accepts(st, hs, s, w),
    {
        self.lemma_node(st, s);
        let n = st.n();
        let x = weights(self.tbl(), st, hs, a);
        let z = weighed_star(n, x);
        assert(weights(self.tbl(), st, hs, s) == z);
        if unit()(w) {
            assert(weighed_pow(n, x, 0)(w, 2));
            assert(self.takes(st, hs, s, w, 2));
        }
        if erase(weighed_cat(n, x, z))(w) {
            let d = choose|d: nat| #[trigger] weighed_cat(n, x, z)(w, d);
            let (i, m, e) = choose|i: int, m: Pkt, e: nat| #[trigger]
                weighed_cut(n, x, z, w, d, i, m, e);
            let k = choose|k: nat| #[trigger]
                weighed_pow(n, x, k)(back(w, i, m), (d - e) as nat);
            assert(weighed_cut(n, x, weighed_pow(n, x, k), w, d, i, m, e));
            assert(weighed_cat(n, x, weighed_pow(n, x, k))(w, d));
            assert(((k + 1) - 1) as nat == k);
            assert(((d + 1) - 1) as nat == d);
            assert(weighed_pow(n, x, k + 1)(w, d + 1));
            assert(self.takes(st, hs, s, w, d + 1));
        }
    }

    /// A repetition is one round and the repetition again, or nothing.
    fn expand_star(&mut self, store: &mut SPPstore, s: AExprIdx, inner: AExprIdx) -> (r: Vec<
        AExprIdx,
    >)
        requires
            old(store).wf(),
            old(self).wf(old(store)),
            old(self).has(s),
            old(self).tbl()[s as int] == Node::Star(inner),
        ensures
            final(store).wf(),
            final(store).sp == old(store).sp,
            final(self).wf(final(store)),
            keeps(*old(self), *old(store), *final(self), *final(store)),
            same_holes(*old(self), *final(self)),
            final(self).have(r@),
            spreads(*final(self), *final(store), s, r@),
            final(self).inside(*final(store), s, r@),
            parted(final(self).tbl(), *final(store), s, r@),
    {
        let ghost a0 = *self;
        let ghost st0 = *store;
        let ghost n = store.n();
        proof {
            self.lemma_node(*store, s);
        }
        let mut l: Vec<AExprIdx> = Vec::new();
        l.push(inner);
        l.push(s);
        let again = self.mk_sequence_n(store, &l);
        let ghost a1 = *self;
        let ghost st1 = *store;
        proof {
            store.lemma_wf();
        }
        let one = store.one;
        let none = self.mk_spp(one, store);
        let mut r: Vec<AExprIdx> = Vec::new();
        r.push(again);
        r.push(none);
        proof {
            self.lemma_keeps(*store, &a0, st0);
            assert(parted(self.tbl(), *store, s, r@)) by {
                a0.lemma_normal(st0);
                a1.lemma_normal(st1);
                assert(self.tbl()[s as int] == a0.tbl()[s as int]);
                assert(l@ =~= seq![inner, s]);
                assert(in_table(a0.tbl(), l@));
                lemma_chain_list_ext(self.tbl(), *store, a0.tbl(), st0, l@, 2);
                lemma_value_ext(self.tbl(), *store, a1.tbl(), st1, again);
            }
            self.lemma_node(st1, none);
            assert forall|hs: Fill| #[trigger]
                tight(
                    n,
                    a0.chained(st0, hs, l@),
                    weighed_cat(
                        n,
                        weights(a0.tbl(), st0, hs, inner),
                        weights(a0.tbl(), st0, hs, s),
                    ),
                ) && tight(
                n,
                weighed_cat(n, weights(a0.tbl(), st0, hs, inner), weights(a0.tbl(), st0, hs, s)),
                a0.chained(st0, hs, l@),
            ) by {
                let x = weights(a0.tbl(), st0, hs, inner);
                let z = weights(a0.tbl(), st0, hs, s);
                assert(l@ =~= seq![inner] + seq![s]);
                a0.lemma_first(st0, hs, inner, seq![s]);
                a0.lemma_chain_one(st0, hs, s);
                lemma_tight_both(n, x, x);
                lemma_tight_cat(n, x, a0.chained(st0, hs, seq![s]), x, z);
                lemma_tight_cat(n, x, z, x, a0.chained(st0, hs, seq![s]));
            }
            assert forall|hs: Fill, w: Word, c: nat|
                is_word(n, w) && #[trigger] self.takes(*store, hs, s, w, c) implies c >= 1
                && self.one_takes(*store, hs, r@, w, (c - 1) as nat) by {
                assert(a0.takes(st0, hs, s, w, c));
                a0.lemma_star_takes(st0, hs, s, inner, w, c);
                if c >= 2 && unit()(w) {
                    assert(st1.fun(one)(w[0], w[1]));
                    assert(weights(self.tbl(), st1, hs, none) == step_weight(st1.fun(one)));
                    assert(self.takes(*store, hs, r@[1], w, (c - 1) as nat));
                } else {
                    let x = weights(a0.tbl(), st0, hs, inner);
                    let z = weights(a0.tbl(), st0, hs, s);
                    assert(tight(n, a0.chained(st0, hs, l@), weighed_cat(n, x, z)));
                    assert(tight(n, weighed_cat(n, x, z), a0.chained(st0, hs, l@)));
                    assert(weighed_cat(n, x, z)(w, (c - 1) as nat));
                    assert(a0.chained(st0, hs, l@)(w, (c - 1) as nat));
                    assert(sums_up(a0, st0, l@, a1, st1, again, hs));
                    a1.lemma_sums(st1, &a0, st0, l@, again, hs, w);
                    assert(a1.takes(st1, hs, again, w, (c - 1) as nat));
                    assert(self.takes(*store, hs, r@[0], w, (c - 1) as nat));
                }
            }
            assert forall|hs: Fill, w: Word, j: int|
                #![trigger self.accepts(*store, hs, r@[j], w)]
                is_word(n, w) && 0 <= j < r@.len() && self.accepts(*store, hs, r@[j], w)
                implies self.accepts(*store, hs, s, w) by {
                a0.lemma_star_again(st0, hs, s, inner, w);
                if j == 0 {
                    assert(sums_up(a0, st0, l@, a1, st1, again, hs));
                    a1.lemma_sums(st1, &a0, st0, l@, again, hs, w);
                    assert(a1.accepts(st1, hs, again, w));
                    let x = weights(a0.tbl(), st0, hs, inner);
                    let z = weights(a0.tbl(), st0, hs, s);
                    assert(tight(n, a0.chained(st0, hs, l@), weighed_cat(n, x, z)));
                    lemma_erase_within(n, a0.chained(st0, hs, l@), weighed_cat(n, x, z), w);
                } else {
                    assert(self.accepts(*store, hs, none, w));
                    assert(once(st1.fun(one))(w));
                    assert(st1.rel(one, w[0], w[1]));
                }
                assert(a0.accepts(st0, hs, s, w));
            }
        }
        r
    }

    /// A sequence that begins with a repetition does one more round of it, or goes on.
    #[verifier::rlimit(40)]
    fn expand_loop(&mut self, store: &mut SPPstore, s: AExprIdx, v: &Vec<AExprIdx>, inner: AExprIdx)
        -> (r: Vec<AExprIdx>)
        requires
            old(store).wf(),
            old(self).wf(old(store)),
            old(self).has(s),
            old(self).tbl()[s as int] == Node::Sequence(v@),
            v@.len() >= 2,
            old(self).has(v@[0]),
            old(self).tbl()[v@[0] as int] == Node::Star(inner),
        ensures
            final(store).wf(),
            final(store).sp == old(store).sp,
            final(self).wf(final(store)),
            keeps(*old(self), *old(store), *final(self), *final(store)),
            same_holes(*old(self), *final(self)),
            final(self).have(r@),
            spreads(*final(self), *final(store), s, r@),
            final(self).inside(*final(store), s, r@),
            parted(final(self).tbl(), *final(store), s, r@),
    {
        let ghost a0 = *self;
        let ghost st0 = *store;
        let ghost n = store.n();
        let ghost tail = v@.skip(1);
        let ghost h = v@[0];
        proof {
            self.lemma_node(*store, s);
            self.lemma_node(*store, h);
        }
        let mut l: Vec<AExprIdx> = Vec::new();
        l.push(inner);
        let mut i: usize = 0;
        while i < v.len()
            invariant
                i <= v@.len(),
                l@ == seq![inner] + v@.take(i as int),
            decreases v.len() - i,
        {
            l.push(v[i]);
            assert(v@.take(i + 1) =~= v@.take(i as int).push(v@[i as int]));
            assert(l@ =~= seq![inner] + v@.take(i + 1));
            i = i + 1;
        }
        assert(v@.take(i as int) =~= v@);
        let t = Self::rest_of(v);
        proof {
            assert forall|k: int| 0 <= k < l@.len() implies self.has(#[trigger] l@[k]) by {
                if k > 0 {
                    assert(l@[k] == v@[k - 1]);
                }
            }
            assert forall|k: int| 0 <= k < t@.len() implies self.has(#[trigger] t@[k]) by {
                assert(t@[k] == v@[k + 1]);
            }
        }
        let again = self.mk_sequence_n(store, &l);
        let ghost a1 = *self;
        let ghost st1 = *store;
        let on = self.mk_sequence_n(store, &t);
        let mut r: Vec<AExprIdx> = Vec::new();
        r.push(again);
        r.push(on);
        proof {
            self.lemma_keeps(*store, &a0, st0);
            assert(parted(self.tbl(), *store, s, r@)) by {
                a0.lemma_normal(st0);
                a1.lemma_normal(st1);
                assert(self.tbl()[s as int] == a0.tbl()[s as int]);
                assert(self.tbl()[h as int] == a0.tbl()[h as int]);
                assert(in_table(a0.tbl(), l@)) by {
                    assert forall|k: int| 0 <= k < l@.len() implies #[trigger] l@[k]
                        < a0.tbl().len() by {
                        assert(a0.has(l@[k]));
                    }
                }
                assert(in_table(a0.tbl(), t@)) by {
                    assert forall|k: int| 0 <= k < t@.len() implies #[trigger] t@[k]
                        < a0.tbl().len() by {
                        assert(a0.has(t@[k]));
                    }
                }
                assert(t@ =~= tail);
                lemma_chain_list_ext(self.tbl(), *store, a0.tbl(), st0, l@, (v@.len() + 1) as int);
                lemma_chain_list_ext(self.tbl(), *store, a0.tbl(), st0, t@, v@.len() - 1);
                lemma_chain_list_ext(a1.tbl(), st1, a0.tbl(), st0, t@, v@.len() - 1);
                lemma_value_ext(self.tbl(), *store, a1.tbl(), st1, again);
            }
            assert forall|hs: Fill, w: Word, c: nat|
                is_word(n, w) && #[trigger] self.takes(*store, hs, s, w, c) implies c >= 1
                && self.one_takes(*store, hs, r@, w, (c - 1) as nat) by {
                assert(a0.takes(st0, hs, s, w, c));
                a0.lemma_loop_takes(st0, hs, s, v@, inner, w, c);
                let d = (c - 1) as nat;
                if a0.chained(st0, hs, tail)(w, d) {
                    assert(sums_up(a1, st1, t@, *self, *store, on, hs));
                    a1.lemma_chain_ext(st1, &a0, st0, hs, t@);
                    assert(a1.chained(st1, hs, t@)(w, d));
                    self.lemma_sums(*store, &a1, st1, t@, on, hs, w);
                    assert(self.takes(*store, hs, r@[1], w, d));
                } else {
                    assert(sums_up(a0, st0, l@, a1, st1, again, hs));
                    a1.lemma_sums(st1, &a0, st0, l@, again, hs, w);
                    assert(a1.takes(st1, hs, again, w, d));
                    assert(self.takes(*store, hs, r@[0], w, d));
                }
            }
            assert forall|hs: Fill, w: Word, j: int|
                #![trigger self.accepts(*store, hs, r@[j], w)]
                is_word(n, w) && 0 <= j < r@.len() && self.accepts(*store, hs, r@[j], w)
                implies self.accepts(*store, hs, s, w) by {
                if j == 0 {
                    assert(sums_up(a0, st0, l@, a1, st1, again, hs));
                    a1.lemma_sums(st1, &a0, st0, l@, again, hs, w);
                    assert(a1.accepts(st1, hs, again, w));
                    assert(erase(a0.chained(st0, hs, seq![inner] + v@))(w));
                } else {
                    assert(sums_up(a1, st1, t@, *self, *store, on, hs));
                    self.lemma_sums(*store, &a1, st1, t@, on, hs, w);
                    a1.lemma_chain_ext(st1, &a0, st0, hs, t@);
                    lemma_erase_within(n, a0.chained(st0, hs, t@), a1.chained(st1, hs, t@), w);
                    assert(erase(a0.chained(st0, hs, tail))(w));
                }
                a0.lemma_loop_again(st0, hs, s, v@, inner, w);
                assert(a0.accepts(st0, hs, s, w));
            }
        }
        r
    }

    #[verifier::rlimit(60)]
    proof fn lemma_loop_takes(
        &self,
        st: SPPstore,
        hs: Fill,
        s: AExprIdx,
        v: Seq<AExprIdx>,
        inner: AExprIdx,
        w: Word,
        c: nat,
    )
        requires
            self.wf(&st),
            self.has(s),
            self.tbl()[s as int] == Node::Sequence(v),
            v.len() >= 2,
            self.has(v[0]),
            self.tbl()[v[0] as int] == Node::Star(inner),
            is_word(st.n(), w),
            self.takes(st, hs, s, w, c),
        ensures
            c >= 1,
            self.chained(st, hs, v.skip(1))(w, (c - 1) as nat) || self.chained(
                st,
                hs,
                seq![inner] + v,
            )(w, (c - 1) as nat),
    {
        let n = st.n();
        let h = v[0];
        let tail = v.skip(1);
        self.lemma_sequence(st, hs, s, v);
        let x = weights(self.tbl(), st, hs, inner);
        let z = weights(self.tbl(), st, hs, h);
        let y = self.chained(st, hs, tail);
        let (k, m, d) = choose|k: int, m: Pkt, d: nat| #[trigger]
            weighed_cut(n, z, y, w, c, k, m, d);
        lemma_parts(n, w, k, m);
        assert(self.takes(st, hs, h, front(w, k, m), d));
        self.lemma_star_takes(st, hs, h, inner, front(w, k, m), d);
        let e = (c - 1) as nat;
        if d >= 2 && unit()(front(w, k, m)) {
            assert(k == 0);
            assert(front(w, 0, m)[1] == m);
            assert(back(w, 0, m) =~= w);
            self.lemma_list_ups(st, hs, tail);
            assert(y(w, (c - d) as nat));
            assert(y(w, e));
        } else {
            let q = weighed_cat(n, x, z);
            assert(q(front(w, k, m), (d - 1) as nat));
            assert((e - ((d - 1) as nat)) as nat == (c - d) as nat);
            assert(weighed_cut(n, q, y, w, e, k, m, (d - 1) as nat));
            assert(weighed_cat(n, q, y)(w, e));
            lemma_weighed_assoc(n, x, z, y);
            assert(weighed_cat(n, x, weighed_cat(n, z, y))(w, e));
            self.lemma_first(st, hs, inner, v);
            self.lemma_first(st, hs, h, tail);
            assert(v =~= seq![h] + tail);
        }
    }

    proof fn lemma_loop_again(
        &self,
        st: SPPstore,
        hs: Fill,
        s: AExprIdx,
        v: Seq<AExprIdx>,
        inner: AExprIdx,
        w: Word,
    )
        requires
            self.wf(&st),
            self.has(s),
            self.tbl()[s as int] == Node::Sequence(v),
            v.len() >= 2,
            self.has(v[0]),
            self.tbl()[v[0] as int] == Node::Star(inner),
            is_word(st.n(), w),
            erase(self.chained(st, hs, v.skip(1)))(w) || erase(
                self.chained(st, hs, seq![inner] + v),
            )(w),
        ensures
            self.accepts(st, hs, s, w),
    {
        let n = st.n();
        let h = v[0];
        let tail = v.skip(1);
        self.lemma_sequence(st, hs, s, v);
        let x = weights(self.tbl(), st, hs, inner);
        let z = weights(self.tbl(), st, hs, h);
        let y = self.chained(st, hs, tail);
        self.lemma_erased(st, hs, s, w);
        if erase(y)(w) {
            self.lemma_list_ups(st, hs, tail);
            lemma_weighed_unit(n, y);
            let u = weighed_unit();
            assert(erase(weighed_cat(n, u, y))(w)) by {
                let c = choose|c: nat| #[trigger] y(w, c);
                assert(weighed_cat(n, u, y)(w, c));
            }
            assert forall|t: Word| is_word(n, t) && #[trigger] erase(u)(t) implies erase(z)(t) by {
                self.lemma_star_again(st, hs, h, inner, t);
                self.lemma_erased(st, hs, h, t);
                let c = choose|c: nat| #[trigger] u(t, c);
            }
            Self::lemma_erase_cat_mono(n, u, z, y, w);
        } else {
            self.lemma_first(st, hs, inner, v);
            self.lemma_first(st, hs, h, tail);
            assert(v =~= seq![h] + tail);
            let q = weighed_cat(n, x, z);
            lemma_weighed_assoc(n, x, z, y);
            assert(erase(weighed_cat(n, q, y))(w)) by {
                let c = choose|c: nat| #[trigger] self.chained(st, hs, seq![inner] + v)(w, c);
                assert(weighed_cat(n, x, weighed_cat(n, z, y))(w, c));
                assert(weighed_cat(n, q, y)(w, c));
            }
            assert forall|t: Word| is_word(n, t) && #[trigger] erase(q)(t) implies erase(z)(t) by {
                self.lemma_star_again(st, hs, h, inner, t);
                self.lemma_erased(st, hs, h, t);
            }
            Self::lemma_erase_cat_mono(n, q, z, y, w);
        }
    }
}


/// Where an expression ends: a relation or a hole by itself.
pub open spec fn label_at(st: SPPstore, node: Node) -> Option<EdgeLabel> {
    match node {
        Node::Spp(x) => if x == st.zero {
            None
        } else {
            Some(EdgeLabel::Concrete(x))
        },
        Node::Hole(h) => Some(EdgeLabel::Abstract(h)),
        _ => None,
    }
}

/// The edge of an expression that begins with a relation, a hole or a recorded
/// packet: it goes to what is left of the expression.
pub open spec fn edge_at(
    a: AutWithHoles,
    st: SPPstore,
    s: AExprIdx,
    e: Option<(EdgeLabel, State)>,
) -> bool {
    match a.tbl()[s as int] {
        Node::Dup => e matches Some((l, t)) && l == EdgeLabel::Concrete(st.one) && t.visible
            && a.has(t.aexpr) && a.tbl()[t.aexpr as int] == Node::Spp(st.one),
        Node::Sequence(v) => e matches Some((l, t)) && a.has(t.aexpr) && (forall|hs: Fill|
            #[trigger]
            sums_up(a, st, v.skip(1), a, st, t.aexpr, hs)) && match a.tbl()[v[0] as int] {
            Node::Spp(x) => l == EdgeLabel::Concrete(x) && !t.visible,
            Node::Hole(h) => l == EdgeLabel::Abstract(h) && !t.visible,
            _ => l == EdgeLabel::Concrete(st.one) && t.visible,
        },
        _ => e is None,
    }
}

/// Entering state `t` with the word `v` leaves a word that `t` has within the
/// bound: a visible state records the first packet.
pub open spec fn enters(
    a: AutWithHoles,
    st: SPPstore,
    hs: Fill,
    t: State,
    v: Word,
    c: nat,
) -> bool {
    if t.visible {
        v.len() >= 3 && v[0] == v[1] && a.takes(st, hs, t.aexpr, v.skip(1), c)
    } else {
        a.takes(st, hs, t.aexpr, v, c)
    }
}

/// The word goes along the edge, up to packet `i` and then `m`.
pub open spec fn crosses(
    a: AutWithHoles,
    st: SPPstore,
    hs: Fill,
    e: (EdgeLabel, State),
    w: Word,
    i: int,
    m: Pkt,
    c: nat,
) -> bool {
    &&& 0 <= i <= w.len() - 2
    &&& m.len() == st.n()
    &&& label_lang(st, hs, e.0)(front(w, i, m))
    &&& enters(a, st, hs, e.1, back(w, i, m), c)
}

/// The word goes along some edge, to a state that has the rest within less than
/// the bound.
pub open spec fn leaves(
    a: AutWithHoles,
    st: SPPstore,
    hs: Fill,
    es: Seq<(EdgeLabel, State)>,
    w: Word,
    c: nat,
) -> bool {
    exists|j: int, i: int, m: Pkt, d: nat|
        0 <= j < es.len() && d < c && #[trigger] crosses(a, st, hs, es[j], w, i, m, d)
}

/// Some label has the word.
pub open spec fn ends(st: SPPstore, hs: Fill, ls: Seq<EdgeLabel>, w: Word) -> bool {
    exists|j: int| 0 <= j < ls.len() && label_lang(st, hs, #[trigger] ls[j])(w)
}

/// The label is a relation of the store or a hole of the table.
pub open spec fn label_ok(a: AutWithHoles, st: SPPstore, l: EdgeLabel) -> bool {
    match l {
        EdgeLabel::Concrete(x) => st.has(x),
        EdgeLabel::Abstract(h) => a.uses(h),
    }
}

/// The edges of the heads, in order.
pub open spec fn edges_of(
    a: AutWithHoles,
    st: SPPstore,
    v: Seq<AExprIdx>,
    es: Seq<(EdgeLabel, State)>,
) -> bool {
    &&& forall|k: int| 0 <= k < es.len() ==> edge_from(a, st, v, #[trigger] es[k])
    &&& forall|j: int| 0 <= j < v.len() ==> edge_in(a, st, #[trigger] v[j], es)
}

/// The edge is that of one of the heads.
pub open spec fn edge_from(
    a: AutWithHoles,
    st: SPPstore,
    v: Seq<AExprIdx>,
    e: (EdgeLabel, State),
) -> bool {
    exists|j: int| 0 <= j < v.len() && edge_at(a, st, #[trigger] v[j], Some(e))
}

/// The edge of head `s`, if it has one, is among those listed.
pub open spec fn edge_in(
    a: AutWithHoles,
    st: SPPstore,
    s: AExprIdx,
    es: Seq<(EdgeLabel, State)>,
) -> bool {
    edge_at(a, st, s, None) || exists|k: int|
        0 <= k < es.len() && edge_at(a, st, s, Some(#[trigger] es[k]))
}

/// The labels at which the heads end, in order.
pub open spec fn labels_of(st: SPPstore, tbl: Seq<Node>, v: Seq<AExprIdx>) -> Seq<EdgeLabel>
    decreases v.len(),
{
    if v.len() == 0 {
        Seq::empty()
    } else {
        let r = labels_of(st, tbl, v.drop_last());
        match label_at(st, tbl[v.last() as int]) {
            Some(l) => r.push(l),
            None => r,
        }
    }
}

/// The edges and the labels are those of expression `s`: every word of `s` ends at
/// a label or leaves along an edge, and nothing else does.
pub open spec fn derives(
    a: AutWithHoles,
    st: SPPstore,
    s: AExprIdx,
    es: Seq<(EdgeLabel, State)>,
    ls: Seq<EdgeLabel>,
) -> bool {
    &&& forall|j: int|
        0 <= j < es.len() ==> label_ok(a, st, (#[trigger] es[j]).0) && a.has(es[j].1.aexpr)
    &&& forall|j: int| 0 <= j < ls.len() ==> label_ok(a, st, #[trigger] ls[j])
    &&& forall|hs: Fill, w: Word, c: nat|
        is_word(st.n(), w) && #[trigger] a.takes(st, hs, s, w, c) ==> ends(st, hs, ls, w)
            || leaves(a, st, hs, es, w, c)
    &&& forall|hs: Fill, w: Word|
        is_word(st.n(), w) && #[trigger] ends(st, hs, ls, w) ==> a.accepts(st, hs, s, w)
    &&& forall|hs: Fill, w: Word, c: nat|
        is_word(st.n(), w) && #[trigger] leaves(a, st, hs, es, w, c) ==> a.accepts(st, hs, s, w)
}

impl AutWithHoles {
    /// One step of taking an expression apart: the expressions that it is the union
    /// of, or nothing where it begins with a relation, a hole or a recorded packet.
    fn expand(&mut self, store: &mut SPPstore, s: AExprIdx) -> (r: Option<Vec<AExprIdx>>)
        requires
            old(store).wf(),
            old(self).wf(old(store)),
            old(self).has(s),
        ensures
            final(store).wf(),
            final(store).sp == old(store).sp,
            final(self).wf(final(store)),
            keeps(*old(self), *old(store), *final(self), *final(store)),
            same_holes(*old(self), *final(self)),
            r is None <==> headed(old(self).tbl(), s),
            r is None ==> *final(self) == *old(self) && *final(store) == *old(store),
            r matches Some(v) ==> final(self).have(v@) && spreads(
                *final(self),
                *final(store),
                s,
                v@,
            ) && final(self).inside(*final(store), s, v@) && parted(
                final(self).tbl(),
                *final(store),
                s,
                v@,
            ),
    {
        proof {
            store.lemma_wf();
            self.lemma_wf_ext(*store, *store);
            self.lemma_node(*store, s);
        }
        let e = self.get_expr(s).copy();
        match e {
            AExpr::Spp(_) => None,
            AExpr::Hole(_) => None,
            AExpr::Dup => None,
            AExpr::Union(v) => {
                proof {
                    self.lemma_normal(*store);
                    let a = *self;
                    let st = *store;
                    assert forall|hs: Fill, w: Word, c: nat|
                        is_word(st.n(), w) && #[trigger] a.takes(st, hs, s, w, c) implies c >= 1
                        && a.one_takes(st, hs, v@, w, (c - 1) as nat) by {
                        a.lemma_union(st, hs, s, v@, w);
                        let i = choose|i: int|
                            0 <= i < v@.len() && #[trigger] a.takes(
                                st,
                                hs,
                                v@[i],
                                w,
                                (c - 1) as nat,
                            );
                    }
                    assert forall|hs: Fill, w: Word, j: int|
                        #![trigger a.accepts(st, hs, v@[j], w)]
                        is_word(st.n(), w) && 0 <= j < v@.len() && a.accepts(st, hs, v@[j], w)
                        implies a.accepts(st, hs, s, w) by {
                        a.lemma_union(st, hs, s, v@, w);
                    }
                }
                Some(v)
            },
            AExpr::Star(inner) => Some(self.expand_star(store, s, inner)),
            AExpr::Sequence(v) => {
                let first = self.get_expr(v[0]).copy();
                match first {
                    AExpr::Union(bs) => Some(self.expand_union(store, s, &v, &bs)),
                    AExpr::Star(inner) => Some(self.expand_loop(store, s, &v, inner)),
                    _ => None,
                }
            },
        }
    }

    /// Taking expressions apart ends at heads.
    proof fn lemma_settle(
        &self,
        st: SPPstore,
        found: Seq<AExprIdx>,
        heads: Seq<AExprIdx>,
        hs: Fill,
        j: int,
        w: Word,
        c: nat,
    )
        requires
            self.wf(&st),
            is_word(st.n(), w),
            forall|k: int|
                #![trigger found[k]]
                0 <= k < found.len() ==> heads.contains(found[k]) || spreads(
                    *self,
                    st,
                    found[k],
                    found,
                ),
            0 <= j < found.len(),
            self.takes(st, hs, found[j], w, c),
        ensures
            self.one_takes(st, hs, heads, w, c),
        decreases c,
    {
        if heads.contains(found[j]) {
            let k = choose|k: int| 0 <= k < heads.len() && heads[k] == found[j];
            assert(self.takes(st, hs, heads[k], w, c));
        } else {
            assert(spreads(*self, st, found[j], found));
            let d = (c - 1) as nat;
            assert(self.one_takes(st, hs, found, w, d));
            let k = choose|k: int|
                0 <= k < found.len() && self.takes(st, hs, #[trigger] found[k], w, d);
            self.lemma_settle(st, found, heads, hs, k, w, d);
            let i = choose|i: int|
                0 <= i < heads.len() && self.takes(st, hs, #[trigger] heads[i], w, d);
            self.lemma_up(st, hs, heads[i], w, d, c);
        }
    }

    /// The expressions with a relation, a hole or a recorded packet at their
    /// beginning that `s` is the union of.
    pub fn heads(&mut self, store: &mut SPPstore, s: AExprIdx) -> (r: Vec<AExprIdx>)
        requires
            old(store).wf(),
            old(self).wf(old(store)),
            old(self).has(s),
        ensures
            final(store).wf(),
            final(store).sp == old(store).sp,
            final(self).wf(final(store)),
            keeps(*old(self), *old(store), *final(self), *final(store)),
            same_holes(*old(self), *final(self)),
            splits(*final(self), *final(store), s, r@),
            heads_of(final(self).tbl(), *final(store), s, r@),
    {
        let ghost a0 = *self;
        let ghost st0 = *store;
        let ghost n = store.n();
        let mut found: Vec<AExprIdx> = Vec::new();
        let mut heads: Vec<AExprIdx> = Vec::new();
        found.push(s);
        let mut i: usize = 0;
        proof {
            store.lemma_wf();
            self.lemma_wf_ext(*store, *store);
            assert(taken_apart(self.tbl(), *store, s, found@, 0));
        }
        while i < found.len()
            invariant
                a0 == *old(self),
                st0 == *old(store),
                n == st0.n(),
                n == store.n(),
                store.wf(),
                store.sp == st0.sp,
                a0.wf(&st0),
                a0.has(s),
                self.wf(store),
                keeps(a0, st0, *self, *store),
                same_holes(a0, *self),
                i <= found@.len(),
                found@.len() > 0,
                found@[0] == s,
                self.have(found@),
                taken_apart(self.tbl(), *store, s, found@, i as int),
                heads@ == headed_of(self.tbl(), found@, i as int),
                self.inside(*store, s, found@),
                self.inside(*store, s, heads@),
                forall|j: int| 0 <= j < heads@.len() ==> headed(self.tbl(), #[trigger] heads@[j]),
                forall|k: int|
                    #![trigger found@[k]]
                    0 <= k < i ==> heads@.contains(found@[k]) || spreads(
                        *self,
                        *store,
                        found@[k],
                        found@,
                    ),
            decreases usize::MAX - i,
        {
            let x = found[i];
            let ghost a1 = *self;
            let ghost st1 = *store;
            let ghost found1 = found@;
            let ghost heads1 = heads@;
            assert(self.has(found@[i as int]));
            let parts = self.expand(store, x);
            match parts {
                None => {
                    heads.push(x);
                    proof {
                        assert(headed(self.tbl(), x));
                        assert(taken_apart(self.tbl(), *store, s, found@, i + 1)) by {
                            assert forall|k: int|
                                0 <= k < i + 1 && k < found@.len() implies #[trigger] settled(
                                self.tbl(),
                                *store,
                                found@,
                                k,
                            ) by {
                                if k == i {
                                    assert(found@[k] == x);
                                }
                            }
                        }
                        assert forall|k: int|
                            #![trigger found@[k]]
                            0 <= k < i + 1 implies heads@.contains(found@[k]) || spreads(
                            *self,
                            *store,
                            found@[k],
                            found@,
                        ) by {
                            if k == i {
                                assert(heads@[heads1.len() as int] == x);
                            } else if heads1.contains(found@[k]) {
                                let h = choose|h: int|
                                    0 <= h < heads1.len() && heads1[h] == found@[k];
                                assert(heads@[h] == found@[k]);
                            }
                        }
                        assert forall|hs: Fill, w: Word, j: int|
                            #![trigger self.accepts(*store, hs, heads@[j], w)]
                            is_word(n, w) && 0 <= j < heads@.len() && self.accepts(
                                *store,
                                hs,
                                heads@[j],
                                w,
                            ) implies self.accepts(*store, hs, s, w) by {
                            if j < heads1.len() {
                                assert(heads1[j] == heads@[j]);
                                assert(self.accepts(*store, hs, heads1[j], w));
                            } else {
                                assert(self.accepts(*store, hs, found@[i as int], w));
                            }
                        }
                    }
                },
                Some(v) => {
                    proof {
                        self.lemma_keeps(*store, &a0, st0);
                    }
                    self.add_found(&mut found, &v, Ghost(*store));
                    proof {
                        a1.lemma_normal(st1);
                        lemma_apart_ext(
                            self.tbl(),
                            *store,
                            a1.tbl(),
                            st1,
                            s,
                            found1,
                            i as int,
                        );
                        self.lemma_normal(*store);
                        lemma_parted_once(self.tbl(), *store, x, v@, v@);
                        assert(in_table(self.tbl(), found@)) by {
                            assert forall|k: int| 0 <= k < found@.len() implies #[trigger] found@[k]
                                < self.tbl().len() by {
                                assert(self.has(found@[k]));
                            }
                        }
                        lemma_apart_more(
                            self.tbl(),
                            *store,
                            s,
                            found1,
                            i as int,
                            v@,
                            found@,
                        );
                        assert forall|k: int|
                            #![trigger found@[k]]
                            0 <= k < i + 1 implies heads@.contains(found@[k]) || spreads(
                            *self,
                            *store,
                            found@[k],
                            found@,
                        ) by {
                            assert(found@[k] == found1[k]);
                            if k == i {
                                self.lemma_wf_ext(*store, *store);
                                self.lemma_spreads_ext(*store, self, *store, x, v@, found@);
                            } else if !heads1.contains(found1[k]) {
                                assert(a1.has(found1[k]));
                                assert forall|y: AExprIdx| #[trigger]
                                    found1.contains(y) implies found@.contains(y) by {
                                    let h = choose|h: int|
                                        0 <= h < found1.len() && found1[h] == y;
                                    assert(found@[h] == y);
                                }
                                self.lemma_spreads_ext(
                                    *store,
                                    &a1,
                                    st1,
                                    found1[k],
                                    found1,
                                    found@,
                                );
                            }
                        }
                        assert forall|j: int| 0 <= j < heads@.len() implies headed(
                            self.tbl(),
                            #[trigger] heads@[j],
                        ) by {
                            assert(headed(a1.tbl(), heads1[j]));
                            Self::lemma_headed_ext(a1.tbl(), self.tbl(), heads1[j]);
                        }
                        assert forall|hs: Fill, w: Word, j: int|
                            #![trigger self.accepts(*store, hs, found@[j], w)]
                            is_word(n, w) && 0 <= j < found@.len() && self.accepts(
                                *store,
                                hs,
                                found@[j],
                                w,
                            ) implies self.accepts(*store, hs, s, w) by {
                            if j < found1.len() {
                                assert(a1.accepts(st1, hs, found1[j], w));
                                assert(a1.accepts(st1, hs, s, w));
                            } else {
                                assert(v@.contains(found@[j]));
                                let h = choose|h: int| 0 <= h < v@.len() && v@[h] == found@[j];
                                assert(self.accepts(*store, hs, v@[h], w));
                                assert(self.accepts(*store, hs, x, w));
                                assert(a1.accepts(st1, hs, found1[i as int], w));
                                assert(a1.accepts(st1, hs, s, w));
                            }
                        }
                        assert forall|hs: Fill, w: Word, j: int|
                            #![trigger self.accepts(*store, hs, heads@[j], w)]
                            is_word(n, w) && 0 <= j < heads@.len() && self.accepts(
                                *store,
                                hs,
                                heads@[j],
                                w,
                            ) implies self.accepts(*store, hs, s, w) by {
                            assert(headed(a1.tbl(), heads1[j]));
                            assert(a1.has(heads1[j]));
                            assert(a1.accepts(st1, hs, heads1[j], w));
                            assert(a1.accepts(st1, hs, s, w));
                        }
                    }
                },
            }
            i = i + 1;
        }
        proof {
            assert forall|hs: Fill, w: Word, c: nat|
                is_word(store.n(), w) && #[trigger] self.takes(*store, hs, s, w, c)
                implies self.one_takes(*store, hs, heads@, w, c) by {
                self.lemma_settle(*store, found@, heads@, hs, 0, w, c);
            }
        }
        heads
    }

    proof fn lemma_headed_ext(a: Seq<Node>, b: Seq<Node>, s: AExprIdx)
        requires
            table_ext(a, b),
            headed(a, s),
        ensures
            headed(b, s),
    {
        assert(a[s as int] == b[s as int]);
        match a[s as int] {
            Node::Sequence(v) => {
                assert(a[v[0] as int] == b[v[0] as int]);
            },
            _ => {},
        }
    }

    /// Add to `found` what is not there yet.
    fn add_found(&self, found: &mut Vec<AExprIdx>, v: &Vec<AExprIdx>, st: Ghost<SPPstore>)
        requires
            self.have(old(found)@),
            self.have(v@),
        ensures
            self.have(final(found)@),
            old(found)@.len() <= final(found)@.len(),
            final(found)@.take(old(found)@.len() as int) == old(found)@,
            old(found)@.no_duplicates() ==> final(found)@.no_duplicates(),
            forall|k: int|
                0 <= k < old(found)@.len() ==> #[trigger] final(found)@[k] == old(found)@[k],
            forall|x: AExprIdx| #[trigger] v@.contains(x) ==> final(found)@.contains(x),
            forall|k: int|
                old(found)@.len() <= k < final(found)@.len() ==> v@.contains(
                    #[trigger] final(found)@[k],
                ),
    {
        let ghost f0 = found@;
        let mut i: usize = 0;
        assert(found@.take(f0.len() as int) =~= f0);
        while i < v.len()
            invariant
                i <= v@.len(),
                self.have(v@),
                self.have(found@),
                f0.len() <= found@.len(),
                found@.take(f0.len() as int) == f0,
                f0.no_duplicates() ==> found@.no_duplicates(),
                forall|k: int| 0 <= k < f0.len() ==> #[trigger] found@[k] == f0[k],
                forall|k: int| 0 <= k < i ==> found@.contains(#[trigger] v@[k]),
                forall|k: int|
                    f0.len() <= k < found@.len() ==> v@.contains(#[trigger] found@[k]),
            decreases v.len() - i,
        {
            let x = v[i];
            let mut j: usize = 0;
            let mut known = false;
            while j < found.len()
                invariant
                    j <= found@.len(),
                    known ==> found@.contains(x),
                    !known ==> forall|k: int| 0 <= k < j ==> #[trigger] found@[k] != x,
                decreases found.len() - j,
            {
                if found[j] == x {
                    known = true;
                    assert(found@[j as int] == x);
                }
                j = j + 1;
            }
            let ghost f1 = found@;
            if !known {
                found.push(x);
                assert(found@.take(f0.len() as int) =~= f0);
                assert(found@[f1.len() as int] == x);
                assert(v@[i as int] == x);
            }
            proof {
                assert forall|k: int| 0 <= k < i + 1 implies found@.contains(#[trigger] v@[k]) by {
                    if k < i {
                        assert(f1.contains(v@[k]));
                        let h = choose|h: int| 0 <= h < f1.len() && f1[h] == v@[k];
                        assert(found@[h] == v@[k]);
                    }
                }
            }
            i = i + 1;
        }
        proof {
            assert forall|x: AExprIdx| #[trigger] v@.contains(x) implies found@.contains(x) by {
                let k = choose|k: int| 0 <= k < v@.len() && v@[k] == x;
                assert(found@.contains(v@[k]));
            }
        }
    }
}


impl AutWithHoles {
    proof fn lemma_edge_ext(
        &self,
        st: SPPstore,
        o: &AutWithHoles,
        st0: SPPstore,
        s: AExprIdx,
        e: Option<(EdgeLabel, State)>,
    )
        requires
            o.wf(&st0),
            self.wf(&st),
            keeps(*o, st0, *self, st),
            headed(o.tbl(), s),
            edge_at(*o, st0, s, e),
        ensures
            edge_at(*self, st, s, e),
    {
        let n = st.n();
        assert(o.tbl()[s as int] == self.tbl()[s as int]);
        if let Some((l, t)) = e {
            assert(o.has(t.aexpr));
            assert(o.tbl()[t.aexpr as int] == self.tbl()[t.aexpr as int]);
        }
        match o.tbl()[s as int] {
            Node::Sequence(v) => {
                assert(o.tbl()[v[0] as int] == self.tbl()[v[0] as int]);
                let (l, t) = e.unwrap();
                o.lemma_node(st0, s);
                let tail = v.skip(1);
                assert forall|k: int| 0 <= k < tail.len() implies o.has(#[trigger] tail[k]) by {
                    assert(tail[k] == v[k + 1]);
                }
                assert forall|hs: Fill| #[trigger]
                    sums_up(*self, st, tail, *self, st, t.aexpr, hs) by {
                    assert(sums_up(*o, st0, tail, *o, st0, t.aexpr, hs));
                    self.lemma_chain_ext(st, o, st0, hs, tail);
                    lemma_weights_ext(o.tbl(), st0, self.tbl(), st, hs, t.aexpr);
                    let x = weights(o.tbl(), st0, hs, t.aexpr);
                    let y = weights(self.tbl(), st, hs, t.aexpr);
                    lemma_tight_both(n, x, y);
                    lemma_tight_trans(
                        n,
                        self.chained(st, hs, tail),
                        o.chained(st0, hs, tail),
                        x,
                    );
                    lemma_tight_trans(n, self.chained(st, hs, tail), x, y);
                }
            },
            _ => {},
        }
    }

    /// A word of a head ends at its label or leaves along its edge.
    proof fn lemma_head_takes(
        &self,
        st: SPPstore,
        s: AExprIdx,
        e: Option<(EdgeLabel, State)>,
        hs: Fill,
        w: Word,
        c: nat,
    )
        requires
            st.wf(),
            self.wf(&st),
            headed(self.tbl(), s),
            edge_at(*self, st, s, e),
            is_word(st.n(), w),
            self.takes(st, hs, s, w, c),
        ensures
            (label_at(st, self.tbl()[s as int]) matches Some(l) && label_lang(st, hs, l)(w)) || (
            e matches Some(x) && leaves(*self, st, hs, seq![x], w, c)),
    {
        let n = st.n();
        st.lemma_wf();
        reveal(table_ok);
        reveal_with_fuel(weights, 2);
        self.lemma_node(st, s);
        match self.tbl()[s as int] {
            Node::Spp(x) => {
                assert(weights(self.tbl(), st, hs, s) == step_weight(st.fun(x)));
                assert(st.fun(x)(w[0], w[1]));
            },
            Node::Hole(h) => {},
            Node::Dup => {
                let x = e.unwrap();
                let p = w[0];
                let f = front(w, 0, p);
                let b = back(w, 0, p);
                lemma_parts(n, w, 0, p);
                assert(f[1] == p && b[1] == w[1] && b.len() == 3);
                assert(st.fun(st.one)(f[0], f[1]));
                let t = x.1.aexpr;
                self.lemma_node(st, t);
                assert(weights(self.tbl(), st, hs, t) == step_weight(st.fun(st.one)));
                let u = b.skip(1);
                assert(u.len() == 2 && u[0] == p && u[1] == p);
                assert(st.fun(st.one)(u[0], u[1]));
                assert(self.takes(st, hs, t, u, 1));
                assert(enters(*self, st, hs, x.1, b, 1));
                assert(crosses(*self, st, hs, seq![x][0], w, 0, p, 1));
            },
            Node::Sequence(v) => {
                let x = e.unwrap();
                let t = x.1.aexpr;
                self.lemma_sequence(st, hs, s, v);
                let a = weights(self.tbl(), st, hs, v[0]);
                let y = self.chained(st, hs, v.skip(1));
                let (i, m, d) = choose|i: int, m: Pkt, d: nat| #[trigger]
                    weighed_cut(n, a, y, w, c, i, m, d);
                lemma_parts(n, w, i, m);
                let f = front(w, i, m);
                let b = back(w, i, m);
                lemma_weights(self.tbl(), st, hs, v[0]);
                assert(a(f, d));
                assert(d >= 1);
                let r = (c - d) as nat;
                assert(sums_up(*self, st, v.skip(1), *self, st, t, hs));
                self.lemma_sums(st, self, st, v.skip(1), t, hs, b);
                assert(y(b, r));
                assert(self.takes(st, hs, t, b, r));
                self.lemma_node(st, v[0]);
                match self.tbl()[v[0] as int] {
                    Node::Spp(z) => {
                        assert(a == step_weight(st.fun(z)));
                        assert(crosses(*self, st, hs, seq![x][0], w, i, m, r));
                    },
                    Node::Hole(h) => {
                        assert(crosses(*self, st, hs, seq![x][0], w, i, m, r));
                    },
                    _ => {
                        assert(dup_lang()(f));
                        assert(i == 1);
                        assert(f[0] == w[0] && f[1] == w[1] && f[2] == m);
                        let p = w[0];
                        lemma_parts(n, w, 0, p);
                        let g = front(w, 0, p);
                        assert(g[0] == p && g[1] == p);
                        assert(st.fun(st.one)(g[0], g[1]));
                        assert(back(w, 0, p) =~= w);
                        assert(w.skip(1) =~= b);
                        assert(w.len() == b.len() + 1);
                        assert(enters(*self, st, hs, x.1, w, r));
                        assert(crosses(*self, st, hs, seq![x][0], w, 0, p, r));
                    },
                }
            },
            _ => {},
        }
    }

    /// What ends at the label of a head, or leaves along its edge, is a word of it.
    proof fn lemma_head_accepts(
        &self,
        st: SPPstore,
        s: AExprIdx,
        e: Option<(EdgeLabel, State)>,
        hs: Fill,
        w: Word,
    )
        requires
            st.wf(),
            self.wf(&st),
            headed(self.tbl(), s),
            edge_at(*self, st, s, e),
            is_word(st.n(), w),
            (label_at(st, self.tbl()[s as int]) matches Some(l) && label_lang(st, hs, l)(w)) || (
            e matches Some(x) && exists|i: int, m: Pkt, d: nat| #[trigger]
                crosses(*self, st, hs, x, w, i, m, d)),
        ensures
            self.accepts(st, hs, s, w),
    {
        let n = st.n();
        st.lemma_wf();
        reveal(table_ok);
        reveal_with_fuel(weights, 2);
        self.lemma_node(st, s);
        if label_at(st, self.tbl()[s as int]) matches Some(l) && label_lang(st, hs, l)(w) {
            match self.tbl()[s as int] {
                Node::Spp(x) => {
                    assert(weights(self.tbl(), st, hs, s) == step_weight(st.fun(x)));
                },
                _ => {},
            }
            assert(self.takes(st, hs, s, w, 1));
        } else {
            let x = e.unwrap();
            let t = x.1.aexpr;
            let (i, m, d) = choose|i: int, m: Pkt, d: nat| #[trigger]
                crosses(*self, st, hs, x, w, i, m, d);
            lemma_parts(n, w, i, m);
            let f = front(w, i, m);
            let b = back(w, i, m);
            match self.tbl()[s as int] {
                Node::Dup => {
                    self.lemma_node(st, t);
                    assert(weights(self.tbl(), st, hs, t) == step_weight(st.fun(st.one)));
                    let u = b.skip(1);
                    assert(st.fun(st.one)(f[0], f[1]));
                    assert(f[0] == w[0] && f[1] == m && i == 0);
                    assert(st.fun(st.one)(u[0], u[1]));
                    assert(b[1] == w[1] && b[2] == w[2]);
                    assert(u[0] == b[1] && u[1] == b[2]);
                    assert(w.len() == 3);
                    assert(dup_lang()(w));
                    assert(self.takes(st, hs, s, w, 2));
                },
                Node::Sequence(v) => {
                    self.lemma_sequence(st, hs, s, v);
                    let a = weights(self.tbl(), st, hs, v[0]);
                    let y = self.chained(st, hs, v.skip(1));
                    self.lemma_node(st, v[0]);
                    assert(sums_up(*self, st, v.skip(1), *self, st, t, hs));
                    self.lemma_erased(st, hs, s, w);
                    lemma_erase_cat(n, a, y);
                    match self.tbl()[v[0] as int] {
                        Node::Spp(z) => {
                            assert(a == step_weight(st.fun(z)));
                            assert(a(f, 1));
                            self.lemma_sums(st, self, st, v.skip(1), t, hs, b);
                            assert(self.accepts(st, hs, t, b));
                            assert(cut(n, erase(a), erase(y), w, i, m));
                        },
                        Node::Hole(h) => {
                            assert(a(f, 1));
                            self.lemma_sums(st, self, st, v.skip(1), t, hs, b);
                            assert(self.accepts(st, hs, t, b));
                            assert(cut(n, erase(a), erase(y), w, i, m));
                        },
                        _ => {
                            assert(st.fun(st.one)(f[0], f[1]));
                            assert(f[0] == w[0] && f[1] == m && i == 0);
                            assert(b =~= w);
                            let u = w.skip(1);
                            assert(is_word(n, u)) by {
                                assert forall|k: int| 0 <= k < u.len() implies (
                                #[trigger] u[k]).len() == n by {
                                    assert(u[k] == w[k + 1]);
                                }
                            }
                            self.lemma_sums(st, self, st, v.skip(1), t, hs, u);
                            assert(self.takes(st, hs, t, u, d));
                            assert(self.accepts(st, hs, t, u));
                            let p = w[1];
                            lemma_parts(n, w, 1, p);
                            let g = front(w, 1, p);
                            assert(g[0] == w[0] && g[1] == w[1] && g[2] == p);
                            assert(dup_lang()(g));
                            assert(a(g, 2));
                            assert(back(w, 1, p) =~= u);
                            assert(cut(n, erase(a), erase(y), w, 1, p));
                        },
                    }
                    assert(cat(n, erase(a), erase(y))(w));
                },
                _ => {},
            }
        }
    }

    /// The edge of a head.
    fn edge_of(&mut self, store: &mut SPPstore, s: AExprIdx) -> (r: Option<(EdgeLabel, State)>)
        requires
            old(store).wf(),
            old(self).wf(old(store)),
            headed(old(self).tbl(), s),
        ensures
            final(store).wf(),
            final(store).sp == old(store).sp,
            final(self).wf(final(store)),
            keeps(*old(self), *old(store), *final(self), *final(store)),
            same_holes(*old(self), *final(self)),
            edge_at(*final(self), *final(store), s, r),
            edge_to(final(self).tbl(), *final(store), s, r),
            r matches Some(e) ==> label_ok(*final(self), *final(store), e.0),
    {
        let ghost a0 = *self;
        let ghost st0 = *store;
        proof {
            store.lemma_wf();
            self.lemma_wf_ext(*store, *store);
            self.lemma_node(*store, s);
        }
        let one = store.one;
        let e = self.get_expr(s).copy();
        match e {
            AExpr::Dup => {
                let t = self.mk_spp(one, store);
                let r = Some((EdgeLabel::Concrete(one), State { aexpr: t, visible: true }));
                assert(self.tbl()[s as int] == Node::Dup);
                assert(edge_at(*self, *store, s, r));
                r
            },
            AExpr::Sequence(v) => {
                let rest = Self::rest_of(&v);
                proof {
                    assert forall|k: int| 0 <= k < rest@.len() implies self.has(
                        #[trigger] rest@[k],
                    ) by {
                        assert(rest@[k] == v@[k + 1]);
                    }
                    self.lemma_node(*store, v@[0]);
                }
                let (label, visible): (EdgeLabel, bool) = match self.get_expr(v[0]) {
                    AExpr::Spp(x) => (EdgeLabel::Concrete(*x), false),
                    AExpr::Hole(h) => (EdgeLabel::Abstract(*h), false),
                    _ => (EdgeLabel::Concrete(one), true),
                };
                let t = self.mk_sequence_n(store, &rest);
                let r = Some((label, State { aexpr: t, visible }));
                proof {
                    store.lemma_wf();
                    assert(self.tbl()[s as int] == Node::Sequence(v@));
                    assert(self.tbl()[v@[0] as int] == a0.tbl()[v@[0] as int]);
                    a0.lemma_normal(st0);
                    assert(rest@ =~= v@.skip(1));
                    assert(in_table(a0.tbl(), rest@)) by {
                        assert forall|k: int| 0 <= k < rest@.len() implies #[trigger] rest@[k]
                            < a0.tbl().len() by {
                            assert(a0.has(rest@[k]));
                        }
                    }
                    lemma_chain_list_ext(
                        self.tbl(),
                        *store,
                        a0.tbl(),
                        st0,
                        rest@,
                        v@.len() - 1,
                    );
                    assert forall|hs: Fill| #[trigger]
                        sums_up(*self, *store, v@.skip(1), *self, *store, t, hs) by {
                        assert(sums_up(a0, st0, rest@, *self, *store, t, hs));
                        self.lemma_chain_ext(*store, &a0, st0, hs, rest@);
                        lemma_tight_trans(
                            store.n(),
                            self.chained(*store, hs, rest@),
                            a0.chained(st0, hs, rest@),
                            weights(self.tbl(), *store, hs, t),
                        );
                    }
                    match a0.tbl()[v@[0] as int] {
                        Node::Hole(h) => {
                            assert(self.tbl()[v@[0] as int] == Node::Hole(h));
                            assert(self.uses(h));
                        },
                        _ => {},
                    }
                    assert(edge_at(*self, *store, s, r));
                }
                r
            },
            _ => None,
        }
    }

    /// The label at which a head ends.
    fn label_of(&self, store: &SPPstore, s: AExprIdx) -> (r: Option<EdgeLabel>)
        requires
            self.wf(store),
            self.has(s),
        ensures
            r == label_at(*store, self.tbl()[s as int]),
            r matches Some(l) ==> label_ok(*self, *store, l),
    {
        proof {
            self.lemma_node(*store, s);
        }
        match self.get_expr(s) {
            AExpr::Spp(x) => if *x == store.zero {
                None
            } else {
                Some(EdgeLabel::Concrete(*x))
            },
            AExpr::Hole(h) => {
                assert(self.tbl()[s as int] == Node::Hole(*h));
                Some(EdgeLabel::Abstract(*h))
            },
            _ => None,
        }
    }

    /// The edges of a list of heads.
    fn head_edges(&mut self, store: &mut SPPstore, heads: &Vec<AExprIdx>) -> (r: Vec<
        (EdgeLabel, State),
    >)
        requires
            old(store).wf(),
            old(self).wf(old(store)),
            forall|j: int|
                0 <= j < heads@.len() ==> headed(old(self).tbl(), #[trigger] heads@[j]),
        ensures
            final(store).wf(),
            final(store).sp == old(store).sp,
            final(self).wf(final(store)),
            keeps(*old(self), *old(store), *final(self), *final(store)),
            same_holes(*old(self), *final(self)),
            edges_of(*final(self), *final(store), heads@, r@),
            edge_list(final(self).tbl(), *final(store), heads@, r@),
            forall|k: int|
                0 <= k < r@.len() ==> label_ok(*final(self), *final(store), (#[trigger] r@[k]).0)
                    && final(self).has(r@[k].1.aexpr),
    {
        let ghost a0 = *self;
        let ghost st0 = *store;
        let mut r: Vec<(EdgeLabel, State)> = Vec::new();
        let mut i: usize = 0;
        proof {
            store.lemma_wf();
            self.lemma_wf_ext(*store, *store);
        }
        while i < heads.len()
            invariant
                a0 == *old(self),
                st0 == *old(store),
                store.wf(),
                store.sp == st0.sp,
                a0.wf(&st0),
                self.wf(store),
                keeps(a0, st0, *self, *store),
                same_holes(a0, *self),
                i <= heads@.len(),
                forall|j: int| 0 <= j < heads@.len() ==> headed(a0.tbl(), #[trigger] heads@[j]),
                edges_of(*self, *store, heads@.take(i as int), r@),
                edge_list(self.tbl(), *store, heads@.take(i as int), r@),
                forall|k: int|
                    0 <= k < r@.len() ==> label_ok(*self, *store, (#[trigger] r@[k]).0)
                        && self.has(r@[k].1.aexpr),
            decreases heads.len() - i,
        {
            let s = heads[i];
            let ghost a1 = *self;
            let ghost st1 = *store;
            let ghost r1 = r@;
            let ghost v1 = heads@.take(i as int);
            let ghost v2 = heads@.take(i + 1);
            proof {
                assert(headed(a0.tbl(), heads@[i as int]));
                Self::lemma_headed_ext(a0.tbl(), self.tbl(), s);
                assert(v2 =~= v1.push(s));
            }
            let e = self.edge_of(store, s);
            if let Some(x) = e {
                r.push(x);
            }
            proof {
                self.lemma_keeps(*store, &a0, st0);
                assert forall|k: int|
                    #![trigger r@[k]]
                    0 <= k < r@.len() implies label_ok(*self, *store, r@[k].0) && self.has(
                    r@[k].1.aexpr,
                ) && edge_from(*self, *store, v2, r@[k]) by {
                    if k < r1.len() {
                        assert(r@[k] == r1[k]);
                        assert(label_ok(a1, st1, r1[k].0));
                        if let EdgeLabel::Abstract(h) = r1[k].0 {
                            let q = choose|q: int|
                                0 <= q < a1.tbl().len() && #[trigger] a1.tbl()[q] == Node::Hole(h);
                            assert(self.tbl()[q] == Node::Hole(h));
                        }
                        assert(edge_from(a1, st1, v1, r1[k]));
                        let j = choose|j: int|
                            0 <= j < v1.len() && edge_at(a1, st1, #[trigger] v1[j], Some(r1[k]));
                        assert(headed(a0.tbl(), heads@[j]));
                        Self::lemma_headed_ext(a0.tbl(), a1.tbl(), v1[j]);
                        self.lemma_edge_ext(*store, &a1, st1, v1[j], Some(r1[k]));
                        assert(v2[j] == v1[j]);
                    } else {
                        assert(edge_at(*self, *store, v2[i as int], Some(r@[k])));
                        match self.tbl()[s as int] {
                            Node::Dup => {},
                            Node::Sequence(v) => {},
                            _ => {},
                        }
                    }
                }
                assert forall|j: int|
                    #![trigger v2[j]]
                    0 <= j < v2.len() implies edge_in(*self, *store, v2[j], r@) by {
                    if j < i {
                        assert(v2[j] == v1[j]);
                        assert(headed(a0.tbl(), heads@[j]));
                        Self::lemma_headed_ext(a0.tbl(), a1.tbl(), v1[j]);
                        assert(edge_in(a1, st1, v1[j], r1));
                        if edge_at(a1, st1, v1[j], None) {
                            self.lemma_edge_ext(*store, &a1, st1, v1[j], None);
                        } else {
                            let k = choose|k: int|
                                0 <= k < r1.len() && edge_at(
                                    a1,
                                    st1,
                                    v1[j],
                                    Some(#[trigger] r1[k]),
                                );
                            self.lemma_edge_ext(*store, &a1, st1, v1[j], Some(r1[k]));
                            assert(r@[k] == r1[k]);
                        }
                    } else {
                        assert(v2[j] == s);
                        if e is Some {
                            assert(r@[r1.len() as int] == e.unwrap());
                        }
                    }
                }
                assert(edges_of(*self, *store, v2, r@));
                a1.lemma_normal(st1);
                assert(in_table(a1.tbl(), v1)) by {
                    assert forall|j: int| 0 <= j < v1.len() implies #[trigger] v1[j]
                        < a1.tbl().len() by {
                        assert(headed(a0.tbl(), heads@[j]));
                    }
                }
                lemma_edge_list_ext(self.tbl(), *store, a1.tbl(), st1, v1, r1);
                assert(v2.drop_last() =~= v1);
                assert(v2.last() == s);
                if e is Some {
                    assert(r@.drop_last() =~= r1);
                    assert(!edge_to(self.tbl(), *store, s, None));
                }
            }
            i = i + 1;
        }
        assert(heads@.take(i as int) =~= heads@);
        r
    }

    /// The labels at which a list of heads end.
    fn head_labels(&self, store: &SPPstore, heads: &Vec<AExprIdx>) -> (r: Vec<EdgeLabel>)
        requires
            self.wf(store),
            self.have(heads@),
        ensures
            r@ == labels_of(*store, self.tbl(), heads@),
            forall|k: int| 0 <= k < r@.len() ==> label_ok(*self, *store, #[trigger] r@[k]),
    {
        let mut r: Vec<EdgeLabel> = Vec::new();
        let mut i: usize = 0;
        assert(heads@.take(0).len() == 0);
        while i < heads.len()
            invariant
                i <= heads@.len(),
                self.wf(store),
                self.have(heads@),
                r@ == labels_of(*store, self.tbl(), heads@.take(i as int)),
                forall|k: int| 0 <= k < r@.len() ==> label_ok(*self, *store, #[trigger] r@[k]),
            decreases heads.len() - i,
        {
            let l = self.label_of(store, heads[i]);
            proof {
                let v = heads@.take(i + 1);
                assert(v.drop_last() =~= heads@.take(i as int));
                assert(v.last() == heads@[i as int]);
            }
            if let Some(x) = l {
                r.push(x);
            }
            i = i + 1;
        }
        assert(heads@.take(i as int) =~= heads@);
        r
    }

    proof fn lemma_labels_has(st: SPPstore, tbl: Seq<Node>, v: Seq<AExprIdx>, j: int, l: EdgeLabel)
        requires
            0 <= j < v.len(),
            label_at(st, tbl[v[j] as int]) == Some(l),
        ensures
            labels_of(st, tbl, v).contains(l),
        decreases v.len(),
    {
        let r = labels_of(st, tbl, v.drop_last());
        let s = labels_of(st, tbl, v);
        if j == v.len() - 1 {
            assert(s[r.len() as int] == l);
        } else {
            Self::lemma_labels_has(st, tbl, v.drop_last(), j, l);
            let k = choose|k: int| 0 <= k < r.len() && r[k] == l;
            assert(s[k] == l);
        }
    }

    proof fn lemma_labels_from(st: SPPstore, tbl: Seq<Node>, v: Seq<AExprIdx>, l: EdgeLabel)
        requires
            labels_of(st, tbl, v).contains(l),
        ensures
            exists|j: int|
                0 <= j < v.len() && label_at(st, tbl[#[trigger] v[j] as int]) == Some(l),
        decreases v.len(),
    {
        let s = labels_of(st, tbl, v);
        let k = choose|k: int| 0 <= k < s.len() && s[k] == l;
        let u = v.drop_last();
        let r = labels_of(st, tbl, u);
        if k < r.len() {
            assert(r[k] == l);
            Self::lemma_labels_from(st, tbl, u, l);
            let j = choose|j: int|
                0 <= j < u.len() && label_at(st, tbl[#[trigger] u[j] as int]) == Some(l);
            assert(v[j] == u[j]);
        } else {
            assert(v[v.len() - 1] == v.last());
        }
    }

    /// The edges and labels of the heads of an expression are its derivative.
    proof fn lemma_derives(
        &self,
        st: SPPstore,
        s: AExprIdx,
        heads: Seq<AExprIdx>,
        es: Seq<(EdgeLabel, State)>,
        ls: Seq<EdgeLabel>,
    )
        requires
            st.wf(),
            self.wf(&st),
            splits(*self, st, s, heads),
            edges_of(*self, st, heads, es),
            ls == labels_of(st, self.tbl(), heads),
            forall|k: int|
                0 <= k < es.len() ==> label_ok(*self, st, (#[trigger] es[k]).0) && self.has(
                    es[k].1.aexpr,
                ),
            forall|k: int| 0 <= k < ls.len() ==> label_ok(*self, st, #[trigger] ls[k]),
        ensures
            derives(*self, st, s, es, ls),
    {
        let n = st.n();
        assert forall|hs: Fill, w: Word, c: nat|
            is_word(n, w) && #[trigger] self.takes(st, hs, s, w, c) implies ends(st, hs, ls, w)
            || leaves(*self, st, hs, es, w, c) by {
            assert(self.one_takes(st, hs, heads, w, c));
            let j = choose|j: int|
                0 <= j < heads.len() && self.takes(st, hs, #[trigger] heads[j], w, c);
            let h = heads[j];
            assert(headed(self.tbl(), h));
            assert(edge_in(*self, st, h, es));
            let e = if edge_at(*self, st, h, None) {
                None::<(EdgeLabel, State)>
            } else {
                let k = choose|k: int|
                    0 <= k < es.len() && edge_at(*self, st, h, Some(#[trigger] es[k]));
                Some(es[k])
            };
            self.lemma_head_takes(st, h, e, hs, w, c);
            if label_at(st, self.tbl()[h as int]) matches Some(l) && label_lang(st, hs, l)(w) {
                let l = label_at(st, self.tbl()[h as int]).unwrap();
                Self::lemma_labels_has(st, self.tbl(), heads, j, l);
                let k = choose|k: int| 0 <= k < ls.len() && ls[k] == l;
                assert(label_lang(st, hs, ls[k])(w));
            } else {
                let x = e.unwrap();
                let (q, i, m, d) = choose|q: int, i: int, m: Pkt, d: nat|
                    0 <= q < seq![x].len() && d < c && #[trigger]
                    crosses(*self, st, hs, seq![x][q], w, i, m, d);
                let k = choose|k: int|
                    0 <= k < es.len() && edge_at(*self, st, h, Some(#[trigger] es[k]));
                assert(crosses(*self, st, hs, es[k], w, i, m, d));
            }
        }
        assert forall|hs: Fill, w: Word|
            is_word(n, w) && #[trigger] ends(st, hs, ls, w) implies self.accepts(st, hs, s, w) by {
            let k = choose|k: int| 0 <= k < ls.len() && label_lang(st, hs, #[trigger] ls[k])(w);
            assert(ls.contains(ls[k]));
            Self::lemma_labels_from(st, self.tbl(), heads, ls[k]);
            let j = choose|j: int|
                0 <= j < heads.len() && label_at(st, self.tbl()[#[trigger] heads[j] as int])
                    == Some(ls[k]);
            assert(headed(self.tbl(), heads[j]));
            assert(edge_at(*self, st, heads[j], None));
            self.lemma_head_accepts(st, heads[j], None, hs, w);
            assert(self.accepts(st, hs, heads[j], w));
        }
        assert forall|hs: Fill, w: Word, c: nat|
            is_word(n, w) && #[trigger] leaves(*self, st, hs, es, w, c) implies self.accepts(
            st,
            hs,
            s,
            w,
        ) by {
            let (k, i, m, d) = choose|k: int, i: int, m: Pkt, d: nat|
                0 <= k < es.len() && d < c && #[trigger] crosses(*self, st, hs, es[k], w, i, m, d);
            assert(edge_from(*self, st, heads, es[k]));
            let j = choose|j: int|
                0 <= j < heads.len() && edge_at(*self, st, #[trigger] heads[j], Some(es[k]));
            assert(headed(self.tbl(), heads[j]));
            self.lemma_head_accepts(st, heads[j], Some(es[k]), hs, w);
            assert(self.accepts(st, hs, heads[j], w));
        }
    }

    /// The edges of `q`, and the labels at which it ends.
    pub fn derivative(&mut self, store: &mut SPPstore, q: State) -> (r: (
        Vec<(EdgeLabel, State)>,
        Vec<EdgeLabel>,
    ))
        requires
            old(store).wf(),
            old(self).wf(old(store)),
            old(self).has(q.aexpr),
        ensures
            final(store).wf(),
            final(store).sp == old(store).sp,
            final(self).wf(final(store)),
            keeps(*old(self), *old(store), *final(self), *final(store)),
            same_holes(*old(self), *final(self)),
            derives(*final(self), *final(store), q.aexpr, r.0@, r.1@),
            exists|v: Seq<AExprIdx>| #[trigger]
                splits(*final(self), *final(store), q.aexpr, v) && heads_of(
                    final(self).tbl(),
                    *final(store),
                    q.aexpr,
                    v,
                ) && edge_list(final(self).tbl(), *final(store), v, r.0@) && r.1@ == labels_of(
                    *final(store),
                    final(self).tbl(),
                    v,
                ),
    {
        let ghost a0 = *self;
        let ghost st0 = *store;
        let heads = self.heads(store, q.aexpr);
        let ghost a1 = *self;
        let ghost st1 = *store;
        let es = self.head_edges(store, &heads);
        proof {
            self.lemma_keeps(*store, &a0, st0);
            assert forall|k: int| 0 <= k < heads@.len() implies self.has(#[trigger] heads@[k]) by {
                assert(headed(a1.tbl(), heads@[k]));
            }
        }
        let ls = self.head_labels(store, &heads);
        proof {
            self.lemma_splits_ext(*store, &a1, st1, q.aexpr, heads@);
            a1.lemma_normal(st1);
            lemma_heads_ext(self.tbl(), *store, a1.tbl(), st1, q.aexpr, heads@);
            self.lemma_derives(*store, q.aexpr, heads@, es@, ls@);
        }
        (es, ls)
    }

    proof fn lemma_splits_ext(
        &self,
        st: SPPstore,
        o: &AutWithHoles,
        st0: SPPstore,
        s: AExprIdx,
        v: Seq<AExprIdx>,
    )
        requires
            keeps(*o, st0, *self, st),
            o.has(s),
            splits(*o, st0, s, v),
        ensures
            splits(*self, st, s, v),
    {
        assert forall|j: int| 0 <= j < v.len() implies headed(self.tbl(), #[trigger] v[j]) by {
            Self::lemma_headed_ext(o.tbl(), self.tbl(), v[j]);
        }
        assert forall|hs: Fill, w: Word, c: nat|
            is_word(st.n(), w) && #[trigger] self.takes(st, hs, s, w, c) implies self.one_takes(
            st,
            hs,
            v,
            w,
            c,
        ) by {
            assert(o.takes(st0, hs, s, w, c));
            assert(o.one_takes(st0, hs, v, w, c));
            let j = choose|j: int| 0 <= j < v.len() && o.takes(st0, hs, #[trigger] v[j], w, c);
            assert(headed(o.tbl(), v[j]));
            assert(self.takes(st, hs, v[j], w, c));
        }
        assert forall|hs: Fill, w: Word, j: int|
            #![trigger self.accepts(st, hs, v[j], w)]
            is_word(st.n(), w) && 0 <= j < v.len() && self.accepts(st, hs, v[j], w)
            implies self.accepts(st, hs, s, w) by {
            assert(headed(o.tbl(), v[j]));
            assert(o.accepts(st0, hs, v[j], w));
            assert(o.accepts(st0, hs, s, w));
        }
    }

    /// The edges of `q`: those of its heads, in order.
    pub fn transitions(&mut self, store: &mut SPPstore, q: State) -> (r: Vec<(EdgeLabel, State)>)
        requires
            old(store).wf(),
            old(self).wf(old(store)),
            old(self).has(q.aexpr),
        ensures
            final(store).wf(),
            final(store).sp == old(store).sp,
            final(self).wf(final(store)),
            keeps(*old(self), *old(store), *final(self), *final(store)),
            same_holes(*old(self), *final(self)),
            exists|v: Seq<AExprIdx>| #[trigger]
                splits(*final(self), *final(store), q.aexpr, v) && heads_of(
                    final(self).tbl(),
                    *final(store),
                    q.aexpr,
                    v,
                ) && edge_list(final(self).tbl(), *final(store), v, r@) && derives(
                    *final(self),
                    *final(store),
                    q.aexpr,
                    r@,
                    labels_of(*final(store), final(self).tbl(), v),
                ),
    {
        let (es, ls) = self.derivative(store, q);
        es
    }

    /// The labels at which `q` ends: none for no words, and the identity by itself
    /// where every packet leaves as it came.
    pub fn output(&mut self, store: &mut SPPstore, q: State) -> (r: Vec<EdgeLabel>)
        requires
            old(store).wf(),
            old(self).wf(old(store)),
            old(self).has(q.aexpr),
        ensures
            final(store).wf(),
            final(store).sp == old(store).sp,
            final(self).wf(final(store)),
            keeps(*old(self), *old(store), *final(self), *final(store)),
            same_holes(*old(self), *final(self)),
            exists|v: Seq<AExprIdx>| #[trigger]
                splits(*final(self), *final(store), q.aexpr, v) && heads_of(
                    final(self).tbl(),
                    *final(store),
                    q.aexpr,
                    v,
                ) && r@ == labels_of(
                    *final(store),
                    final(self).tbl(),
                    v,
                ),
            forall|hs: Fill, w: Word|
                is_word(old(store).n(), w) && #[trigger] ends(*final(store), hs, r@, w)
                    ==> old(self).accepts(*old(store), hs, q.aexpr, w),
    {
        let (es, ls) = self.derivative(store, q);
        ls
    }

    /// Whether entering the state records a packet.
    pub fn is_visible(&self, q: State) -> (b: bool)
        ensures
            b == q.visible,
    {
        q.visible
    }

    /// The index of an expression.
    pub fn expr_to_aexpr(&mut self, store: &mut SPPstore, expr: &Expr) -> (r: AExprIdx)
        requires
            old(store).wf(),
            old(self).wf(old(store)),
            drawn_from(*expr, old(store)),
        ensures
            final(store).wf(),
            final(store).sp == old(store).sp,
            final(self).wf(final(store)),
            keeps(*old(self), *old(store), *final(self), *final(store)),
            forall|h: Hole| #[trigger]
                final(self).uses(h) ==> old(self).uses(h) || mentions(*expr, h),
            final(self).has(r),
            forall|hs: Fill, w: Word|
                is_word(old(store).n(), w) ==> (#[trigger] final(self).accepts(
                    *final(store),
                    hs,
                    r,
                    w,
                ) <==> filled(*expr, *old(store), hs)(w)),
            indexes(final(self).tbl(), *final(store), *expr, r),
        decreases expr,
    {
        let ghost a0 = *self;
        let ghost st0 = *store;
        let ghost n = store.n();
        proof {
            store.lemma_wf();
            self.lemma_wf_ext(*store, *store);
        }
        match expr {
            Expr::Spp(s) => self.mk_spp(*s, store),
            Expr::Hole(h) => self.mk_hole(*h, store),
            Expr::Dup => self.mk_dup(store),
            Expr::Union(a, b) => {
                let x = self.expr_to_aexpr(store, a);
                let ghost a1 = *self;
                let ghost st1 = *store;
                proof {
                    lemma_filled_ext(**b, st0, st1);
                }
                let y = self.expr_to_aexpr(store, b);
                let ghost a2 = *self;
                let ghost st2 = *store;
                let r = self.mk_union(store, x, y);
                proof {
                    law_index_stays(a1, st1, *self, *store, **a, x);
                    law_index_stays(a2, st2, *self, *store, **b, y);
                    a2.lemma_normal(st2);
                    lemma_value_ext(self.tbl(), *store, a2.tbl(), st2, x);
                    lemma_value_ext(self.tbl(), *store, a2.tbl(), st2, y);
                    assert(sums(self.tbl(), *store, x, y, r));
                    self.lemma_keeps(*store, &a0, st0);
                    assert forall|hs: Fill, w: Word| is_word(n, w) implies (#[trigger] self.accepts(
                        *store,
                        hs,
                        r,
                        w,
                    ) <==> filled(*expr, st0, hs)(w)) by {
                        assert(a1.accepts(st1, hs, x, w) == a2.accepts(st2, hs, x, w));
                        assert(filled(**b, st0, hs)(w) == filled(**b, st1, hs)(w));
                    }
                }
                r
            },
            Expr::Sequence(a, b) => {
                let x = self.expr_to_aexpr(store, a);
                let ghost a1 = *self;
                let ghost st1 = *store;
                proof {
                    lemma_filled_ext(**b, st0, st1);
                }
                let y = self.expr_to_aexpr(store, b);
                let ghost a2 = *self;
                let ghost st2 = *store;
                let r = self.mk_sequence(store, x, y);
                proof {
                    law_index_stays(a1, st1, *self, *store, **a, x);
                    law_index_stays(a2, st2, *self, *store, **b, y);
                    a2.lemma_normal(st2);
                    lemma_value_ext(self.tbl(), *store, a2.tbl(), st2, x);
                    lemma_value_ext(self.tbl(), *store, a2.tbl(), st2, y);
                    assert(joins(self.tbl(), *store, x, y, r));
                    self.lemma_keeps(*store, &a0, st0);
                    assert forall|hs: Fill, w: Word| is_word(n, w) implies (#[trigger] self.accepts(
                        *store,
                        hs,
                        r,
                        w,
                    ) <==> filled(*expr, st0, hs)(w)) by {
                        let f = |v: Word| a2.accepts(st2, hs, x, v);
                        let g = |v: Word| a2.accepts(st2, hs, y, v);
                        let lf = filled(**a, st0, hs);
                        let lg = filled(**b, st0, hs);
                        assert(same(n, f, lf)) by {
                            assert forall|u: Word| is_word(n, u) implies f(u) == lf(u) by {
                                assert(a1.accepts(st1, hs, x, u) == a2.accepts(st2, hs, x, u));
                            }
                        }
                        assert(same(n, g, lg)) by {
                            assert forall|u: Word| is_word(n, u) implies g(u) == lg(u) by {
                                assert(filled(**b, st0, hs)(u) == filled(**b, st1, hs)(u));
                                assert(a2.accepts(st2, hs, y, u) <==> filled(**b, st1, hs)(u));
                            }
                        }
                        lemma_cat_same(n, f, g, lf, lg);
                        assert(cat(n, f, g)(w) == cat(n, lf, lg)(w));
                    }
                }
                r
            },
            Expr::Star(a) => {
                let x = self.expr_to_aexpr(store, a);
                let ghost a1 = *self;
                let ghost st1 = *store;
                let r = self.mk_star(store, x);
                proof {
                    law_index_stays(a1, st1, *self, *store, **a, x);
                    self.lemma_keeps(*store, &a0, st0);
                    assert forall|hs: Fill, w: Word| is_word(n, w) implies (#[trigger] self.accepts(
                        *store,
                        hs,
                        r,
                        w,
                    ) <==> filled(*expr, st0, hs)(w)) by {
                        let f = |v: Word| a1.accepts(st1, hs, x, v);
                        let lf = filled(**a, st0, hs);
                        assert(same(n, f, lf));
                        lemma_star_same_lang(n, f, lf);
                        assert(star(n, f)(w) == star(n, lf)(w));
                    }
                }
                r
            },
        }
    }

    /// The visible state of an expression.
    pub fn expr_to_state(&mut self, store: &mut SPPstore, expr: &Expr) -> (q: State)
        requires
            old(store).wf(),
            old(self).wf(old(store)),
            drawn_from(*expr, old(store)),
        ensures
            final(store).wf(),
            final(store).sp == old(store).sp,
            final(self).wf(final(store)),
            keeps(*old(self), *old(store), *final(self), *final(store)),
            forall|h: Hole| #[trigger]
                final(self).uses(h) ==> old(self).uses(h) || mentions(*expr, h),
            q.visible,
            final(self).has(q.aexpr),
            forall|hs: Fill, w: Word|
                is_word(old(store).n(), w) ==> (#[trigger] final(self).accepts(
                    *final(store),
                    hs,
                    q.aexpr,
                    w,
                ) <==> filled(*expr, *old(store), hs)(w)),
            indexes(final(self).tbl(), *final(store), *expr, q.aexpr),
    {
        let aexpr = self.expr_to_aexpr(store, expr);
        State { aexpr, visible: true }
    }

    /// Expressions with the same words are told apart only by how they are written:
    /// no two entries of the table are written alike.
    pub proof fn law_hash_consed(&self, st: SPPstore, s: AExprIdx, t: AExprIdx)
        requires
            self.wf(&st),
            self.has(s),
            self.has(t),
            self.tbl()[s as int] == self.tbl()[t as int],
        ensures
            s == t,
    {
        reveal(table_ok);
    }
}

/// Adding to the store keeps the meaning of an expression.
pub proof fn lemma_filled_ext(e: Expr, st: SPPstore, st2: SPPstore)
    requires
        drawn_from(e, &st),
        st2.extends(&st),
    ensures
        drawn_from(e, &st2),
        forall|hs: Fill| #[trigger] same(st.n(), filled(e, st, hs), filled(e, st2, hs)),
        forall|hs: Fill, w: Word|
            #![trigger filled(e, st2, hs)(w)]
            #![trigger filled(e, st, hs)(w)]
            is_word(st.n(), w) ==> filled(e, st, hs)(w) == filled(e, st2, hs)(w),
    decreases e,
{
    let n = st.n();
    match e {
        Expr::Spp(s) => {
            assert forall|hs: Fill| #[trigger]
                same(n, filled(e, st, hs), filled(e, st2, hs)) by {
                assert forall|w: Word| is_word(n, w) implies filled(e, st, hs)(w) == filled(
                    e,
                    st2,
                    hs,
                )(w) by {
                    assert(st.rel(s, w[0], w[1]) == st2.rel(s, w[0], w[1]));
                }
            }
        },
        Expr::Union(a, b) => {
            lemma_filled_ext(*a, st, st2);
            lemma_filled_ext(*b, st, st2);
            assert forall|hs: Fill| #[trigger]
                same(n, filled(e, st, hs), filled(e, st2, hs)) by {
                assert forall|w: Word| is_word(n, w) implies filled(e, st, hs)(w) == filled(
                    e,
                    st2,
                    hs,
                )(w) by {
                    assert(filled(*a, st, hs)(w) == filled(*a, st2, hs)(w));
                    assert(filled(*b, st, hs)(w) == filled(*b, st2, hs)(w));
                }
            }
        },
        Expr::Sequence(a, b) => {
            lemma_filled_ext(*a, st, st2);
            lemma_filled_ext(*b, st, st2);
            assert forall|hs: Fill| #[trigger]
                same(n, filled(e, st, hs), filled(e, st2, hs)) by {
                assert(same(n, filled(*a, st, hs), filled(*a, st2, hs)));
                assert(same(n, filled(*b, st, hs), filled(*b, st2, hs)));
                lemma_cat_same(
                    n,
                    filled(*a, st, hs),
                    filled(*b, st, hs),
                    filled(*a, st2, hs),
                    filled(*b, st2, hs),
                );
            }
        },
        Expr::Star(a) => {
            lemma_filled_ext(*a, st, st2);
            assert forall|hs: Fill| #[trigger]
                same(n, filled(e, st, hs), filled(e, st2, hs)) by {
                assert(same(n, filled(*a, st, hs), filled(*a, st2, hs)));
                lemma_star_same_lang(n, filled(*a, st, hs), filled(*a, st2, hs));
            }
        },
        _ => {},
    }
    assert forall|hs: Fill, w: Word|
        #![trigger filled(e, st2, hs)(w)]
        is_word(n, w) implies filled(e, st, hs)(w) == filled(e, st2, hs)(w) by {
        assert(same(n, filled(e, st, hs), filled(e, st2, hs)));
    }
}

impl Default for AutWithHoles {
    fn default() -> (a: AutWithHoles)
        ensures
            a.tbl().len() == 0,
    {
        AutWithHoles::new()
    }
}

} // verus!
