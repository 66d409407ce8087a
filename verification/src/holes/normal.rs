//! Normal forms of expressions with holes.
//!
//! What an expression of the table is, is told by two values.  As a sum it is a set of
//! expressions and a relation; as a product it is a chain of expressions and relations.
//! In a table of normal forms either of them is that of one expression only, so that
//! equal sums and equal products have equal indices.
use vstd::prelude::*;
use crate::holes::nk_with_holes::{
    keeps, table_ext, AExprIdx, AutWithHoles, Expr, Node,
};
use crate::sp::Pkt;
use crate::spp::{lemma_star_closed, lemma_star_least, star_of, SPPstore, SPP};

verus! {

// ---- relations -----------------------------------------------------------------------------

/// A relation on packets.
pub type Relation = spec_fn(Pkt, Pkt) -> bool;

/// A relation of the store, on its packets.
pub open spec fn relation(st: SPPstore, s: SPP) -> Relation {
    |p: Pkt, q: Pkt| p.len() == st.n() && q.len() == st.n() && st.rel(s, p, q)
}

/// No pair of packets.
pub open spec fn no_pair() -> Relation {
    |p: Pkt, q: Pkt| false
}

/// Every packet of `n` fields with itself.
pub open spec fn itself(n: nat) -> Relation {
    |p: Pkt, q: Pkt| p.len() == n && p == q
}

/// The one relation and then the other.
pub open spec fn then_by(n: nat, f: Relation, g: Relation) -> Relation {
    |p: Pkt, q: Pkt| exists|m: Pkt| m.len() == n && #[trigger] f(p, m) && g(m, q)
}

/// The relation is one on packets of `n` fields.
pub open spec fn on_fields(n: nat, f: Relation) -> bool {
    forall|p: Pkt, q: Pkt| #[trigger] f(p, q) ==> p.len() == n && q.len() == n
}

proof fn lemma_same_relation(f: Relation, g: Relation)
    requires
        forall|p: Pkt, q: Pkt| #[trigger] f(p, q) == g(p, q),
    ensures
        f == g,
{
    assert(f =~= g);
}

/// Joining is associative, with the identity for unit and the empty relation for zero.
proof fn lemma_then_by(n: nat, f: Relation, g: Relation, h: Relation)
    requires
        on_fields(n, f),
        on_fields(n, g),
        on_fields(n, h),
    ensures
        then_by(n, then_by(n, f, g), h) == then_by(n, f, then_by(n, g, h)),
        then_by(n, f, itself(n)) == f,
        then_by(n, itself(n), f) == f,
        then_by(n, f, no_pair()) == no_pair(),
        then_by(n, no_pair(), f) == no_pair(),
        on_fields(n, then_by(n, f, g)),
{
    let fg = then_by(n, f, g);
    let gh = then_by(n, g, h);
    let l = then_by(n, fg, h);
    let r = then_by(n, f, gh);
    assert forall|p: Pkt, q: Pkt| #[trigger] l(p, q) == r(p, q) by {
        if l(p, q) {
            let m = choose|m: Pkt| m.len() == n && #[trigger] fg(p, m) && h(m, q);
            let k = choose|k: Pkt| k.len() == n && #[trigger] f(p, k) && g(k, m);
            assert(g(k, m) && h(m, q));
            assert(gh(k, q));
            assert(f(p, k));
        }
        if r(p, q) {
            let k = choose|k: Pkt| k.len() == n && #[trigger] f(p, k) && gh(k, q);
            let m = choose|m: Pkt| m.len() == n && #[trigger] g(k, m) && h(m, q);
            assert(f(p, k) && g(k, m));
            assert(fg(p, m));
        }
    }
    lemma_same_relation(l, r);
    let a = then_by(n, f, itself(n));
    assert forall|p: Pkt, q: Pkt| #[trigger] a(p, q) == f(p, q) by {
        if f(p, q) {
            assert(itself(n)(q, q));
        }
    }
    lemma_same_relation(a, f);
    let b = then_by(n, itself(n), f);
    assert forall|p: Pkt, q: Pkt| #[trigger] b(p, q) == f(p, q) by {
        if f(p, q) {
            assert(itself(n)(p, p));
        }
    }
    lemma_same_relation(b, f);
    lemma_same_relation(then_by(n, f, no_pair()), no_pair());
    lemma_same_relation(then_by(n, no_pair(), f), no_pair());
}

/// A relation stays the same when the store grows.
pub proof fn lemma_relation_ext(st: SPPstore, o: SPPstore, s: SPP)
    requires
        st.extends(&o),
        o.has(s),
    ensures
        relation(st, s) == relation(o, s),
{
    let f = relation(st, s);
    let g = relation(o, s);
    assert forall|p: Pkt, q: Pkt| #[trigger] f(p, q) == g(p, q) by {
        if p.len() == o.n() && q.len() == o.n() {
            assert(st.rel(s, p, q) == o.rel(s, p, q));
        }
    }
    lemma_same_relation(f, g);
}

/// A store has every relation once.
pub proof fn lemma_relation_once(st: SPPstore, s: SPP, t: SPP)
    requires
        st.wf(),
        st.has(s),
        st.has(t),
    ensures
        relation(st, s) == relation(st, t) ==> s == t,
        relation(st, s) == no_pair() <==> s == st.zero,
        relation(st, s) == itself(st.n()) <==> s == st.one,
        on_fields(st.n(), relation(st, s)),
{
    st.lemma_wf();
    let f = relation(st, s);
    let g = relation(st, t);
    if f == g {
        assert forall|p: Pkt, q: Pkt| p.len() == st.n() && q.len() == st.n() implies st.rel(s, p, q)
            == st.rel(t, p, q) by {
            assert(f(p, q) == g(p, q));
        }
        st.lemma_unique(s, t);
    }
    if f == no_pair() {
        assert forall|p: Pkt, q: Pkt| p.len() == st.n() && q.len() == st.n() implies st.rel(s, p, q)
            == st.rel(st.zero, p, q) by {
            assert(f(p, q) == no_pair()(p, q));
        }
        st.lemma_unique(s, st.zero);
    }
    if s == st.zero {
        lemma_same_relation(f, no_pair());
    }
    if f == itself(st.n()) {
        assert forall|p: Pkt, q: Pkt| p.len() == st.n() && q.len() == st.n() implies st.rel(s, p, q)
            == st.rel(st.one, p, q) by {
            assert(f(p, q) == itself(st.n())(p, q));
        }
        st.lemma_unique(s, st.one);
    }
    if s == st.one {
        let i = itself(st.n());
        assert forall|p: Pkt, q: Pkt| #[trigger] f(p, q) == i(p, q) by {
            if p.len() == st.n() && q.len() == st.n() {
                assert(st.rel(st.one, p, q) <==> p == q);
            }
        }
        lemma_same_relation(f, i);
    }
}

// ---- chains --------------------------------------------------------------------------------

/// A factor of a product.
pub enum Item {
    Rel(Relation),
    Part(AExprIdx),
}

/// The factors of a product; none of it is left where it has no words.
pub type Chain = Option<Seq<Item>>;

/// The product with one more factor: the empty relation takes all, the identity is left
/// out, and relations side by side are joined.
pub open spec fn push_item(n: nat, c: Chain, x: Item) -> Chain {
    match c {
        None => None,
        Some(v) => match x {
            Item::Part(_) => Some(v.push(x)),
            Item::Rel(f) => if f == no_pair() {
                None
            } else if f == itself(n) {
                c
            } else if v.len() > 0 && v.last() is Rel {
                let h = then_by(n, v.last()->Rel_0, f);
                if h == no_pair() {
                    None
                } else if h == itself(n) {
                    Some(v.drop_last())
                } else {
                    Some(v.drop_last().push(Item::Rel(h)))
                }
            } else {
                Some(v.push(x))
            },
        },
    }
}

/// The product with more factors.
pub open spec fn push_items(n: nat, c: Chain, v: Seq<Item>) -> Chain
    decreases v.len(),
{
    if v.len() == 0 {
        c
    } else {
        push_item(n, push_items(n, c, v.drop_last()), v.last())
    }
}

/// The one product and then the other.
pub open spec fn times(n: nat, a: Chain, b: Chain) -> Chain {
    match b {
        None => None,
        Some(v) => push_items(n, a, v),
    }
}

/// The chain has no empty relation, no identity, and no relations side by side.
pub open spec fn tidy_chain(n: nat, c: Chain) -> bool {
    c matches Some(v) ==> {
        &&& forall|i: int|
            0 <= i < v.len() ==> (#[trigger] v[i] matches Item::Rel(f) ==> on_fields(n, f) && f
                != no_pair() && f != itself(n))
        &&& forall|i: int|
            0 <= i < v.len() - 1 ==> !((#[trigger] v[i]) is Rel && v[i + 1] is Rel)
    }
}

/// The factors are relations on packets of `n` fields, or expressions.
pub open spec fn on_chain(n: nat, v: Seq<Item>) -> bool {
    forall|i: int| 0 <= i < v.len() ==> (#[trigger] v[i] matches Item::Rel(f) ==> on_fields(n, f))
}

/// One more factor leaves a chain tidy.
pub proof fn lemma_push_tidy(n: nat, c: Chain, x: Item)
    requires
        tidy_chain(n, c),
        x matches Item::Rel(f) ==> on_fields(n, f),
    ensures
        tidy_chain(n, push_item(n, c, x)),
{
    if c is Some {
        let v = c->Some_0;
        let r = push_item(n, c, x);
        if x is Rel && v.len() > 0 && v.last() is Rel {
            let g = v.last()->Rel_0;
            assert(v[v.len() - 1] == v.last());
            lemma_then_by(n, g, x->Rel_0, g);
        }
        if r is Some {
            let u = r->Some_0;
            assert forall|i: int| 0 <= i < u.len() implies (#[trigger] u[i] matches Item::Rel(f)
                ==> on_fields(n, f) && f != no_pair() && f != itself(n)) by {
                if i < v.len() && u[i] == v[i] {
                }
            }
            assert forall|i: int| 0 <= i < u.len() - 1 implies !((#[trigger] u[i]) is Rel && u[i
                + 1] is Rel) by {
                assert(i < v.len());
                assert(u[i] == v[i]);
                if i + 1 < v.len() {
                    assert(!(v[i] is Rel && v[i + 1] is Rel));
                }
            }
        }
    }
}

proof fn lemma_items_tidy(n: nat, c: Chain, v: Seq<Item>)
    requires
        tidy_chain(n, c),
        on_chain(n, v),
    ensures
        tidy_chain(n, push_items(n, c, v)),
    decreases v.len(),
{
    if v.len() > 0 {
        assert(on_chain(n, v.drop_last())) by {
            assert forall|i: int| 0 <= i < v.drop_last().len() implies (
            #[trigger] v.drop_last()[i] matches Item::Rel(f) ==> on_fields(n, f)) by {
                assert(v[i] == v.drop_last()[i]);
            }
        }
        lemma_items_tidy(n, c, v.drop_last());
        assert(v[v.len() - 1] == v.last());
        lemma_push_tidy(n, push_items(n, c, v.drop_last()), v.last());
    }
}

/// Two relations one after the other are as one.
proof fn lemma_push_two(n: nat, c: Chain, g: Relation, f: Relation)
    requires
        tidy_chain(n, c),
        on_fields(n, f),
        on_fields(n, g),
        g != no_pair(),
        g != itself(n),
        f != no_pair(),
        f != itself(n),
    ensures
        push_item(n, push_item(n, c, Item::Rel(g)), Item::Rel(f)) == push_item(
            n,
            c,
            Item::Rel(then_by(n, g, f)),
        ),
{
    let h = then_by(n, g, f);
    lemma_then_by(n, g, f, f);
    if c is Some {
        let y = c->Some_0;
        if y.len() > 0 && y.last() is Rel {
            let e = y.last()->Rel_0;
            assert(y[y.len() - 1] == y.last());
            lemma_then_by(n, e, g, f);
            lemma_then_by(n, e, h, f);
            lemma_then_by(n, f, g, e);
            let y0 = y.drop_last();
            let k = then_by(n, e, g);
            assert(y =~= y0.push(Item::Rel(e)));
            assert(then_by(n, k, f) == then_by(n, e, h));
            if y0.len() > 0 {
                assert(!(y[y.len() - 2] is Rel && y[y.len() - 1] is Rel));
                assert(y0.last() == y[y.len() - 2]);
            }
            if k == no_pair() {
            } else if k == itself(n) {
            } else {
                let z = y0.push(Item::Rel(k));
                assert(z.drop_last() =~= y0);
            }
        } else {
            let z = y.push(Item::Rel(g));
            assert(z.drop_last() =~= y);
        }
    }
}

/// Factors that are pushed one by one are as the product of them.
pub proof fn lemma_times_items(n: nat, c: Chain, v: Seq<Item>)
    requires
        tidy_chain(n, c),
        on_chain(n, v),
    ensures
        push_items(n, c, v) == times(n, c, push_items(n, Some(Seq::empty()), v)),
        tidy_chain(n, push_items(n, Some(Seq::empty()), v)),
    decreases v.len(),
{
    let e = Some(Seq::<Item>::empty());
    lemma_items_tidy(n, e, v);
    if v.len() > 0 {
        let v0 = v.drop_last();
        let x = v.last();
        assert(v[v.len() - 1] == x);
        assert(on_chain(n, v0)) by {
            assert forall|i: int| 0 <= i < v0.len() implies (#[trigger] v0[i] matches Item::Rel(f)
                ==> on_fields(n, f)) by {
                assert(v[i] == v0[i]);
            }
        }
        lemma_times_items(n, c, v0);
        lemma_items_tidy(n, c, v0);
        let z = push_items(n, e, v0);
        let y = push_items(n, c, v0);
        assert(y == times(n, c, z));
        if z is Some {
            let u = z->Some_0;
            match x {
                Item::Part(_) => {
                    assert(u.push(x).drop_last() =~= u);
                },
                Item::Rel(f) => {
                    if f == no_pair() || f == itself(n) {
                    } else if u.len() > 0 && u.last() is Rel {
                        let g = u.last()->Rel_0;
                        assert(u[u.len() - 1] == u.last());
                        let u0 = u.drop_last();
                        let w = push_items(n, c, u0);
                        assert(on_chain(n, u0)) by {
                            assert forall|i: int| 0 <= i < u0.len() implies (
                            #[trigger] u0[i] matches Item::Rel(f) ==> on_fields(n, f)) by {
                                assert(u[i] == u0[i]);
                            }
                        }
                        lemma_items_tidy(n, c, u0);
                        assert(y == push_item(n, w, Item::Rel(g)));
                        lemma_push_two(n, w, g, f);
                        let h = then_by(n, g, f);
                        assert(push_item(n, y, x) == push_item(n, w, Item::Rel(h)));
                        if h != no_pair() && h != itself(n) {
                            assert(u0.push(Item::Rel(h)).drop_last() =~= u0);
                        }
                    } else {
                        assert(u.push(x).drop_last() =~= u);
                    }
                },
            }
        }
    }
}

/// Products are associative.
proof fn lemma_times_assoc(n: nat, a: Chain, b: Chain, c: Chain)
    requires
        tidy_chain(n, a),
        tidy_chain(n, b),
        tidy_chain(n, c),
    ensures
        times(n, times(n, a, b), c) == times(n, a, times(n, b, c)),
    decreases c,
{
    if c is Some && b is Some {
        let v = c->Some_0;
        let u = b->Some_0;
        assert(on_chain(n, u)) by {
            assert forall|i: int| 0 <= i < u.len() implies (#[trigger] u[i] matches Item::Rel(f)
                ==> on_fields(n, f)) by {}
        }
        assert(on_chain(n, v)) by {
            assert forall|i: int| 0 <= i < v.len() implies (#[trigger] v[i] matches Item::Rel(f)
                ==> on_fields(n, f)) by {}
        }
        assert(on_chain(n, u + v)) by {
            assert forall|i: int| 0 <= i < (u + v).len() implies (#[trigger] (u
                + v)[i] matches Item::Rel(f) ==> on_fields(n, f)) by {
                if i < u.len() {
                    assert((u + v)[i] == u[i]);
                } else {
                    assert((u + v)[i] == v[i - u.len()]);
                }
            }
        }
        lemma_items_add(n, a, u, v);
        let e = Some(Seq::<Item>::empty());
        lemma_items_add(n, e, u, v);
        lemma_items_self(n, u);
        lemma_times_items(n, a, u + v);
    } else if c is Some {
        lemma_items_none(n, c->Some_0);
    }
}

proof fn lemma_items_none(n: nat, v: Seq<Item>)
    ensures
        push_items(n, None, v) is None,
    decreases v.len(),
{
    if v.len() > 0 {
        lemma_items_none(n, v.drop_last());
    }
}

proof fn lemma_items_add(n: nat, c: Chain, u: Seq<Item>, v: Seq<Item>)
    ensures
        push_items(n, c, u + v) == push_items(n, push_items(n, c, u), v),
    decreases v.len(),
{
    if v.len() > 0 {
        lemma_items_add(n, c, u, v.drop_last());
        assert((u + v).drop_last() =~= u + v.drop_last());
        assert((u + v).last() == v.last());
    } else {
        assert(u + v =~= u);
    }
}

/// A tidy chain is what pushing its factors gives.
pub proof fn lemma_items_self(n: nat, v: Seq<Item>)
    requires
        tidy_chain(n, Some(v)),
    ensures
        push_items(n, Some(Seq::empty()), v) == Some(v),
    decreases v.len(),
{
    if v.len() > 0 {
        let v0 = v.drop_last();
        let c0: Chain = Some(v0);
        assert(tidy_chain(n, c0)) by {
            assert forall|i: int| 0 <= i < v0.len() implies (#[trigger] v0[i] matches Item::Rel(f)
                ==> on_fields(n, f) && f != no_pair() && f != itself(n)) by {
                assert(v0[i] == v[i]);
            }
            assert forall|i: int| 0 <= i < v0.len() - 1 implies !((#[trigger] v0[i]) is Rel && v0[i
                + 1] is Rel) by {
                assert(v0[i] == v[i] && v0[i + 1] == v[i + 1]);
            }
        }
        lemma_items_self(n, v0);
        assert(v[v.len() - 1] == v.last());
        if v0.len() > 0 {
            assert(v0.last() == v[v.len() - 2]);
            assert(!(v[v.len() - 2] is Rel && v[v.len() - 1] is Rel));
        }
        assert(v =~= v0.push(v.last()));
    } else {
        assert(v =~= Seq::empty());
    }
}


// ---- what an expression is -----------------------------------------------------------------

/// An expression as a factor.
pub open spec fn item_of(tbl: Seq<Node>, st: SPPstore, x: AExprIdx) -> Item {
    match tbl[x as int] {
        Node::Spp(s) => Item::Rel(relation(st, s)),
        _ => Item::Part(x),
    }
}

/// The expressions of a list as factors.
pub open spec fn items_of(tbl: Seq<Node>, st: SPPstore, v: Seq<AExprIdx>) -> Seq<Item> {
    Seq::new(v.len(), |i: int| item_of(tbl, st, v[i]))
}

/// An expression as a product.
pub open spec fn chain_of(tbl: Seq<Node>, st: SPPstore, x: AExprIdx) -> Chain {
    match tbl[x as int] {
        Node::Sequence(v) => Some(items_of(tbl, st, v)),
        _ => push_item(st.n(), Some(Seq::empty()), item_of(tbl, st, x)),
    }
}

/// The product of the first `k` expressions of a list.
pub open spec fn chain_list(tbl: Seq<Node>, st: SPPstore, v: Seq<AExprIdx>, k: int) -> Chain
    decreases k,
{
    if k <= 0 || k > v.len() {
        Some(Seq::empty())
    } else {
        times(st.n(), chain_list(tbl, st, v, k - 1), chain_of(tbl, st, v[k - 1]))
    }
}

/// A sum: the expressions in it, and what its relations relate.
pub struct Sum {
    pub parts: Set<AExprIdx>,
    pub rel: Relation,
}

/// The expression is a summand of `v` that is no relation.
pub open spec fn is_part(tbl: Seq<Node>, v: Seq<AExprIdx>, y: AExprIdx) -> bool {
    v.contains(y) && !(tbl[y as int] is Spp)
}

/// A relation among the summands relates the packets.
pub open spec fn relates(
    tbl: Seq<Node>,
    st: SPPstore,
    v: Seq<AExprIdx>,
    y: AExprIdx,
    p: Pkt,
    q: Pkt,
) -> bool {
    &&& v.contains(y)
    &&& tbl[y as int] matches Node::Spp(s) && relation(st, s)(p, q)
}

/// The sum of the expressions of a list, none of which is a sum.
pub open spec fn flat_sum(tbl: Seq<Node>, st: SPPstore, v: Seq<AExprIdx>) -> Sum {
    Sum {
        parts: Set::new(|y: AExprIdx| is_part(tbl, v, y)),
        rel: |p: Pkt, q: Pkt| exists|y: AExprIdx| #[trigger] relates(tbl, st, v, y, p, q),
    }
}

/// An expression as a sum.
pub open spec fn sum_of(tbl: Seq<Node>, st: SPPstore, x: AExprIdx) -> Sum {
    match tbl[x as int] {
        Node::Union(v) => flat_sum(tbl, st, v),
        _ => flat_sum(tbl, st, seq![x]),
    }
}

/// Both sums.
pub open spec fn plus(a: Sum, b: Sum) -> Sum {
    Sum { parts: a.parts.union(b.parts), rel: |p: Pkt, q: Pkt| (a.rel)(p, q) || (b.rel)(p, q) }
}

/// The sum without summands.
pub open spec fn no_sum() -> Sum {
    Sum { parts: Set::empty(), rel: no_pair() }
}

/// The sum of the first `k` expressions of a list.
pub open spec fn sum_list(tbl: Seq<Node>, st: SPPstore, v: Seq<AExprIdx>, k: int) -> Sum
    decreases k,
{
    if k <= 0 || k > v.len() {
        no_sum()
    } else {
        plus(sum_list(tbl, st, v, k - 1), sum_of(tbl, st, v[k - 1]))
    }
}

/// `r` is the repetition of `e`: that of a repetition is the same, and that of a relation
/// is a relation.
pub open spec fn repeats(tbl: Seq<Node>, st: SPPstore, e: AExprIdx, r: AExprIdx) -> bool {
    match tbl[e as int] {
        Node::Star(_) => r == e,
        Node::Spp(s) => tbl[r as int] matches Node::Spp(t) && st.has(t) && forall|p: Pkt, q: Pkt|
            p.len() == st.n() && q.len() == st.n() ==> (#[trigger] st.rel(t, p, q) <==> star_of(
                relation(st, s),
                st.n(),
                p,
                q,
            )),
        _ => tbl[r as int] == Node::Star(e),
    }
}

/// The node is a normal form.  A sum has at least two summands, in ascending order: no
/// sums, and at most one relation, which is not empty.  A product has at least two
/// factors: no products, no empty relation, no identity, and no relations side by side.
/// What is repeated is neither a repetition nor a relation.
#[verifier::opaque]
pub open spec fn normal(tbl: Seq<Node>, st: SPPstore, node: Node) -> bool {
    match node {
        Node::Union(v) => {
            &&& v.len() >= 2
            &&& forall|i: int, j: int| #![trigger v[i], v[j]] 0 <= i < j < v.len() ==> v[i] < v[j]
            &&& forall|i: int|
                0 <= i < v.len() ==> #[trigger] v[i] < tbl.len() && !(tbl[v[i] as int] is Union)
                    && tbl[v[i] as int] != Node::Spp(st.zero)
            &&& forall|i: int, j: int|
                #![trigger v[i], v[j]]
                0 <= i < v.len() && 0 <= j < v.len() && tbl[v[i] as int] is Spp
                    && tbl[v[j] as int] is Spp ==> i == j
        },
        Node::Sequence(v) => v.len() >= 2 && tidy_list(tbl, st, v),
        Node::Star(e) => e < tbl.len() && !(tbl[e as int] is Star) && !(tbl[e as int] is Spp),
        _ => true,
    }
}

/// The list has no products, no empty relation, no identity, and no relations side by side.
pub open spec fn tidy_list(tbl: Seq<Node>, st: SPPstore, v: Seq<AExprIdx>) -> bool {
    &&& forall|i: int|
        0 <= i < v.len() ==> #[trigger] v[i] < tbl.len() && !(tbl[v[i] as int] is Sequence)
            && tbl[v[i] as int] != Node::Spp(st.zero) && tbl[v[i] as int] != Node::Spp(st.one)
    &&& forall|i: int|
        0 <= i < v.len() - 1 ==> !(tbl[#[trigger] v[i] as int] is Spp && tbl[v[i + 1] as int] is Spp)
}

/// The relations of the table are relations of the store.
pub open spec fn relations_known(tbl: Seq<Node>, st: SPPstore) -> bool {
    forall|i: int| 0 <= i < tbl.len() ==> (#[trigger] tbl[i] matches Node::Spp(s) ==> st.has(s))
}

/// The list is one of expressions of the table.
pub open spec fn in_table(tbl: Seq<Node>, v: Seq<AExprIdx>) -> bool {
    forall|i: int| 0 <= i < v.len() ==> #[trigger] v[i] < tbl.len()
}

/// What the table provides.
pub open spec fn normal_table(tbl: Seq<Node>, st: SPPstore) -> bool {
    &&& st.wf()
    &&& relations_known(tbl, st)
    &&& forall|i: int| 0 <= i < tbl.len() ==> normal(tbl, st, #[trigger] tbl[i])
    &&& forall|i: int|
        0 <= i < tbl.len() ==> (#[trigger] tbl[i] matches Node::Union(v) ==> in_table(tbl, v))
    &&& forall|i: int|
        0 <= i < tbl.len() ==> (#[trigger] tbl[i] matches Node::Sequence(v) ==> in_table(tbl, v))
    &&& forall|i: int, j: int|
        #![trigger tbl[i], tbl[j]]
        0 <= i < tbl.len() && 0 <= j < tbl.len() && tbl[i] == tbl[j] ==> i == j
}

// ---- growth --------------------------------------------------------------------------------

/// The factors of a list stay the same when the table and the store grow.
pub proof fn lemma_items_ext(
    tbl: Seq<Node>,
    st: SPPstore,
    old_tbl: Seq<Node>,
    o: SPPstore,
    v: Seq<AExprIdx>,
)
    requires
        st.extends(&o),
        table_ext(old_tbl, tbl),
        relations_known(old_tbl, o),
        in_table(old_tbl, v),
    ensures
        items_of(tbl, st, v) == items_of(old_tbl, o, v),
{
    assert forall|i: int| 0 <= i < v.len() implies item_of(tbl, st, v[i]) == item_of(
        old_tbl,
        o,
        v[i],
    ) by {
        assert(v[i] < old_tbl.len());
        assert(old_tbl[v[i] as int] == tbl[v[i] as int]);
        if let Node::Spp(s) = old_tbl[v[i] as int] {
            lemma_relation_ext(st, o, s);
        }
    }
    assert(items_of(tbl, st, v) =~= items_of(old_tbl, o, v));
}

/// What an expression is stays the same when the table and the store grow.
pub proof fn lemma_value_ext(
    tbl: Seq<Node>,
    st: SPPstore,
    old_tbl: Seq<Node>,
    o: SPPstore,
    x: AExprIdx,
)
    requires
        st.extends(&o),
        table_ext(old_tbl, tbl),
        normal_table(old_tbl, o),
        x < old_tbl.len(),
    ensures
        chain_of(tbl, st, x) == chain_of(old_tbl, o, x),
        sum_of(tbl, st, x) == sum_of(old_tbl, o, x),
{
    assert(old_tbl[x as int] == tbl[x as int]);
    let v = match tbl[x as int] {
        Node::Union(v) => v,
        Node::Sequence(v) => v,
        _ => seq![x],
    };
    assert(in_table(old_tbl, v));
    assert(in_table(old_tbl, seq![x]));
    lemma_items_ext(tbl, st, old_tbl, o, v);
    lemma_items_ext(tbl, st, old_tbl, o, seq![x]);
    assert(items_of(tbl, st, seq![x])[0] == item_of(tbl, st, x));
    assert(items_of(old_tbl, o, seq![x])[0] == item_of(old_tbl, o, x));
    lemma_flat_ext(tbl, st, old_tbl, o, v);
    lemma_flat_ext(tbl, st, old_tbl, o, seq![x]);
}

/// The sum of a list stays the same when the table and the store grow.
pub proof fn lemma_flat_ext(
    tbl: Seq<Node>,
    st: SPPstore,
    old_tbl: Seq<Node>,
    o: SPPstore,
    v: Seq<AExprIdx>,
)
    requires
        st.extends(&o),
        table_ext(old_tbl, tbl),
        relations_known(old_tbl, o),
        in_table(old_tbl, v),
    ensures
        flat_sum(tbl, st, v) == flat_sum(old_tbl, o, v),
{
    let a = flat_sum(tbl, st, v);
    let b = flat_sum(old_tbl, o, v);
    assert forall|y: AExprIdx| v.contains(y) implies #[trigger] tbl[y as int] == old_tbl[y as int] by {
        let i = choose|i: int| 0 <= i < v.len() && v[i] == y;
        assert(v[i] < old_tbl.len());
    }
    assert(a.parts =~= b.parts) by {
        assert forall|y: AExprIdx| #[trigger] a.parts.contains(y) == b.parts.contains(y) by {
            if v.contains(y) {
                assert(tbl[y as int] == old_tbl[y as int]);
            }
        }
    }
    assert forall|y: AExprIdx, p: Pkt, q: Pkt| #[trigger]
        relates(tbl, st, v, y, p, q) == relates(old_tbl, o, v, y, p, q) by {
        if v.contains(y) {
            assert(tbl[y as int] == old_tbl[y as int]);
            let i = choose|i: int| 0 <= i < v.len() && v[i] == y;
            assert(v[i] < old_tbl.len());
            if let Node::Spp(s) = old_tbl[y as int] {
                lemma_relation_ext(st, o, s);
            }
        }
    }
    assert forall|p: Pkt, q: Pkt| #[trigger] (a.rel)(p, q) == (b.rel)(p, q) by {
        if (a.rel)(p, q) {
            let y = choose|y: AExprIdx| #[trigger] relates(tbl, st, v, y, p, q);
            assert(relates(old_tbl, o, v, y, p, q));
        }
        if (b.rel)(p, q) {
            let y = choose|y: AExprIdx| #[trigger] relates(old_tbl, o, v, y, p, q);
            assert(relates(tbl, st, v, y, p, q));
        }
    }
    lemma_same_relation(a.rel, b.rel);
}

// ---- one expression for a value --------------------------------------------------------------

/// The chain of an expression is tidy.
pub proof fn lemma_chain_tidy(tbl: Seq<Node>, st: SPPstore, x: AExprIdx)
    requires
        normal_table(tbl, st),
        x < tbl.len(),
    ensures
        tidy_chain(st.n(), chain_of(tbl, st, x)),
{
    reveal(normal);
    assert(normal(tbl, st, tbl[x as int]));
    match tbl[x as int] {
        Node::Sequence(v) => {
            lemma_list_tidy(tbl, st, v);
        },
        Node::Spp(s) => {
            lemma_relation_once(st, s, s);
            lemma_push_tidy(st.n(), Some(Seq::empty()), item_of(tbl, st, x));
        },
        _ => {
            lemma_push_tidy(st.n(), Some(Seq::empty()), item_of(tbl, st, x));
        },
    }
}

/// The factors of a tidy list are a tidy chain.
pub proof fn lemma_list_tidy(tbl: Seq<Node>, st: SPPstore, v: Seq<AExprIdx>)
    requires
        st.wf(),
        relations_known(tbl, st),
        tidy_list(tbl, st, v),
    ensures
        tidy_chain(st.n(), Some(items_of(tbl, st, v))),
{
    let u = items_of(tbl, st, v);
    assert forall|i: int| 0 <= i < u.len() implies (#[trigger] u[i] matches Item::Rel(f)
        ==> on_fields(st.n(), f) && f != no_pair() && f != itself(st.n())) by {
        assert(v[i] < tbl.len());
        if let Node::Spp(s) = tbl[v[i] as int] {
            lemma_relation_once(st, s, s);
        }
    }
    assert forall|i: int| 0 <= i < u.len() - 1 implies !((#[trigger] u[i]) is Rel && u[i
        + 1] is Rel) by {
        assert(!(tbl[v[i] as int] is Spp && tbl[v[i + 1] as int] is Spp));
    }
}

/// Expressions that are the same factor are the same.
proof fn lemma_item_once(tbl: Seq<Node>, st: SPPstore, x: AExprIdx, y: AExprIdx)
    requires
        normal_table(tbl, st),
        x < tbl.len(),
        y < tbl.len(),
        item_of(tbl, st, x) == item_of(tbl, st, y),
    ensures
        x == y,
{
    if let Node::Spp(s) = tbl[x as int] {
        if let Node::Spp(t) = tbl[y as int] {
            assert(item_of(tbl, st, x)->Rel_0 == item_of(tbl, st, y)->Rel_0);
            lemma_relation_once(st, s, t);
            assert(tbl[x as int] == tbl[y as int]);
        }
    }
}

/// One factor is told by the product of it.
proof fn lemma_push_once(n: nat, x: Item, y: Item)
    requires
        push_item(n, Some(Seq::empty()), x) == push_item(n, Some(Seq::empty()), y),
    ensures
        x == y,
{
    let e = Seq::<Item>::empty();
    assert(e.push(x)[0] == x);
    assert(e.push(y)[0] == y);
    assert(e.push(x).len() == 1 && e.push(y).len() == 1);
}

/// The product of one factor has at most one.
proof fn lemma_push_short(n: nat, x: Item)
    ensures
        push_item(n, Some(Seq::empty()), x) matches Some(v) ==> v.len() <= 1,
{
}

/// Products with the same factors are the same.
proof fn lemma_items_once(tbl: Seq<Node>, st: SPPstore, v: Seq<AExprIdx>, u: Seq<AExprIdx>)
    requires
        normal_table(tbl, st),
        in_table(tbl, v),
        in_table(tbl, u),
        items_of(tbl, st, v) == items_of(tbl, st, u),
    ensures
        v == u,
{
    let a = items_of(tbl, st, v);
    let b = items_of(tbl, st, u);
    assert(a.len() == v.len() && b.len() == u.len());
    assert forall|i: int| 0 <= i < v.len() implies v[i] == u[i] by {
        assert(a[i] == b[i]);
        assert(v[i] < tbl.len() && u[i] < tbl.len());
        lemma_item_once(tbl, st, v[i], u[i]);
    }
    assert(v =~= u);
}

/// Expressions that are the same product are the same.
pub proof fn lemma_chain_once(tbl: Seq<Node>, st: SPPstore, x: AExprIdx, y: AExprIdx)
    requires
        normal_table(tbl, st),
        x < tbl.len(),
        y < tbl.len(),
        chain_of(tbl, st, x) == chain_of(tbl, st, y),
    ensures
        x == y,
{
    reveal(normal);
    let n = st.n();
    assert(normal(tbl, st, tbl[x as int]) && normal(tbl, st, tbl[y as int]));
    lemma_push_short(n, item_of(tbl, st, x));
    lemma_push_short(n, item_of(tbl, st, y));
    match (tbl[x as int], tbl[y as int]) {
        (Node::Sequence(v), Node::Sequence(u)) => {
            lemma_items_once(tbl, st, v, u);
        },
        (Node::Sequence(v), _) => {
            assert(items_of(tbl, st, v).len() >= 2);
        },
        (_, Node::Sequence(u)) => {
            assert(items_of(tbl, st, u).len() >= 2);
        },
        _ => {
            lemma_push_once(n, item_of(tbl, st, x), item_of(tbl, st, y));
            lemma_item_once(tbl, st, x, y);
        },
    }
}

/// The one relation among the summands is what they relate.
proof fn lemma_sum_rel(tbl: Seq<Node>, st: SPPstore, v: Seq<AExprIdx>, k: int)
    requires
        0 <= k < v.len(),
        tbl[v[k] as int] is Spp,
        forall|i: int| 0 <= i < v.len() && tbl[#[trigger] v[i] as int] is Spp ==> i == k,
    ensures
        flat_sum(tbl, st, v).rel == relation(st, tbl[v[k] as int]->Spp_0),
{
    let a = flat_sum(tbl, st, v).rel;
    let b = relation(st, tbl[v[k] as int]->Spp_0);
    assert forall|p: Pkt, q: Pkt| #[trigger] a(p, q) == b(p, q) by {
        if a(p, q) {
            let y = choose|y: AExprIdx| #[trigger] relates(tbl, st, v, y, p, q);
            let i = choose|i: int| 0 <= i < v.len() && v[i] == y;
            assert(tbl[v[i] as int] is Spp);
        }
        if b(p, q) {
            assert(v.contains(v[k]));
            assert(relates(tbl, st, v, v[k], p, q));
        }
    }
    lemma_same_relation(a, b);
}

/// Where no summand is a relation, nothing is related.
proof fn lemma_sum_none(tbl: Seq<Node>, st: SPPstore, v: Seq<AExprIdx>)
    requires
        forall|i: int| 0 <= i < v.len() ==> !(tbl[#[trigger] v[i] as int] is Spp),
    ensures
        flat_sum(tbl, st, v).rel == no_pair(),
{
    let a = flat_sum(tbl, st, v).rel;
    assert forall|p: Pkt, q: Pkt| !(#[trigger] a(p, q)) by {
        if a(p, q) {
            let y = choose|y: AExprIdx| #[trigger] relates(tbl, st, v, y, p, q);
            let i = choose|i: int| 0 <= i < v.len() && v[i] == y;
            assert(tbl[v[i] as int] is Spp);
        }
    }
    lemma_same_relation(a, no_pair());
}

/// A list in the form of the summands of a normal form, or of one expression.
pub open spec fn tidy_sum(tbl: Seq<Node>, st: SPPstore, v: Seq<AExprIdx>) -> bool {
    &&& forall|i: int, j: int| #![trigger v[i], v[j]] 0 <= i < j < v.len() ==> v[i] < v[j]
    &&& in_table(tbl, v)
    &&& forall|i: int| 0 <= i < v.len() ==> tbl[#[trigger] v[i] as int] != Node::Spp(st.zero)
    &&& forall|i: int, j: int|
        #![trigger v[i], v[j]]
        0 <= i < v.len() && 0 <= j < v.len() && tbl[v[i] as int] is Spp && tbl[v[j] as int] is Spp
            ==> i == j
}

/// A tidy list of summands is told by its sum.
proof fn lemma_sum_contains(
    tbl: Seq<Node>,
    st: SPPstore,
    v: Seq<AExprIdx>,
    u: Seq<AExprIdx>,
    y: AExprIdx,
)
    requires
        normal_table(tbl, st),
        tidy_sum(tbl, st, v),
        tidy_sum(tbl, st, u),
        flat_sum(tbl, st, v) == flat_sum(tbl, st, u),
        v.contains(y),
    ensures
        u.contains(y),
{
    let k = choose|k: int| 0 <= k < v.len() && v[k] == y;
    if tbl[y as int] is Spp {
        let s = tbl[y as int]->Spp_0;
        assert(v[k] < tbl.len());
        lemma_sum_rel(tbl, st, v, k);
        lemma_relation_once(st, s, s);
        if forall|i: int| 0 <= i < u.len() ==> !(tbl[#[trigger] u[i] as int] is Spp) {
            lemma_sum_none(tbl, st, u);
        } else {
            let j = choose|j: int| 0 <= j < u.len() && tbl[#[trigger] u[j] as int] is Spp;
            lemma_sum_rel(tbl, st, u, j);
            assert(u[j] < tbl.len());
            lemma_relation_once(st, s, tbl[u[j] as int]->Spp_0);
            assert(tbl[u[j] as int] == tbl[y as int]);
            assert(u[j] == y);
        }
    } else {
        assert(flat_sum(tbl, st, v).parts.contains(y));
        assert(flat_sum(tbl, st, u).parts.contains(y));
    }
}

/// Ascending lists with the same entries are the same.
proof fn lemma_ascending(v: Seq<AExprIdx>, u: Seq<AExprIdx>)
    requires
        forall|i: int, j: int| #![trigger v[i], v[j]] 0 <= i < j < v.len() ==> v[i] < v[j],
        forall|i: int, j: int| #![trigger u[i], u[j]] 0 <= i < j < u.len() ==> u[i] < u[j],
        forall|y: AExprIdx| #[trigger] v.contains(y) <==> u.contains(y),
    ensures
        v == u,
    decreases v.len(),
{
    if v.len() == 0 {
        if u.len() > 0 {
            assert(u.contains(u[0]));
            assert(v.contains(u[0]));
        }
        assert(v =~= u);
    } else {
        assert(v.contains(v[v.len() - 1]));
        assert(u.contains(v[v.len() - 1]));
        let a = v[v.len() - 1];
        let b = u[u.len() - 1];
        assert(u.contains(b));
        assert(v.contains(b));
        let i = choose|i: int| 0 <= i < v.len() && v[i] == b;
        let j = choose|j: int| 0 <= j < u.len() && u[j] == a;
        if i < v.len() - 1 {
            assert(v[i] < v[v.len() - 1]);
        }
        if j < u.len() - 1 {
            assert(u[j] < u[u.len() - 1]);
        }
        assert(a == b);
        let v0 = v.drop_last();
        let u0 = u.drop_last();
        assert forall|y: AExprIdx| #[trigger] v0.contains(y) <==> u0.contains(y) by {
            if v0.contains(y) {
                let k = choose|k: int| 0 <= k < v0.len() && v0[k] == y;
                assert(v[k] == y && v[k] < v[v.len() - 1]);
                assert(v.contains(y));
                assert(u.contains(y));
                let l = choose|l: int| 0 <= l < u.len() && u[l] == y;
                assert(u0[l] == y);
            }
            if u0.contains(y) {
                let k = choose|k: int| 0 <= k < u0.len() && u0[k] == y;
                assert(u[k] == y && u[k] < u[u.len() - 1]);
                assert(u.contains(y));
                assert(v.contains(y));
                let l = choose|l: int| 0 <= l < v.len() && v[l] == y;
                assert(v0[l] == y);
            }
        }
        lemma_ascending(v0, u0);
        assert(v =~= v0.push(a));
        assert(u =~= u0.push(b));
    }
}

/// Tidy lists with the same sum are the same.
pub proof fn lemma_sum_lists(
    tbl: Seq<Node>,
    st: SPPstore,
    v: Seq<AExprIdx>,
    u: Seq<AExprIdx>,
)
    requires
        normal_table(tbl, st),
        tidy_sum(tbl, st, v),
        tidy_sum(tbl, st, u),
        flat_sum(tbl, st, v) == flat_sum(tbl, st, u),
    ensures
        v == u,
{
    assert forall|y: AExprIdx| #[trigger] v.contains(y) <==> u.contains(y) by {
        if v.contains(y) {
            lemma_sum_contains(tbl, st, v, u, y);
        }
        if u.contains(y) {
            lemma_sum_contains(tbl, st, u, v, y);
        }
    }
    lemma_ascending(v, u);
}

/// The summands of an expression.
pub open spec fn summands(tbl: Seq<Node>, st: SPPstore, x: AExprIdx) -> Seq<AExprIdx> {
    match tbl[x as int] {
        Node::Union(v) => v,
        Node::Spp(s) => if s == st.zero {
            Seq::empty()
        } else {
            seq![x]
        },
        _ => seq![x],
    }
}

/// The summands of an expression are a tidy list, with its sum.
pub proof fn lemma_summands(tbl: Seq<Node>, st: SPPstore, x: AExprIdx)
    requires
        normal_table(tbl, st),
        x < tbl.len(),
    ensures
        tidy_sum(tbl, st, summands(tbl, st, x)),
        flat_sum(tbl, st, summands(tbl, st, x)) == sum_of(tbl, st, x),
{
    reveal(normal);
    assert(normal(tbl, st, tbl[x as int]));
    let v = summands(tbl, st, x);
    if tbl[x as int] == Node::Spp(st.zero) {
        let a = flat_sum(tbl, st, v);
        let b = flat_sum(tbl, st, seq![x]);
        lemma_sum_none(tbl, st, v);
        assert(seq![x][0] == x);
        lemma_sum_rel(tbl, st, seq![x], 0);
        lemma_relation_once(st, st.zero, st.zero);
        assert(a.parts =~= b.parts) by {
            assert forall|y: AExprIdx| #[trigger] a.parts.contains(y) == b.parts.contains(y) by {
                if seq![x].contains(y) {
                    assert(y == x);
                }
            }
        }
    }
}

/// Expressions that are the same sum are the same.
pub proof fn lemma_sum_once(tbl: Seq<Node>, st: SPPstore, x: AExprIdx, y: AExprIdx)
    requires
        normal_table(tbl, st),
        x < tbl.len(),
        y < tbl.len(),
        sum_of(tbl, st, x) == sum_of(tbl, st, y),
    ensures
        x == y,
{
    reveal(normal);
    lemma_summands(tbl, st, x);
    lemma_summands(tbl, st, y);
    let v = summands(tbl, st, x);
    let u = summands(tbl, st, y);
    lemma_sum_lists(tbl, st, v, u);
    assert(normal(tbl, st, tbl[x as int]) && normal(tbl, st, tbl[y as int]));
    if v.len() == 0 {
        assert(tbl[x as int] == tbl[y as int]);
    } else if v.len() == 1 {
        assert(v[0] == x && u[0] == y);
    } else {
        assert(tbl[x as int] == Node::Union(v) && tbl[y as int] == Node::Union(u));
    }
}

// ---- building sums and products --------------------------------------------------------------

/// A node stays normal when the table and the store grow.
pub proof fn lemma_normal_ext(
    tbl: Seq<Node>,
    st: SPPstore,
    old_tbl: Seq<Node>,
    o: SPPstore,
    node: Node,
)
    requires
        st.extends(&o),
        table_ext(old_tbl, tbl),
        normal(old_tbl, o, node),
    ensures
        normal(tbl, st, node),
{
    reveal(normal);
    match node {
        Node::Union(v) => {
            assert forall|i: int| 0 <= i < v.len() implies #[trigger] v[i] < tbl.len() && tbl[v[i] as int]
                == old_tbl[v[i] as int] by {
                assert(v[i] < old_tbl.len());
            }
            assert forall|i: int, j: int|
                #![trigger v[i], v[j]]
                0 <= i < v.len() && 0 <= j < v.len() && tbl[v[i] as int] is Spp
                    && tbl[v[j] as int] is Spp implies i == j by {
                assert(v[i] < tbl.len() && v[j] < tbl.len());
            }
        },
        Node::Sequence(v) => {
            lemma_list_ext(tbl, st, old_tbl, o, v);
        },
        _ => {},
    }
}

/// A list stays tidy when the table and the store grow.
pub proof fn lemma_list_ext(
    tbl: Seq<Node>,
    st: SPPstore,
    old_tbl: Seq<Node>,
    o: SPPstore,
    v: Seq<AExprIdx>,
)
    requires
        st.extends(&o),
        table_ext(old_tbl, tbl),
        tidy_list(old_tbl, o, v),
    ensures
        tidy_list(tbl, st, v),
{
    assert forall|i: int| 0 <= i < v.len() implies #[trigger] v[i] < tbl.len() && tbl[v[i] as int]
        == old_tbl[v[i] as int] by {
        assert(v[i] < old_tbl.len());
    }
    assert forall|i: int| 0 <= i < v.len() - 1 implies !(tbl[#[trigger] v[i] as int] is Spp
        && tbl[v[i + 1] as int] is Spp) by {
        assert(v[i] < tbl.len() && v[i + 1] < tbl.len());
        assert(!(old_tbl[v[i] as int] is Spp && old_tbl[v[i + 1] as int] is Spp));
    }
}

/// A relation that stands beside none is one more factor.
pub proof fn lemma_append_new(
    tbl: Seq<Node>,
    st: SPPstore,
    old_tbl: Seq<Node>,
    o: SPPstore,
    out: Seq<AExprIdx>,
    x: SPP,
    c: AExprIdx,
)
    requires
        o.wf(),
        st.wf(),
        st.extends(&o),
        table_ext(old_tbl, tbl),
        relations_known(old_tbl, o),
        tidy_list(old_tbl, o, out),
        st.has(x),
        x != st.zero,
        x != st.one,
        c < tbl.len(),
        tbl[c as int] == Node::Spp(x),
        out.len() > 0 ==> !(old_tbl[out.last() as int] is Spp),
    ensures
        tidy_list(tbl, st, out.push(c)),
        push_item(st.n(), Some(items_of(old_tbl, o, out)), Item::Rel(relation(st, x))) == Some(
            items_of(tbl, st, out.push(c)),
        ),
{
    let u = out.push(c);
    let a = items_of(old_tbl, o, out);
    lemma_list_ext(tbl, st, old_tbl, o, out);
    assert(in_table(old_tbl, out));
    lemma_items_ext(tbl, st, old_tbl, o, out);
    lemma_relation_once(st, x, x);
    if out.len() > 0 {
        assert(out[out.len() - 1] < old_tbl.len());
        assert(a.last() == item_of(old_tbl, o, out.last()));
    }
    assert(items_of(tbl, st, u) =~= a.push(Item::Rel(relation(st, x)))) by {
        assert forall|i: int| 0 <= i < out.len() implies items_of(tbl, st, u)[i] == a[i] by {
            assert(items_of(tbl, st, out)[i] == a[i]);
        }
    }
    assert forall|i: int| 0 <= i < u.len() implies #[trigger] u[i] < tbl.len()
        && !(tbl[u[i] as int] is Sequence) && tbl[u[i] as int] != Node::Spp(st.zero)
        && tbl[u[i] as int] != Node::Spp(st.one) by {
        if i < out.len() {
            assert(u[i] == out[i]);
        }
    }
    assert forall|i: int| 0 <= i < u.len() - 1 implies !(tbl[#[trigger] u[i] as int] is Spp
        && tbl[u[i + 1] as int] is Spp) by {
        assert(u[i] == out[i]);
        assert(out[i] < old_tbl.len());
        if i + 1 < out.len() {
            assert(u[i + 1] == out[i + 1]);
            assert(!(tbl[out[i] as int] is Spp && tbl[out[i + 1] as int] is Spp));
        }
    }
}

/// An expression that is no relation and no product is one more factor.
pub proof fn lemma_append_part(tbl: Seq<Node>, st: SPPstore, out: Seq<AExprIdx>, s: AExprIdx)
    requires
        tidy_list(tbl, st, out),
        s < tbl.len(),
        !(tbl[s as int] is Spp),
        !(tbl[s as int] is Sequence),
    ensures
        tidy_list(tbl, st, out.push(s)),
        push_item(st.n(), Some(items_of(tbl, st, out)), item_of(tbl, st, s)) == Some(
            items_of(tbl, st, out.push(s)),
        ),
{
    let u = out.push(s);
    assert(items_of(tbl, st, u) =~= items_of(tbl, st, out).push(item_of(tbl, st, s)));
    assert forall|i: int| 0 <= i < u.len() implies #[trigger] u[i] < tbl.len()
        && !(tbl[u[i] as int] is Sequence) && tbl[u[i] as int] != Node::Spp(st.zero)
        && tbl[u[i] as int] != Node::Spp(st.one) by {
        if i < out.len() {
            assert(u[i] == out[i]);
        }
    }
    assert forall|i: int| 0 <= i < u.len() - 1 implies !(tbl[#[trigger] u[i] as int] is Spp
        && tbl[u[i + 1] as int] is Spp) by {
        assert(u[i] == out[i]);
        if i + 1 < out.len() {
            assert(u[i + 1] == out[i + 1]);
            assert(!(tbl[out[i] as int] is Spp && tbl[out[i + 1] as int] is Spp));
        }
    }
}

/// The empty relation and the identity as factors.
pub proof fn lemma_append_const(st: SPPstore, c: Chain, x: SPP)
    requires
        st.wf(),
        st.has(x),
    ensures
        x == st.zero ==> push_item(st.n(), c, Item::Rel(relation(st, x))) is None,
        x == st.one && x != st.zero ==> push_item(st.n(), c, Item::Rel(relation(st, x))) == c,
{
    lemma_relation_once(st, x, x);
}

/// A tidy list without its last entry.
pub proof fn lemma_list_less(tbl: Seq<Node>, st: SPPstore, out: Seq<AExprIdx>)
    requires
        tidy_list(tbl, st, out),
        out.len() > 0,
    ensures
        tidy_list(tbl, st, out.drop_last()),
        out.len() > 1 && tbl[out.last() as int] is Spp ==> !(tbl[out.drop_last().last() as int] is Spp),
{
    let u = out.drop_last();
    assert forall|i: int| 0 <= i < u.len() implies #[trigger] u[i] < tbl.len()
        && !(tbl[u[i] as int] is Sequence) && tbl[u[i] as int] != Node::Spp(st.zero)
        && tbl[u[i] as int] != Node::Spp(st.one) by {
        assert(u[i] == out[i]);
    }
    assert forall|i: int| 0 <= i < u.len() - 1 implies !(tbl[#[trigger] u[i] as int] is Spp
        && tbl[u[i + 1] as int] is Spp) by {
        assert(u[i] == out[i] && u[i + 1] == out[i + 1]);
    }
    if out.len() > 1 {
        assert(!(tbl[out[out.len() - 2] as int] is Spp && tbl[out[out.len() - 1] as int] is Spp));
    }
}

/// A relation beside another is joined with it.
pub proof fn lemma_append_join(
    tbl: Seq<Node>,
    st: SPPstore,
    old_tbl: Seq<Node>,
    o: SPPstore,
    out: Seq<AExprIdx>,
    p: SPP,
    x: SPP,
    combined: SPP,
    c: AExprIdx,
)
    requires
        o.wf(),
        st.wf(),
        st.extends(&o),
        table_ext(old_tbl, tbl),
        relations_known(old_tbl, o),
        tidy_list(old_tbl, o, out),
        out.len() > 0,
        old_tbl[out.last() as int] == Node::Spp(p),
        o.has(p),
        o.has(x),
        x != o.zero,
        x != o.one,
        st.has(combined),
        forall|a: Pkt, b: Pkt|
            #![trigger st.rel(combined, a, b)]
            a.len() == o.n() && b.len() == o.n() ==> (st.rel(combined, a, b) <==> exists|m: Pkt|
                #![trigger o.rel(p, a, m)]
                m.len() == o.n() && o.rel(p, a, m) && o.rel(x, m, b)),
        combined != st.zero && combined != st.one ==> c < tbl.len() && tbl[c as int] == Node::Spp(
            combined,
        ),
    ensures
        ({
            let r = push_item(
                st.n(),
                Some(items_of(old_tbl, o, out)),
                Item::Rel(relation(o, x)),
            );
            if combined == st.zero {
                r is None
            } else if combined == st.one {
                &&& r == Some(items_of(tbl, st, out.drop_last()))
                &&& tidy_list(tbl, st, out.drop_last())
            } else {
                &&& r == Some(items_of(tbl, st, out.drop_last().push(c)))
                &&& tidy_list(tbl, st, out.drop_last().push(c))
            }
        }),
{
    let n = o.n();
    let u = out.drop_last();
    let a = items_of(old_tbl, o, out);
    let f = relation(o, p);
    let g = relation(o, x);
    let h = then_by(n, f, g);
    let k = relation(st, combined);
    assert forall|y: Pkt, z: Pkt| #[trigger] h(y, z) == k(y, z) by {
        if h(y, z) {
            let m = choose|m: Pkt| m.len() == n && #[trigger] f(y, m) && g(m, z);
            assert(o.rel(p, y, m) && o.rel(x, m, z));
            assert(st.rel(combined, y, z));
        }
        if k(y, z) {
            let m = choose|m: Pkt|
                #![trigger o.rel(p, y, m)]
                m.len() == n && o.rel(p, y, m) && o.rel(x, m, z);
            assert(f(y, m) && g(m, z));
        }
    }
    lemma_same_relation(h, k);
    lemma_relation_once(o, x, x);
    lemma_relation_once(st, combined, combined);
    lemma_list_less(old_tbl, o, out);
    assert(a.last() == Item::Rel(f));
    assert(a.drop_last() =~= items_of(old_tbl, o, u));
    assert(in_table(old_tbl, u)) by {
        assert forall|i: int| 0 <= i < u.len() implies #[trigger] u[i] < old_tbl.len() by {
            assert(u[i] == out[i]);
        }
    }
    lemma_items_ext(tbl, st, old_tbl, o, u);
    lemma_list_ext(tbl, st, old_tbl, o, u);
    if combined != st.zero && combined != st.one {
        lemma_append_new(tbl, st, old_tbl, o, u, combined, c);
    }
}

/// The product of a list, with one more expression.
pub proof fn lemma_chain_more(
    tbl: Seq<Node>,
    st: SPPstore,
    c: Chain,
    s: AExprIdx,
)
    requires
        normal_table(tbl, st),
        s < tbl.len(),
        tidy_chain(st.n(), c),
    ensures
        !(tbl[s as int] is Sequence) ==> times(st.n(), c, chain_of(tbl, st, s)) == push_item(
            st.n(),
            c,
            item_of(tbl, st, s),
        ),
        tbl[s as int] matches Node::Sequence(v) ==> times(st.n(), c, chain_of(tbl, st, s))
            == push_items(st.n(), c, items_of(tbl, st, v)),
        tidy_chain(st.n(), times(st.n(), c, chain_of(tbl, st, s))),
{
    let n = st.n();
    let x = item_of(tbl, st, s);
    if !(tbl[s as int] is Sequence) {
        if let Node::Spp(r) = tbl[s as int] {
            lemma_relation_once(st, r, r);
        }
        let one = Seq::<Item>::empty().push(x);
        assert(one.drop_last() =~= Seq::empty());
        assert(push_items(n, c, one) == push_item(n, push_items(n, c, one.drop_last()), one.last()));
        lemma_push_tidy(n, c, x);
    } else {
        lemma_chain_tidy(tbl, st, s);
        let v = items_of(tbl, st, tbl[s as int]->Sequence_0);
        assert(on_chain(n, v)) by {
            assert forall|i: int| 0 <= i < v.len() implies (#[trigger] v[i] matches Item::Rel(f)
                ==> on_fields(n, f)) by {}
        }
        lemma_items_tidy(n, c, v);
    }
}

/// The chain of a list is tidy.
pub proof fn lemma_chain_list_tidy(tbl: Seq<Node>, st: SPPstore, v: Seq<AExprIdx>, k: int)
    requires
        normal_table(tbl, st),
        in_table(tbl, v),
        0 <= k <= v.len(),
    ensures
        tidy_chain(st.n(), chain_list(tbl, st, v, k)),
    decreases k,
{
    if k > 0 {
        lemma_chain_list_tidy(tbl, st, v, k - 1);
        assert(v[k - 1] < tbl.len());
        lemma_chain_more(tbl, st, chain_list(tbl, st, v, k - 1), v[k - 1]);
    }
}

/// What of a list is pushed beyond an empty product stays empty.
pub proof fn lemma_void_rest(n: nat, v: Seq<Item>, k: int)
    requires
        0 <= k <= v.len(),
        push_items(n, Some(Seq::empty()), v.take(k)) is None,
    ensures
        push_items(n, Some(Seq::empty()), v) is None,
{
    lemma_items_add(n, Some(Seq::empty()), v.take(k), v.skip(k));
    assert(v.take(k) + v.skip(k) =~= v);
    lemma_items_none(n, v.skip(k));
}

/// A list of factors with one more, and two lists one after the other.
pub proof fn lemma_items_join(
    tbl: Seq<Node>,
    st: SPPstore,
    c: Chain,
    u: Seq<AExprIdx>,
    v: Seq<AExprIdx>,
)
    ensures
        push_items(st.n(), c, items_of(tbl, st, u + v)) == push_items(
            st.n(),
            push_items(st.n(), c, items_of(tbl, st, u)),
            items_of(tbl, st, v),
        ),
{
    assert(items_of(tbl, st, u + v) =~= items_of(tbl, st, u) + items_of(tbl, st, v));
    lemma_items_add(st.n(), c, items_of(tbl, st, u), items_of(tbl, st, v));
}

/// One factor more.
pub proof fn lemma_items_one(tbl: Seq<Node>, st: SPPstore, c: Chain, s: AExprIdx)
    ensures
        push_items(st.n(), c, items_of(tbl, st, seq![s])) == push_item(
            st.n(),
            c,
            item_of(tbl, st, s),
        ),
{
    let v = items_of(tbl, st, seq![s]);
    assert(v.drop_last() =~= Seq::empty());
    assert(v.last() == item_of(tbl, st, s));
    assert(push_items(st.n(), c, v.drop_last()) == c);
}

/// A list as the product of its normal form.
pub proof fn lemma_chain_result(tbl: Seq<Node>, st: SPPstore, out: Seq<AExprIdx>, r: AExprIdx)
    requires
        normal_table(tbl, st),
        tidy_list(tbl, st, out),
        r < tbl.len(),
        if out.len() == 0 {
            tbl[r as int] == Node::Spp(st.one)
        } else if out.len() == 1 {
            r == out[0]
        } else {
            tbl[r as int] == Node::Sequence(out)
        },
        st.one != st.zero,
    ensures
        chain_of(tbl, st, r) == Some(items_of(tbl, st, out)),
{
    let e = Seq::<Item>::empty();
    if out.len() == 0 {
        st.lemma_wf();
        lemma_append_const(st, Some(e), st.one);
        assert(items_of(tbl, st, out) =~= e);
    } else if out.len() == 1 {
        assert(out[0] < tbl.len());
        if let Node::Spp(s) = tbl[r as int] {
            lemma_relation_once(st, s, s);
        }
        assert(items_of(tbl, st, out) =~= e.push(item_of(tbl, st, r)));
    }
}

/// The sum of two lists one after the other.
pub proof fn lemma_flat_add(
    tbl: Seq<Node>,
    st: SPPstore,
    u: Seq<AExprIdx>,
    v: Seq<AExprIdx>,
)
    ensures
        flat_sum(tbl, st, u + v) == plus(flat_sum(tbl, st, u), flat_sum(tbl, st, v)),
{
    let a = flat_sum(tbl, st, u + v);
    let b = plus(flat_sum(tbl, st, u), flat_sum(tbl, st, v));
    assert forall|y: AExprIdx| #[trigger] (u + v).contains(y) <==> u.contains(y) || v.contains(
        y,
    ) by {
        if (u + v).contains(y) {
            let i = choose|i: int| 0 <= i < (u + v).len() && (u + v)[i] == y;
            if i < u.len() {
                assert(u[i] == y);
            } else {
                assert(v[i - u.len()] == y);
            }
        }
        if u.contains(y) {
            let i = choose|i: int| 0 <= i < u.len() && u[i] == y;
            assert((u + v)[i] == y);
        }
        if v.contains(y) {
            let i = choose|i: int| 0 <= i < v.len() && v[i] == y;
            assert((u + v)[u.len() + i] == y);
        }
    }
    assert(a.parts =~= b.parts);
    assert forall|p: Pkt, q: Pkt| #[trigger] (a.rel)(p, q) == (b.rel)(p, q) by {
        if (a.rel)(p, q) {
            let y = choose|y: AExprIdx| #[trigger] relates(tbl, st, u + v, y, p, q);
            assert(relates(tbl, st, u, y, p, q) || relates(tbl, st, v, y, p, q));
        }
        if (flat_sum(tbl, st, u).rel)(p, q) {
            let y = choose|y: AExprIdx| #[trigger] relates(tbl, st, u, y, p, q);
            assert(relates(tbl, st, u + v, y, p, q));
        }
        if (flat_sum(tbl, st, v).rel)(p, q) {
            let y = choose|y: AExprIdx| #[trigger] relates(tbl, st, v, y, p, q);
            assert(relates(tbl, st, u + v, y, p, q));
        }
    }
    lemma_same_relation(a.rel, b.rel);
}

/// The sum of no expressions.
pub proof fn lemma_flat_none(tbl: Seq<Node>, st: SPPstore)
    ensures
        flat_sum(tbl, st, Seq::empty()) == no_sum(),
{
    let v = Seq::<AExprIdx>::empty();
    lemma_sum_none(tbl, st, v);
    assert(flat_sum(tbl, st, v).parts =~= Set::empty());
}

/// One more expression of the list.
pub proof fn lemma_gather(
    tbl: Seq<Node>,
    o: SPPstore,
    st: SPPstore,
    st1: SPPstore,
    flat: Seq<AExprIdx>,
    others: Seq<AExprIdx>,
    combined: SPP,
    more: SPP,
    s: AExprIdx,
)
    requires
        o.wf(),
        st.extends(&o),
        st1.extends(&st),
        relations_known(tbl, o),
        in_table(tbl, flat),
        s < tbl.len(),
        st.has(combined),
        st1.has(more),
        forall|x: AExprIdx| #[trigger] others.contains(x) <==> is_part(tbl, flat, x),
        relation(st, combined) == flat_sum(tbl, o, flat).rel,
        match tbl[s as int] {
            Node::Spp(x) => forall|p: Pkt, q: Pkt|
                #![trigger st1.rel(more, p, q)]
                p.len() == st.n() && q.len() == st.n() ==> st1.rel(more, p, q) == (st.rel(
                    combined,
                    p,
                    q,
                ) || st.rel(x, p, q)),
            _ => more == combined,
        },
    ensures
        tbl[s as int] is Spp ==> forall|x: AExprIdx| #[trigger]
            others.contains(x) <==> is_part(tbl, flat.push(s), x),
        !(tbl[s as int] is Spp) ==> forall|x: AExprIdx| #[trigger]
            others.push(s).contains(x) <==> is_part(tbl, flat.push(s), x),
        relation(st1, more) == flat_sum(tbl, o, flat.push(s)).rel,
{
    lemma_flat_add(tbl, o, flat, seq![s]);
    assert(flat + seq![s] =~= flat.push(s));
    let a = relation(st1, more);
    let b = flat_sum(tbl, o, flat.push(s)).rel;
    let c = flat_sum(tbl, o, flat).rel;
    let d = flat_sum(tbl, o, seq![s]).rel;
    assert(seq![s][0] == s);
    lemma_relation_ext(st1, st, combined);
    if let Node::Spp(x) = tbl[s as int] {
        lemma_sum_rel(tbl, o, seq![s], 0);
        lemma_relation_ext(st, o, x);
        let e = relation(st, x);
        assert(d == e);
        assert forall|p: Pkt, q: Pkt| #[trigger] a(p, q) == b(p, q) by {
            assert(b(p, q) == (c(p, q) || d(p, q)));
            assert(c(p, q) == relation(st, combined)(p, q));
            if p.len() == st.n() && q.len() == st.n() {
                assert(st1.rel(more, p, q) == (st.rel(combined, p, q) || st.rel(x, p, q)));
            }
        }
    } else {
        lemma_sum_none(tbl, o, seq![s]);
        assert forall|p: Pkt, q: Pkt| #[trigger] a(p, q) == b(p, q) by {
            assert(b(p, q) == (c(p, q) || d(p, q)));
        }
    }
    lemma_same_relation(a, b);
    assert forall|x: AExprIdx| #[trigger] flat.push(s).contains(x) <==> flat.contains(x) || x == s by {
        if flat.contains(x) {
            let i = choose|i: int| 0 <= i < flat.len() && flat[i] == x;
            assert(flat.push(s)[i] == x);
        }
        if x == s {
            assert(flat.push(s)[flat.len() as int] == x);
        }
    }
    assert forall|x: AExprIdx| #[trigger] others.push(s).contains(x) <==> others.contains(x) || x
        == s by {
        if others.contains(x) {
            let i = choose|i: int| 0 <= i < others.len() && others[i] == x;
            assert(others.push(s)[i] == x);
        }
        if x == s {
            assert(others.push(s)[others.len() as int] == x);
        }
    }
}

/// The sum of the summands that were gathered, in ascending order.
pub proof fn lemma_gathered(
    tbl: Seq<Node>,
    st: SPPstore,
    old_tbl: Seq<Node>,
    o: SPPstore,
    flat: Seq<AExprIdx>,
    others: Seq<AExprIdx>,
    combined: SPP,
    all: Seq<AExprIdx>,
    v: Seq<AExprIdx>,
)
    requires
        o.wf(),
        st.wf(),
        st.extends(&o),
        table_ext(old_tbl, tbl),
        relations_known(old_tbl, o),
        normal_table(tbl, st),
        in_table(old_tbl, flat),
        forall|i: int| 0 <= i < flat.len() ==> !(old_tbl[#[trigger] flat[i] as int] is Union),
        forall|x: AExprIdx| #[trigger] others.contains(x) <==> is_part(old_tbl, flat, x),
        st.has(combined),
        relation(st, combined) == flat_sum(old_tbl, o, flat).rel,
        combined == st.zero ==> all == others,
        combined != st.zero ==> all == others.push(all.last()) && all.last() < tbl.len()
            && tbl[all.last() as int] == Node::Spp(combined),
        forall|i: int, j: int| #![trigger v[i], v[j]] 0 <= i < j < v.len() ==> v[i] < v[j],
        forall|x: AExprIdx| #[trigger] v.contains(x) <==> all.contains(x),
    ensures
        tidy_sum(tbl, st, v),
        flat_sum(tbl, st, v) == flat_sum(old_tbl, o, flat),
        forall|i: int| 0 <= i < v.len() ==> !(tbl[#[trigger] v[i] as int] is Union),
{
    let c = all.last();
    let z = combined != st.zero;
    assert forall|x: AExprIdx| #[trigger] v.contains(x) <==> others.contains(x) || (z && x == c) by {
        assert(v.contains(x) <==> all.contains(x));
        if z {
            if others.contains(x) {
                let i = choose|i: int| 0 <= i < others.len() && others[i] == x;
                assert(all[i] == x);
            }
            if x == c {
                assert(all[others.len() as int] == x);
            }
        }
    }
    assert forall|x: AExprIdx| #[trigger] others.contains(x) implies x < old_tbl.len() && tbl[x as int]
        == old_tbl[x as int] && !(tbl[x as int] is Spp) && !(tbl[x as int] is Union) by {
        assert(is_part(old_tbl, flat, x));
        let i = choose|i: int| 0 <= i < flat.len() && flat[i] == x;
        assert(flat[i] < old_tbl.len());
    }
    assert forall|i: int| 0 <= i < v.len() implies #[trigger] v[i] < tbl.len()
        && !(tbl[v[i] as int] is Union) && (tbl[v[i] as int] is Spp ==> z && v[i] == c) by {
        assert(v.contains(v[i]));
        if !(z && v[i] == c) {
            assert(others.contains(v[i]));
        }
    }
    let a = flat_sum(tbl, st, v);
    let b = flat_sum(old_tbl, o, flat);
    assert(a.parts =~= b.parts) by {
        assert forall|y: AExprIdx| #[trigger] a.parts.contains(y) == b.parts.contains(y) by {
            assert(v.contains(y) <==> others.contains(y) || (z && y == c));
            assert(others.contains(y) <==> is_part(old_tbl, flat, y));
        }
    }
    lemma_relation_once(st, combined, combined);
    if z {
        assert(v.contains(c));
        let k = choose|k: int| 0 <= k < v.len() && v[k] == c;
        assert forall|i: int| 0 <= i < v.len() && tbl[#[trigger] v[i] as int] is Spp implies i == k by {
            if i < k {
                assert(v[i] < v[k]);
            } else if k < i {
                assert(v[k] < v[i]);
            }
        }
        lemma_sum_rel(tbl, st, v, k);
    } else {
        lemma_sum_none(tbl, st, v);
    }
    assert forall|i: int, j: int|
        #![trigger v[i], v[j]]
        0 <= i < v.len() && 0 <= j < v.len() && tbl[v[i] as int] is Spp && tbl[v[j] as int] is Spp
        implies i == j by {
        if i < j {
            assert(v[i] < v[j]);
        } else if j < i {
            assert(v[j] < v[i]);
        }
    }
    assert(in_table(tbl, v));
}

/// A tidy list of summands as the sum of its normal form.
pub proof fn lemma_sum_result(tbl: Seq<Node>, st: SPPstore, v: Seq<AExprIdx>, r: AExprIdx)
    requires
        normal_table(tbl, st),
        tidy_sum(tbl, st, v),
        forall|i: int| 0 <= i < v.len() ==> !(tbl[#[trigger] v[i] as int] is Union),
        r < tbl.len(),
        if v.len() == 0 {
            tbl[r as int] == Node::Spp(st.zero)
        } else if v.len() == 1 {
            r == v[0]
        } else {
            tbl[r as int] == Node::Union(v)
        },
    ensures
        sum_of(tbl, st, r) == flat_sum(tbl, st, v),
{
    if v.len() == 0 {
        lemma_summands(tbl, st, r);
        assert(summands(tbl, st, r) =~= v);
    } else if v.len() == 1 {
        assert(v =~= seq![r]);
    }
}

/// A list of summands stays tidy when the table and the store grow.
pub proof fn lemma_tidy_sum_ext(
    tbl: Seq<Node>,
    st: SPPstore,
    old_tbl: Seq<Node>,
    o: SPPstore,
    v: Seq<AExprIdx>,
)
    requires
        st.extends(&o),
        table_ext(old_tbl, tbl),
        tidy_sum(old_tbl, o, v),
        forall|i: int| 0 <= i < v.len() ==> !(old_tbl[#[trigger] v[i] as int] is Union),
    ensures
        tidy_sum(tbl, st, v),
        forall|i: int| 0 <= i < v.len() ==> !(tbl[#[trigger] v[i] as int] is Union),
{
    assert forall|i: int| 0 <= i < v.len() implies #[trigger] v[i] < tbl.len() && tbl[v[i] as int]
        == old_tbl[v[i] as int] by {
        assert(v[i] < old_tbl.len());
    }
    assert forall|i: int, j: int|
        #![trigger v[i], v[j]]
        0 <= i < v.len() && 0 <= j < v.len() && tbl[v[i] as int] is Spp && tbl[v[j] as int] is Spp
        implies i == j by {
        assert(v[i] < tbl.len() && v[j] < tbl.len());
    }
}

/// The identity is not empty.
pub proof fn lemma_one_zero(st: SPPstore)
    requires
        st.wf(),
    ensures
        st.one != st.zero,
{
    st.lemma_wf();
    st.lemma_nonzero(st.one);
    let e = Seq::new(st.n(), |i: int| true);
    assert(st.rel(st.one, e, e));
}

// ---- the index of an expression --------------------------------------------------------------

/// `r` is the sum of the two.
pub open spec fn sums(tbl: Seq<Node>, st: SPPstore, i: AExprIdx, j: AExprIdx, r: AExprIdx) -> bool {
    sum_of(tbl, st, r) == plus(sum_of(tbl, st, i), sum_of(tbl, st, j))
}

/// `r` is the product of the two.
pub open spec fn joins(
    tbl: Seq<Node>,
    st: SPPstore,
    i: AExprIdx,
    j: AExprIdx,
    r: AExprIdx,
) -> bool {
    chain_of(tbl, st, r) == times(st.n(), chain_of(tbl, st, i), chain_of(tbl, st, j))
}

/// `r` is the index of the expression: a sum is that of the sums of its two sides, a product
/// that of the products of its two sides, and a repetition repeats what is in it.
pub open spec fn indexes(tbl: Seq<Node>, st: SPPstore, e: Expr, r: AExprIdx) -> bool
    decreases e,
{
    &&& r < tbl.len()
    &&& match e {
        Expr::Spp(s) => tbl[r as int] == Node::Spp(s),
        Expr::Hole(h) => tbl[r as int] == Node::Hole(h),
        Expr::Dup => tbl[r as int] == Node::Dup,
        Expr::Union(a, b) => exists|i: AExprIdx, j: AExprIdx| #[trigger]
            sums(tbl, st, i, j, r) && indexes(tbl, st, *a, i) && indexes(tbl, st, *b, j),
        Expr::Sequence(a, b) => exists|i: AExprIdx, j: AExprIdx| #[trigger]
            joins(tbl, st, i, j, r) && indexes(tbl, st, *a, i) && indexes(tbl, st, *b, j),
        Expr::Star(a) => exists|i: AExprIdx| #[trigger]
            repeats(tbl, st, i, r) && indexes(tbl, st, *a, i),
    }
}

/// A repetition stays one when the table and the store grow.
proof fn lemma_repeats_ext(
    tbl: Seq<Node>,
    st: SPPstore,
    old_tbl: Seq<Node>,
    o: SPPstore,
    e: AExprIdx,
    r: AExprIdx,
)
    requires
        st.extends(&o),
        table_ext(old_tbl, tbl),
        normal_table(old_tbl, o),
        e < old_tbl.len(),
        r < old_tbl.len(),
        repeats(old_tbl, o, e, r),
    ensures
        repeats(tbl, st, e, r),
{
    assert(old_tbl[e as int] == tbl[e as int]);
    assert(old_tbl[r as int] == tbl[r as int]);
    if let Node::Spp(s) = tbl[e as int] {
        let t = tbl[r as int]->Spp_0;
        lemma_relation_ext(st, o, s);
        assert(st.has(t));
        assert forall|p: Pkt, q: Pkt| p.len() == st.n() && q.len() == st.n() implies (
        #[trigger] st.rel(t, p, q) <==> star_of(relation(st, s), st.n(), p, q)) by {
            assert(o.rel(t, p, q) == st.rel(t, p, q));
        }
    }
}

/// An index stays that of its expression when the table and the store grow.
pub proof fn lemma_indexes_ext(
    tbl: Seq<Node>,
    st: SPPstore,
    old_tbl: Seq<Node>,
    o: SPPstore,
    e: Expr,
    r: AExprIdx,
)
    requires
        st.extends(&o),
        table_ext(old_tbl, tbl),
        normal_table(old_tbl, o),
        indexes(old_tbl, o, e, r),
    ensures
        indexes(tbl, st, e, r),
    decreases e,
{
    assert(old_tbl[r as int] == tbl[r as int]);
    match e {
        Expr::Union(a, b) => {
            let (i, j) = choose|i: AExprIdx, j: AExprIdx| #[trigger]
                sums(old_tbl, o, i, j, r) && indexes(old_tbl, o, *a, i) && indexes(
                    old_tbl,
                    o,
                    *b,
                    j,
                );
            lemma_indexes_ext(tbl, st, old_tbl, o, *a, i);
            lemma_indexes_ext(tbl, st, old_tbl, o, *b, j);
            lemma_value_ext(tbl, st, old_tbl, o, i);
            lemma_value_ext(tbl, st, old_tbl, o, j);
            lemma_value_ext(tbl, st, old_tbl, o, r);
            assert(sums(tbl, st, i, j, r));
        },
        Expr::Sequence(a, b) => {
            let (i, j) = choose|i: AExprIdx, j: AExprIdx| #[trigger]
                joins(old_tbl, o, i, j, r) && indexes(old_tbl, o, *a, i) && indexes(
                    old_tbl,
                    o,
                    *b,
                    j,
                );
            lemma_indexes_ext(tbl, st, old_tbl, o, *a, i);
            lemma_indexes_ext(tbl, st, old_tbl, o, *b, j);
            lemma_value_ext(tbl, st, old_tbl, o, i);
            lemma_value_ext(tbl, st, old_tbl, o, j);
            lemma_value_ext(tbl, st, old_tbl, o, r);
            assert(joins(tbl, st, i, j, r));
        },
        Expr::Star(a) => {
            let i = choose|i: AExprIdx| #[trigger] repeats(old_tbl, o, i, r) && indexes(old_tbl, o, *a, i);
            lemma_indexes_ext(tbl, st, old_tbl, o, *a, i);
            lemma_repeats_ext(tbl, st, old_tbl, o, i, r);
        },
        _ => {},
    }
}

/// One expression repeats another.
proof fn lemma_repeats_once(
    tbl: Seq<Node>,
    st: SPPstore,
    e: AExprIdx,
    r: AExprIdx,
    s: AExprIdx,
)
    requires
        normal_table(tbl, st),
        e < tbl.len(),
        r < tbl.len(),
        s < tbl.len(),
        repeats(tbl, st, e, r),
        repeats(tbl, st, e, s),
    ensures
        r == s,
{
    if let Node::Spp(x) = tbl[e as int] {
        let t = tbl[r as int]->Spp_0;
        let u = tbl[s as int]->Spp_0;
        let f = relation(st, t);
        let g = relation(st, u);
        assert forall|p: Pkt, q: Pkt| #[trigger] f(p, q) == g(p, q) by {
            if p.len() == st.n() && q.len() == st.n() {
                assert(st.rel(t, p, q) == st.rel(u, p, q));
            }
        }
        lemma_same_relation(f, g);
        lemma_relation_once(st, t, u);
    }
    assert(tbl[r as int] == tbl[s as int]);
}

proof fn lemma_indexes_once(tbl: Seq<Node>, st: SPPstore, e: Expr, r: AExprIdx, s: AExprIdx)
    requires
        normal_table(tbl, st),
        indexes(tbl, st, e, r),
        indexes(tbl, st, e, s),
    ensures
        r == s,
    decreases e,
{
    match e {
        Expr::Union(a, b) => {
            let (i, j) = lemma_union_sides(tbl, st, *a, *b, r);
            let (k, l) = lemma_union_sides(tbl, st, *a, *b, s);
            lemma_indexes_once(tbl, st, *a, i, k);
            lemma_indexes_once(tbl, st, *b, j, l);
            lemma_sum_once(tbl, st, r, s);
        },
        Expr::Sequence(a, b) => {
            let (i, j) = lemma_sequence_sides(tbl, st, *a, *b, r);
            let (k, l) = lemma_sequence_sides(tbl, st, *a, *b, s);
            lemma_indexes_once(tbl, st, *a, i, k);
            lemma_indexes_once(tbl, st, *b, j, l);
            lemma_chain_once(tbl, st, r, s);
        },
        Expr::Star(a) => {
            let i = choose|i: AExprIdx| #[trigger] repeats(tbl, st, i, r) && indexes(tbl, st, *a, i);
            let k = choose|k: AExprIdx| #[trigger] repeats(tbl, st, k, s) && indexes(tbl, st, *a, k);
            lemma_indexes_once(tbl, st, *a, i, k);
            lemma_repeats_once(tbl, st, i, r, s);
        },
        _ => {
            assert(tbl[r as int] == tbl[s as int]);
        },
    }
}

/// The two sides of a sum.
proof fn lemma_union_sides(tbl: Seq<Node>, st: SPPstore, a: Expr, b: Expr, r: AExprIdx) -> (res: (
    AExprIdx,
    AExprIdx,
))
    requires
        indexes(tbl, st, Expr::Union(Box::new(a), Box::new(b)), r),
    ensures
        indexes(tbl, st, a, res.0),
        indexes(tbl, st, b, res.1),
        res.0 < tbl.len(),
        res.1 < tbl.len(),
        sum_of(tbl, st, r) == plus(sum_of(tbl, st, res.0), sum_of(tbl, st, res.1)),
{
    choose|i: AExprIdx, j: AExprIdx| #[trigger]
        sums(tbl, st, i, j, r) && indexes(tbl, st, a, i) && indexes(tbl, st, b, j)
}

/// The two sides of a product.
proof fn lemma_sequence_sides(
    tbl: Seq<Node>,
    st: SPPstore,
    a: Expr,
    b: Expr,
    r: AExprIdx,
) -> (res: (AExprIdx, AExprIdx))
    requires
        indexes(tbl, st, Expr::Sequence(Box::new(a), Box::new(b)), r),
    ensures
        indexes(tbl, st, a, res.0),
        indexes(tbl, st, b, res.1),
        res.0 < tbl.len(),
        res.1 < tbl.len(),
        chain_of(tbl, st, r) == times(
            st.n(),
            chain_of(tbl, st, res.0),
            chain_of(tbl, st, res.1),
        ),
{
    choose|i: AExprIdx, j: AExprIdx| #[trigger]
        joins(tbl, st, i, j, r) && indexes(tbl, st, a, i) && indexes(tbl, st, b, j)
}

proof fn lemma_plus(a: Sum, b: Sum, c: Sum)
    ensures
        plus(a, b) == plus(b, a),
        plus(plus(a, b), c) == plus(a, plus(b, c)),
        plus(a, a) == a,
        plus(a, no_sum()) == a,
{
    assert(plus(a, b).parts =~= plus(b, a).parts);
    lemma_same_relation(plus(a, b).rel, plus(b, a).rel);
    assert(plus(plus(a, b), c).parts =~= plus(a, plus(b, c)).parts);
    lemma_same_relation(plus(plus(a, b), c).rel, plus(a, plus(b, c)).rel);
    assert(plus(a, a).parts =~= a.parts);
    lemma_same_relation(plus(a, a).rel, a.rel);
    assert(plus(a, no_sum()).parts =~= a.parts);
    lemma_same_relation(plus(a, no_sum()).rel, a.rel);
}

/// A relation as a sum.
proof fn lemma_sum_spp(tbl: Seq<Node>, st: SPPstore, x: AExprIdx, s: SPP)
    requires
        x < tbl.len(),
        tbl[x as int] == Node::Spp(s),
    ensures
        sum_of(tbl, st, x) == (Sum { parts: Set::empty(), rel: relation(st, s) }),
{
    lemma_sum_rel(tbl, st, seq![x], 0);
    let u = sum_of(tbl, st, x);
    assert(u.parts =~= Set::empty()) by {
        assert forall|y: AExprIdx| !(#[trigger] u.parts.contains(y)) by {
            if u.parts.contains(y) {
                assert(seq![x].contains(y));
                assert(y == x);
            }
        }
    }
}

// ---- laws ------------------------------------------------------------------------------------

/// An expression keeps its index, whatever is added to the table later.
pub proof fn law_index_stays(
    old_aut: AutWithHoles,
    o: SPPstore,
    aut: AutWithHoles,
    st: SPPstore,
    e: Expr,
    r: AExprIdx,
)
    requires
        o.wf(),
        old_aut.wf(&o),
        keeps(old_aut, o, aut, st),
        indexes(old_aut.tbl(), o, e, r),
    ensures
        indexes(aut.tbl(), st, e, r),
{
    old_aut.lemma_normal(o);
    lemma_indexes_ext(aut.tbl(), st, old_aut.tbl(), o, e, r);
}

/// An expression has one index: asking for it again gives the same.
pub proof fn law_one_index(aut: AutWithHoles, st: SPPstore, e: Expr, r: AExprIdx, s: AExprIdx)
    requires
        st.wf(),
        aut.wf(&st),
        indexes(aut.tbl(), st, e, r),
        indexes(aut.tbl(), st, e, s),
    ensures
        r == s,
{
    aut.lemma_normal(st);
    lemma_indexes_once(aut.tbl(), st, e, r, s);
}

/// `a + b` and `b + a` have the same index.
pub proof fn law_union_commutes(
    aut: AutWithHoles,
    st: SPPstore,
    a: Expr,
    b: Expr,
    r: AExprIdx,
    s: AExprIdx,
)
    requires
        st.wf(),
        aut.wf(&st),
        indexes(aut.tbl(), st, Expr::Union(Box::new(a), Box::new(b)), r),
        indexes(aut.tbl(), st, Expr::Union(Box::new(b), Box::new(a)), s),
    ensures
        r == s,
{
    aut.lemma_normal(st);
    let tbl = aut.tbl();
    let (i, j) = lemma_union_sides(tbl, st, a, b, r);
    let (k, l) = lemma_union_sides(tbl, st, b, a, s);
    lemma_indexes_once(tbl, st, a, i, l);
    lemma_indexes_once(tbl, st, b, j, k);
    lemma_plus(sum_of(tbl, st, i), sum_of(tbl, st, j), no_sum());
    lemma_sum_once(tbl, st, r, s);
}

/// `(a + b) + c` and `a + (b + c)` have the same index.
pub proof fn law_union_associates(
    aut: AutWithHoles,
    st: SPPstore,
    a: Expr,
    b: Expr,
    c: Expr,
    r: AExprIdx,
    s: AExprIdx,
)
    requires
        st.wf(),
        aut.wf(&st),
        indexes(
            aut.tbl(),
            st,
            Expr::Union(Box::new(Expr::Union(Box::new(a), Box::new(b))), Box::new(c)),
            r,
        ),
        indexes(
            aut.tbl(),
            st,
            Expr::Union(Box::new(a), Box::new(Expr::Union(Box::new(b), Box::new(c)))),
            s,
        ),
    ensures
        r == s,
{
    aut.lemma_normal(st);
    let tbl = aut.tbl();
    let (ab, k) = lemma_union_sides(tbl, st, Expr::Union(Box::new(a), Box::new(b)), c, r);
    let (i, j) = lemma_union_sides(tbl, st, a, b, ab);
    let (i2, bc) = lemma_union_sides(tbl, st, a, Expr::Union(Box::new(b), Box::new(c)), s);
    let (j2, k2) = lemma_union_sides(tbl, st, b, c, bc);
    lemma_indexes_once(tbl, st, a, i, i2);
    lemma_indexes_once(tbl, st, b, j, j2);
    lemma_indexes_once(tbl, st, c, k, k2);
    lemma_plus(sum_of(tbl, st, i), sum_of(tbl, st, j), sum_of(tbl, st, k));
    lemma_sum_once(tbl, st, r, s);
}

/// `a + a` has the index of `a`.
pub proof fn law_union_same(aut: AutWithHoles, st: SPPstore, a: Expr, r: AExprIdx, s: AExprIdx)
    requires
        st.wf(),
        aut.wf(&st),
        indexes(aut.tbl(), st, Expr::Union(Box::new(a), Box::new(a)), r),
        indexes(aut.tbl(), st, a, s),
    ensures
        r == s,
{
    aut.lemma_normal(st);
    let tbl = aut.tbl();
    let (i, j) = lemma_union_sides(tbl, st, a, a, r);
    lemma_indexes_once(tbl, st, a, i, s);
    lemma_indexes_once(tbl, st, a, j, s);
    lemma_plus(sum_of(tbl, st, s), sum_of(tbl, st, s), no_sum());
    lemma_sum_once(tbl, st, r, s);
}

/// `a + 0` and `0 + a` have the index of `a`.
pub proof fn law_union_zero(aut: AutWithHoles, st: SPPstore, a: Expr, r: AExprIdx, s: AExprIdx)
    requires
        st.wf(),
        aut.wf(&st),
        indexes(aut.tbl(), st, Expr::Union(Box::new(a), Box::new(Expr::Spp(st.zero))), r)
            || indexes(aut.tbl(), st, Expr::Union(Box::new(Expr::Spp(st.zero)), Box::new(a)), r),
        indexes(aut.tbl(), st, a, s),
    ensures
        r == s,
{
    aut.lemma_normal(st);
    st.lemma_wf();
    let tbl = aut.tbl();
    let z = Expr::Spp(st.zero);
    let right = indexes(tbl, st, Expr::Union(Box::new(a), Box::new(z)), r);
    let (i, j) = if right {
        lemma_union_sides(tbl, st, a, z, r)
    } else {
        let (j, i) = lemma_union_sides(tbl, st, z, a, r);
        (i, j)
    };
    lemma_indexes_once(tbl, st, a, i, s);
    lemma_sum_spp(tbl, st, j, st.zero);
    lemma_relation_once(st, st.zero, st.zero);
    lemma_plus(sum_of(tbl, st, s), no_sum(), no_sum());
    lemma_plus(no_sum(), sum_of(tbl, st, s), no_sum());
    lemma_sum_once(tbl, st, r, s);
}

/// The sum of two relations is the relation of the pairs of either.
pub proof fn law_union_relations(
    aut: AutWithHoles,
    st: SPPstore,
    x: SPP,
    y: SPP,
    z: SPP,
    r: AExprIdx,
    s: AExprIdx,
)
    requires
        st.wf(),
        aut.wf(&st),
        indexes(aut.tbl(), st, Expr::Union(Box::new(Expr::Spp(x)), Box::new(Expr::Spp(y))), r),
        indexes(aut.tbl(), st, Expr::Spp(z), s),
        forall|p: Pkt, q: Pkt|
            p.len() == st.n() && q.len() == st.n() ==> (#[trigger] st.rel(z, p, q) <==> st.rel(
                x,
                p,
                q,
            ) || st.rel(y, p, q)),
    ensures
        r == s,
{
    aut.lemma_normal(st);
    let tbl = aut.tbl();
    let (i, j) = lemma_union_sides(tbl, st, Expr::Spp(x), Expr::Spp(y), r);
    lemma_sum_spp(tbl, st, i, x);
    lemma_sum_spp(tbl, st, j, y);
    lemma_sum_spp(tbl, st, s, z);
    let a = plus(sum_of(tbl, st, i), sum_of(tbl, st, j));
    assert(a.parts =~= Set::empty());
    lemma_same_relation(a.rel, relation(st, z));
    lemma_sum_once(tbl, st, r, s);
}

/// `(a;b);c` and `a;(b;c)` have the same index.
pub proof fn law_sequence_associates(
    aut: AutWithHoles,
    st: SPPstore,
    a: Expr,
    b: Expr,
    c: Expr,
    r: AExprIdx,
    s: AExprIdx,
)
    requires
        st.wf(),
        aut.wf(&st),
        indexes(
            aut.tbl(),
            st,
            Expr::Sequence(Box::new(Expr::Sequence(Box::new(a), Box::new(b))), Box::new(c)),
            r,
        ),
        indexes(
            aut.tbl(),
            st,
            Expr::Sequence(Box::new(a), Box::new(Expr::Sequence(Box::new(b), Box::new(c)))),
            s,
        ),
    ensures
        r == s,
{
    aut.lemma_normal(st);
    let tbl = aut.tbl();
    let (ab, k) = lemma_sequence_sides(tbl, st, Expr::Sequence(Box::new(a), Box::new(b)), c, r);
    let (i, j) = lemma_sequence_sides(tbl, st, a, b, ab);
    let (i2, bc) = lemma_sequence_sides(tbl, st, a, Expr::Sequence(Box::new(b), Box::new(c)), s);
    let (j2, k2) = lemma_sequence_sides(tbl, st, b, c, bc);
    lemma_indexes_once(tbl, st, a, i, i2);
    lemma_indexes_once(tbl, st, b, j, j2);
    lemma_indexes_once(tbl, st, c, k, k2);
    lemma_chain_tidy(tbl, st, i);
    lemma_chain_tidy(tbl, st, j);
    lemma_chain_tidy(tbl, st, k);
    lemma_times_assoc(
        st.n(),
        chain_of(tbl, st, i),
        chain_of(tbl, st, j),
        chain_of(tbl, st, k),
    );
    lemma_chain_once(tbl, st, r, s);
}

/// `a;1` and `1;a` have the index of `a`.
pub proof fn law_sequence_one(aut: AutWithHoles, st: SPPstore, a: Expr, r: AExprIdx, s: AExprIdx)
    requires
        st.wf(),
        aut.wf(&st),
        indexes(aut.tbl(), st, Expr::Sequence(Box::new(a), Box::new(Expr::Spp(st.one))), r)
            || indexes(aut.tbl(), st, Expr::Sequence(Box::new(Expr::Spp(st.one)), Box::new(a)), r),
        indexes(aut.tbl(), st, a, s),
    ensures
        r == s,
{
    aut.lemma_normal(st);
    st.lemma_wf();
    lemma_one_zero(st);
    let tbl = aut.tbl();
    let z = Expr::Spp(st.one);
    let nil = Some(Seq::<Item>::empty());
    lemma_append_const(st, nil, st.one);
    lemma_chain_tidy(tbl, st, s);
    if indexes(tbl, st, Expr::Sequence(Box::new(a), Box::new(z)), r) {
        let (i, j) = lemma_sequence_sides(tbl, st, a, z, r);
        lemma_indexes_once(tbl, st, a, i, s);
        assert(chain_of(tbl, st, j) == nil);
    } else {
        let (j, i) = lemma_sequence_sides(tbl, st, z, a, r);
        lemma_indexes_once(tbl, st, a, i, s);
        assert(chain_of(tbl, st, j) == nil);
        if let Some(v) = chain_of(tbl, st, s) {
            lemma_items_self(st.n(), v);
        }
    }
    lemma_chain_once(tbl, st, r, s);
}

/// `a;0` and `0;a` have the index of `0`.
pub proof fn law_sequence_zero(aut: AutWithHoles, st: SPPstore, a: Expr, r: AExprIdx, s: AExprIdx)
    requires
        st.wf(),
        aut.wf(&st),
        indexes(aut.tbl(), st, Expr::Sequence(Box::new(a), Box::new(Expr::Spp(st.zero))), r)
            || indexes(aut.tbl(), st, Expr::Sequence(Box::new(Expr::Spp(st.zero)), Box::new(a)), r),
        indexes(aut.tbl(), st, Expr::Spp(st.zero), s),
    ensures
        r == s,
{
    aut.lemma_normal(st);
    st.lemma_wf();
    let tbl = aut.tbl();
    let z = Expr::Spp(st.zero);
    lemma_append_const(st, Some(Seq::<Item>::empty()), st.zero);
    assert(chain_of(tbl, st, s) is None);
    if indexes(tbl, st, Expr::Sequence(Box::new(a), Box::new(z)), r) {
        let (i, j) = lemma_sequence_sides(tbl, st, a, z, r);
        assert(chain_of(tbl, st, j) is None);
    } else {
        let (j, i) = lemma_sequence_sides(tbl, st, z, a, r);
        assert(chain_of(tbl, st, j) is None);
        if let Some(v) = chain_of(tbl, st, i) {
            lemma_items_none(st.n(), v);
        }
    }
    lemma_chain_once(tbl, st, r, s);
}

/// The product of two relations is the one followed by the other.
pub proof fn law_sequence_relations(
    aut: AutWithHoles,
    st: SPPstore,
    x: SPP,
    y: SPP,
    z: SPP,
    r: AExprIdx,
    s: AExprIdx,
)
    requires
        st.wf(),
        aut.wf(&st),
        indexes(aut.tbl(), st, Expr::Sequence(Box::new(Expr::Spp(x)), Box::new(Expr::Spp(y))), r),
        indexes(aut.tbl(), st, Expr::Spp(z), s),
        forall|p: Pkt, q: Pkt|
            p.len() == st.n() && q.len() == st.n() ==> (#[trigger] st.rel(z, p, q)
                <==> exists|m: Pkt|
                m.len() == st.n() && #[trigger] st.rel(x, p, m) && st.rel(y, m, q)),
    ensures
        r == s,
{
    aut.lemma_normal(st);
    let tbl = aut.tbl();
    let n = st.n();
    let nil = Some(Seq::<Item>::empty());
    let (i, j) = lemma_sequence_sides(tbl, st, Expr::Spp(x), Expr::Spp(y), r);
    lemma_relation_once(st, x, x);
    lemma_relation_once(st, y, y);
    let f = relation(st, x);
    let g = relation(st, y);
    let h = relation(st, z);
    let k = then_by(n, f, g);
    assert forall|p: Pkt, q: Pkt| #[trigger] k(p, q) == h(p, q) by {
        if k(p, q) {
            let m = choose|m: Pkt| m.len() == n && #[trigger] f(p, m) && g(m, q);
            assert(st.rel(x, p, m) && st.rel(y, m, q));
            assert(p.len() == n && q.len() == n);
            assert(st.rel(z, p, q));
        }
        if h(p, q) {
            let m = choose|m: Pkt| m.len() == n && #[trigger] st.rel(x, p, m) && st.rel(y, m, q);
            assert(f(p, m) && g(m, q));
        }
    }
    lemma_same_relation(k, h);
    lemma_push_tidy(n, nil, Item::Rel(f));
    if f != no_pair() && f != itself(n) && g != no_pair() && g != itself(n) {
        lemma_push_two(n, nil, f, g);
    }
    lemma_then_by(n, f, g, f);
    lemma_then_by(n, g, f, f);
    assert(chain_of(tbl, st, s) == push_item(n, nil, Item::Rel(h)));
    assert(chain_of(tbl, st, j) == push_item(n, nil, Item::Rel(g)));
    let c = chain_of(tbl, st, i);
    assert(c == push_item(n, nil, Item::Rel(f)));
    let v = seq![Item::Rel(g)];
    assert(v.drop_last() =~= Seq::<Item>::empty());
    assert(push_items(n, c, v.drop_last()) == c);
    assert(push_items(n, c, v) == push_item(n, c, Item::Rel(g)));
    if g != no_pair() && g != itself(n) {
        assert(chain_of(tbl, st, j) == Some(v)) by {
            assert(Seq::<Item>::empty().push(Item::Rel(g)) =~= v);
        }
    }
    lemma_chain_once(tbl, st, r, s);
}

/// `(a*)*` has the index of `a*`.
pub proof fn law_star_star(aut: AutWithHoles, st: SPPstore, a: Expr, r: AExprIdx, s: AExprIdx)
    requires
        st.wf(),
        aut.wf(&st),
        indexes(aut.tbl(), st, Expr::Star(Box::new(Expr::Star(Box::new(a)))), r),
        indexes(aut.tbl(), st, Expr::Star(Box::new(a)), s),
    ensures
        r == s,
{
    aut.lemma_normal(st);
    let tbl = aut.tbl();
    let e = Expr::Star(Box::new(a));
    let i = choose|i: AExprIdx| #[trigger] repeats(tbl, st, i, r) && indexes(tbl, st, e, i);
    lemma_indexes_once(tbl, st, e, i, s);
    let k = choose|k: AExprIdx| #[trigger] repeats(tbl, st, k, s) && indexes(tbl, st, a, k);
    if let Node::Spp(x) = tbl[k as int] {
        let n = st.n();
        let y = tbl[s as int]->Spp_0;
        let z = tbl[r as int]->Spp_0;
        let f = relation(st, x);
        let g = relation(st, y);
        assert forall|p: Pkt, q: Pkt| p.len() == n && q.len() == n implies star_of(g, n, p, q)
            == st.rel(y, p, q) by {
            lemma_star_closed(g, n, p, p, q);
            if star_of(g, n, p, q) {
                assert forall|b: Pkt| b.len() == n implies #[trigger] g(b, b) by {
                    lemma_star_closed(f, n, b, b, b);
                    assert(st.rel(y, b, b));
                }
                assert forall|b: Pkt, c: Pkt, d: Pkt|
                    #![trigger g(b, c), g(c, d)]
                    b.len() == n && c.len() == n && d.len() == n && g(b, c) && g(c, d) implies g(
                    b,
                    d,
                ) by {
                    lemma_star_closed(f, n, b, c, d);
                    assert(st.rel(y, b, c) && st.rel(y, c, d));
                    assert(st.rel(y, b, d));
                }
                lemma_star_least(g, g, n, p, q);
                assert(g(p, q));
            }
            if st.rel(y, p, q) {
                assert(g(p, q));
            }
        }
        let h = relation(st, z);
        assert forall|p: Pkt, q: Pkt| #[trigger] h(p, q) == g(p, q) by {
            if p.len() == n && q.len() == n {
                assert(st.rel(z, p, q) <==> star_of(g, n, p, q));
            }
        }
        lemma_same_relation(h, g);
        lemma_relation_once(st, z, y);
        assert(tbl[r as int] == tbl[s as int]);
    }
}
/// The product of two expressions.
pub proof fn lemma_chain_two(tbl: Seq<Node>, st: SPPstore, v: Seq<AExprIdx>)
    requires
        normal_table(tbl, st),
        v.len() == 2,
        v[0] < tbl.len(),
    ensures
        chain_list(tbl, st, v, 2) == times(
            st.n(),
            chain_of(tbl, st, v[0]),
            chain_of(tbl, st, v[1]),
        ),
{
    let nil = Some(Seq::<Item>::empty());
    assert(chain_list(tbl, st, v, 0) == nil);
    lemma_chain_tidy(tbl, st, v[0]);
    if let Some(u) = chain_of(tbl, st, v[0]) {
        lemma_items_self(st.n(), u);
    }
    assert(chain_list(tbl, st, v, 1) == times(st.n(), nil, chain_of(tbl, st, v[0])));
}

/// The sum of two expressions.
pub proof fn lemma_sum_two(tbl: Seq<Node>, st: SPPstore, v: Seq<AExprIdx>)
    requires
        v.len() == 2,
    ensures
        sum_list(tbl, st, v, 2) == plus(sum_of(tbl, st, v[0]), sum_of(tbl, st, v[1])),
{
    assert(sum_list(tbl, st, v, 0) == no_sum());
    assert(sum_list(tbl, st, v, 1) == plus(no_sum(), sum_of(tbl, st, v[0])));
    lemma_plus(no_sum(), sum_of(tbl, st, v[0]), no_sum());
    lemma_plus(sum_of(tbl, st, v[0]), no_sum(), no_sum());
}
} // verus!
