//! How an expression with holes is taken apart.
//!
//! A sum is taken apart into its summands, a repetition into one round with the repetition
//! after it, or nothing, and a product by its first factor.  What begins with a relation,
//! a hole or a recorded packet is a head: it has an edge to what is left of it, or ends.
use vstd::prelude::*;
use crate::holes::nk_with_holes::{
    headed, labels_of, table_ext, AExprIdx, AutWithHoles, EdgeLabel, Hole, Node, State,
};
use crate::holes::normal::{
    chain_list, chain_of, in_table, item_of, items_of, lemma_chain_once, lemma_chain_tidy,
    lemma_chain_two, lemma_items_self, lemma_one_zero, lemma_value_ext, normal, normal_table,
    push_items, Item,
};
use crate::spp::SPPstore;

verus! {

/// The list is what the expression is taken apart into.
pub open spec fn parted(tbl: Seq<Node>, st: SPPstore, s: AExprIdx, v: Seq<AExprIdx>) -> bool {
    &&& in_table(tbl, v)
    &&& match tbl[s as int] {
        Node::Union(u) => v == u,
        Node::Star(i) => v.len() == 2 && chain_of(tbl, st, v[0]) == chain_list(
            tbl,
            st,
            seq![i, s],
            2,
        ) && tbl[v[1] as int] == Node::Spp(st.one),
        Node::Sequence(u) => match tbl[u[0] as int] {
            Node::Union(bs) => v.len() == bs.len() && forall|k: int|
                0 <= k < v.len() ==> #[trigger] branches(tbl, st, u, bs, v, k),
            Node::Star(i) => v.len() == 2 && chain_of(tbl, st, v[0]) == chain_list(
                tbl,
                st,
                seq![i] + u,
                (u.len() + 1) as int,
            ) && chain_of(tbl, st, v[1]) == chain_list(tbl, st, u.skip(1), u.len() - 1),
            _ => false,
        },
        _ => false,
    }
}

/// Entry `k` is the product with summand `k` of its first factor in place of that.
pub open spec fn branches(
    tbl: Seq<Node>,
    st: SPPstore,
    u: Seq<AExprIdx>,
    bs: Seq<AExprIdx>,
    v: Seq<AExprIdx>,
    k: int,
) -> bool {
    chain_of(tbl, st, v[k]) == chain_list(tbl, st, seq![bs[k]] + u.skip(1), u.len() as int)
}

/// What entry `k` is taken apart into is in the list.
pub open spec fn spread_at(
    tbl: Seq<Node>,
    st: SPPstore,
    found: Seq<AExprIdx>,
    k: int,
    v: Seq<AExprIdx>,
) -> bool {
    parted(tbl, st, found[k], v) && forall|j: int|
        0 <= j < v.len() ==> found.contains(#[trigger] v[j])
}

/// Entry `k` comes of taking apart an earlier one.
pub open spec fn comes_from(
    tbl: Seq<Node>,
    st: SPPstore,
    found: Seq<AExprIdx>,
    k: int,
    i: int,
    v: Seq<AExprIdx>,
) -> bool {
    0 <= i < k && parted(tbl, st, found[i], v) && v.contains(found[k])
}

/// Entry `k` is a head, or taken apart into the list.
pub open spec fn settled(tbl: Seq<Node>, st: SPPstore, found: Seq<AExprIdx>, k: int) -> bool {
    headed(tbl, found[k]) || exists|v: Seq<AExprIdx>| #[trigger] spread_at(tbl, st, found, k, v)
}

/// Entry `k` comes of taking apart some earlier one.
pub open spec fn brought(tbl: Seq<Node>, st: SPPstore, found: Seq<AExprIdx>, k: int) -> bool {
    exists|i: int, v: Seq<AExprIdx>| #[trigger] comes_from(tbl, st, found, k, i, v)
}

/// The list begins with `s`, has nothing twice and nothing that does not come of taking
/// apart.  Of its first `n` entries, those that are no heads are taken apart into it.
pub open spec fn taken_apart(
    tbl: Seq<Node>,
    st: SPPstore,
    s: AExprIdx,
    found: Seq<AExprIdx>,
    n: int,
) -> bool {
    &&& found.len() > 0
    &&& found[0] == s
    &&& in_table(tbl, found)
    &&& found.no_duplicates()
    &&& forall|k: int| 0 <= k < n && k < found.len() ==> #[trigger] settled(tbl, st, found, k)
    &&& forall|k: int| 0 < k < found.len() ==> #[trigger] brought(tbl, st, found, k)
}

/// The heads among the first `n` entries, in order.
pub open spec fn headed_of(tbl: Seq<Node>, found: Seq<AExprIdx>, n: int) -> Seq<AExprIdx>
    decreases n,
{
    if n <= 0 || n > found.len() {
        Seq::empty()
    } else if headed(tbl, found[n - 1]) {
        headed_of(tbl, found, n - 1).push(found[n - 1])
    } else {
        headed_of(tbl, found, n - 1)
    }
}

/// The heads are those of what comes of taking apart `s` again and again, each once.
pub open spec fn heads_of(
    tbl: Seq<Node>,
    st: SPPstore,
    s: AExprIdx,
    heads: Seq<AExprIdx>,
) -> bool {
    exists|found: Seq<AExprIdx>| #[trigger]
        taken_apart(tbl, st, s, found, found.len() as int) && heads == headed_of(
            tbl,
            found,
            found.len() as int,
        )
}

/// The edge of a head: to what is left of it.
pub open spec fn edge_to(
    tbl: Seq<Node>,
    st: SPPstore,
    s: AExprIdx,
    e: Option<(EdgeLabel, State)>,
) -> bool {
    match tbl[s as int] {
        Node::Dup => e matches Some((l, t)) && l == EdgeLabel::Concrete(st.one) && t.visible
            && t.aexpr < tbl.len() && tbl[t.aexpr as int] == Node::Spp(st.one),
        Node::Sequence(v) => e matches Some((l, t)) && t.aexpr < tbl.len() && chain_of(
            tbl,
            st,
            t.aexpr,
        ) == chain_list(tbl, st, v.skip(1), v.len() - 1) && match tbl[v[0] as int] {
            Node::Spp(x) => l == EdgeLabel::Concrete(x) && !t.visible,
            Node::Hole(h) => l == EdgeLabel::Abstract(h) && !t.visible,
            _ => l == EdgeLabel::Concrete(st.one) && t.visible,
        },
        _ => e is None,
    }
}

/// The edges of the heads, in order.
pub open spec fn edge_list(
    tbl: Seq<Node>,
    st: SPPstore,
    heads: Seq<AExprIdx>,
    es: Seq<(EdgeLabel, State)>,
) -> bool
    decreases heads.len(),
{
    if heads.len() == 0 {
        es.len() == 0
    } else if edge_to(tbl, st, heads.last(), None) {
        edge_list(tbl, st, heads.drop_last(), es)
    } else {
        &&& es.len() > 0
        &&& edge_to(tbl, st, heads.last(), Some(es.last()))
        &&& edge_list(tbl, st, heads.drop_last(), es.drop_last())
    }
}

// ---- growth --------------------------------------------------------------------------------

/// A product stays the same when the table and the store grow.
pub proof fn lemma_chain_list_ext(
    tbl: Seq<Node>,
    st: SPPstore,
    old_tbl: Seq<Node>,
    o: SPPstore,
    v: Seq<AExprIdx>,
    k: int,
)
    requires
        st.extends(&o),
        table_ext(old_tbl, tbl),
        normal_table(old_tbl, o),
        in_table(old_tbl, v),
    ensures
        chain_list(tbl, st, v, k) == chain_list(old_tbl, o, v, k),
    decreases k,
{
    if 0 < k <= v.len() {
        lemma_chain_list_ext(tbl, st, old_tbl, o, v, k - 1);
        assert(v[k - 1] < old_tbl.len());
        lemma_value_ext(tbl, st, old_tbl, o, v[k - 1]);
    }
}

proof fn lemma_headed_same(tbl: Seq<Node>, old_tbl: Seq<Node>, o: SPPstore, s: AExprIdx)
    requires
        table_ext(old_tbl, tbl),
        normal_table(old_tbl, o),
        s < old_tbl.len(),
    ensures
        headed(tbl, s) == headed(old_tbl, s),
{
    reveal(normal);
    assert(old_tbl[s as int] == tbl[s as int]);
    assert(normal(old_tbl, o, old_tbl[s as int]));
    if let Node::Sequence(v) = old_tbl[s as int] {
        assert(v[0] < old_tbl.len());
        assert(old_tbl[v[0] as int] == tbl[v[0] as int]);
    }
}

proof fn lemma_parted_ext(
    tbl: Seq<Node>,
    st: SPPstore,
    old_tbl: Seq<Node>,
    o: SPPstore,
    s: AExprIdx,
    v: Seq<AExprIdx>,
)
    requires
        st.extends(&o),
        table_ext(old_tbl, tbl),
        normal_table(old_tbl, o),
        s < old_tbl.len(),
        parted(old_tbl, o, s, v),
    ensures
        parted(tbl, st, s, v),
{
    reveal(normal);
    assert(old_tbl[s as int] == tbl[s as int]);
    assert(normal(old_tbl, o, old_tbl[s as int]));
    assert forall|k: int| 0 <= k < v.len() implies #[trigger] v[k] < tbl.len() && tbl[v[k] as int]
        == old_tbl[v[k] as int] && chain_of(tbl, st, v[k]) == chain_of(old_tbl, o, v[k]) by {
        lemma_value_ext(tbl, st, old_tbl, o, v[k]);
    }
    match old_tbl[s as int] {
        Node::Star(i) => {
            assert(in_table(old_tbl, seq![i, s]));
            lemma_chain_list_ext(tbl, st, old_tbl, o, seq![i, s], 2);
            assert(v[0] < tbl.len() && v[1] < tbl.len());
        },
        Node::Sequence(u) => {
            let h = u[0];
            assert(h < old_tbl.len());
            assert(old_tbl[h as int] == tbl[h as int]);
            assert(normal(old_tbl, o, old_tbl[h as int]));
            let tail = u.skip(1);
            assert(in_table(old_tbl, u));
            assert(in_table(old_tbl, tail)) by {
                assert forall|k: int| 0 <= k < tail.len() implies #[trigger] tail[k]
                    < old_tbl.len() by {
                    assert(tail[k] == u[k + 1]);
                }
            }
            match old_tbl[h as int] {
                Node::Union(bs) => {
                    assert(in_table(old_tbl, bs));
                    assert forall|k: int| 0 <= k < v.len() implies #[trigger] branches(
                        tbl,
                        st,
                        u,
                        bs,
                        v,
                        k,
                    ) by {
                        assert(branches(old_tbl, o, u, bs, v, k));
                        let l = seq![bs[k]] + tail;
                        assert(in_table(old_tbl, l)) by {
                            assert forall|m: int| 0 <= m < l.len() implies #[trigger] l[m]
                                < old_tbl.len() by {
                                assert(bs[k] < old_tbl.len());
                                if m > 0 {
                                    assert(l[m] == tail[m - 1]);
                                }
                            }
                        }
                        lemma_chain_list_ext(tbl, st, old_tbl, o, l, u.len() as int);
                        assert(v[k] < tbl.len());
                    }
                },
                Node::Star(i) => {
                    let l = seq![i] + u;
                    assert(in_table(old_tbl, l)) by {
                        assert forall|m: int| 0 <= m < l.len() implies #[trigger] l[m]
                            < old_tbl.len() by {
                            if m > 0 {
                                assert(l[m] == u[m - 1]);
                            }
                        }
                    }
                    lemma_chain_list_ext(tbl, st, old_tbl, o, l, (u.len() + 1) as int);
                    lemma_chain_list_ext(tbl, st, old_tbl, o, tail, u.len() - 1);
                    assert(v[0] < tbl.len() && v[1] < tbl.len());
                },
                _ => {},
            }
        },
        _ => {},
    }
}

/// What was taken apart stays so when the table and the store grow.
pub proof fn lemma_apart_ext(
    tbl: Seq<Node>,
    st: SPPstore,
    old_tbl: Seq<Node>,
    o: SPPstore,
    s: AExprIdx,
    found: Seq<AExprIdx>,
    n: int,
)
    requires
        st.extends(&o),
        table_ext(old_tbl, tbl),
        normal_table(old_tbl, o),
        taken_apart(old_tbl, o, s, found, n),
        0 <= n <= found.len(),
    ensures
        taken_apart(tbl, st, s, found, n),
        headed_of(tbl, found, n) == headed_of(old_tbl, found, n),
{
    assert forall|k: int| 0 <= k < n && k < found.len() implies #[trigger] settled(
        tbl,
        st,
        found,
        k,
    ) by {
        assert(found[k] < old_tbl.len());
        lemma_headed_same(tbl, old_tbl, o, found[k]);
        assert(settled(old_tbl, o, found, k));
        if !headed(tbl, found[k]) {
            let v = choose|v: Seq<AExprIdx>| #[trigger] spread_at(old_tbl, o, found, k, v);
            lemma_parted_ext(tbl, st, old_tbl, o, found[k], v);
            assert(spread_at(tbl, st, found, k, v));
        }
    }
    assert forall|k: int| 0 < k < found.len() implies #[trigger] brought(tbl, st, found, k) by {
        assert(brought(old_tbl, o, found, k));
        let (i, v) = choose|i: int, v: Seq<AExprIdx>| #[trigger]
            comes_from(old_tbl, o, found, k, i, v);
        assert(found[i] < old_tbl.len());
        lemma_parted_ext(tbl, st, old_tbl, o, found[i], v);
        assert(comes_from(tbl, st, found, k, i, v));
    }
    lemma_headed_of_ext(tbl, old_tbl, o, found, n);
}

proof fn lemma_headed_of_ext(
    tbl: Seq<Node>,
    old_tbl: Seq<Node>,
    o: SPPstore,
    found: Seq<AExprIdx>,
    n: int,
)
    requires
        table_ext(old_tbl, tbl),
        normal_table(old_tbl, o),
        in_table(old_tbl, found),
    ensures
        headed_of(tbl, found, n) == headed_of(old_tbl, found, n),
    decreases n,
{
    if 0 < n <= found.len() {
        lemma_headed_of_ext(tbl, old_tbl, o, found, n - 1);
        assert(found[n - 1] < old_tbl.len());
        lemma_headed_same(tbl, old_tbl, o, found[n - 1]);
    }
}

/// One more entry is taken apart, into those that were there and those that are new.
pub proof fn lemma_apart_more(
    tbl: Seq<Node>,
    st: SPPstore,
    s: AExprIdx,
    f0: Seq<AExprIdx>,
    n: int,
    v: Seq<AExprIdx>,
    found: Seq<AExprIdx>,
)
    requires
        taken_apart(tbl, st, s, f0, n),
        0 <= n < f0.len(),
        parted(tbl, st, f0[n], v),
        !headed(tbl, f0[n]),
        f0.len() <= found.len(),
        in_table(tbl, found),
        found.no_duplicates(),
        forall|k: int| 0 <= k < f0.len() ==> #[trigger] found[k] == f0[k],
        forall|x: AExprIdx| #[trigger] v.contains(x) ==> found.contains(x),
        forall|k: int| f0.len() <= k < found.len() ==> v.contains(#[trigger] found[k]),
    ensures
        taken_apart(tbl, st, s, found, n + 1),
        headed_of(tbl, found, n + 1) == headed_of(tbl, f0, n),
{
    assert forall|k: int| 0 <= k < n + 1 && k < found.len() implies #[trigger] settled(
        tbl,
        st,
        found,
        k,
    ) by {
        assert(found[k] == f0[k]);
        if k == n {
            assert forall|j: int| 0 <= j < v.len() implies found.contains(#[trigger] v[j]) by {
                assert(v.contains(v[j]));
            }
            assert(spread_at(tbl, st, found, k, v));
        } else if !headed(tbl, f0[k]) {
            assert(settled(tbl, st, f0, k));
            let u = choose|u: Seq<AExprIdx>| #[trigger] spread_at(tbl, st, f0, k, u);
            assert forall|j: int| 0 <= j < u.len() implies found.contains(#[trigger] u[j]) by {
                assert(f0.contains(u[j]));
                let m = choose|m: int| 0 <= m < f0.len() && f0[m] == u[j];
                assert(found[m] == u[j]);
            }
            assert(spread_at(tbl, st, found, k, u));
        }
    }
    assert forall|k: int| 0 < k < found.len() implies #[trigger] brought(tbl, st, found, k) by {
        if k < f0.len() {
            assert(f0[k] == found[k]);
            assert(brought(tbl, st, f0, k));
            let (i, u) = choose|i: int, u: Seq<AExprIdx>| #[trigger]
                comes_from(tbl, st, f0, k, i, u);
            assert(found[i] == f0[i]);
            assert(comes_from(tbl, st, found, k, i, u));
        } else {
            assert(found[n] == f0[n]);
            assert(comes_from(tbl, st, found, k, n, v));
        }
    }
    assert(found[0] == f0[0]);
    assert(found[n] == f0[n]);
    lemma_headed_of_more(tbl, f0, found, n);
}

proof fn lemma_headed_of_more(
    tbl: Seq<Node>,
    f0: Seq<AExprIdx>,
    found: Seq<AExprIdx>,
    n: int,
)
    requires
        n <= f0.len() <= found.len(),
        forall|k: int| 0 <= k < f0.len() ==> #[trigger] found[k] == f0[k],
    ensures
        headed_of(tbl, found, n) == headed_of(tbl, f0, n),
    decreases n,
{
    if n > 0 {
        lemma_headed_of_more(tbl, f0, found, n - 1);
        assert(found[n - 1] == f0[n - 1]);
    }
}

/// The heads stay the heads when the table and the store grow.
pub proof fn lemma_heads_ext(
    tbl: Seq<Node>,
    st: SPPstore,
    old_tbl: Seq<Node>,
    o: SPPstore,
    s: AExprIdx,
    heads: Seq<AExprIdx>,
)
    requires
        st.extends(&o),
        table_ext(old_tbl, tbl),
        normal_table(old_tbl, o),
        heads_of(old_tbl, o, s, heads),
    ensures
        heads_of(tbl, st, s, heads),
{
    let found = choose|found: Seq<AExprIdx>| #[trigger]
        taken_apart(old_tbl, o, s, found, found.len() as int) && heads == headed_of(
            old_tbl,
            found,
            found.len() as int,
        );
    lemma_apart_ext(tbl, st, old_tbl, o, s, found, found.len() as int);
}

/// An edge stays that of its head when the table and the store grow.
pub proof fn lemma_edge_to_ext(
    tbl: Seq<Node>,
    st: SPPstore,
    old_tbl: Seq<Node>,
    o: SPPstore,
    s: AExprIdx,
    e: Option<(EdgeLabel, State)>,
)
    requires
        st.extends(&o),
        table_ext(old_tbl, tbl),
        normal_table(old_tbl, o),
        s < old_tbl.len(),
        edge_to(old_tbl, o, s, e),
    ensures
        edge_to(tbl, st, s, e),
{
    reveal(normal);
    assert(old_tbl[s as int] == tbl[s as int]);
    assert(normal(old_tbl, o, old_tbl[s as int]));
    if let Some((l, t)) = e {
        assert(old_tbl[t.aexpr as int] == tbl[t.aexpr as int]);
    }
    if let Node::Sequence(v) = old_tbl[s as int] {
        assert(v[0] < old_tbl.len());
        assert(old_tbl[v[0] as int] == tbl[v[0] as int]);
        let tail = v.skip(1);
        assert(in_table(old_tbl, tail)) by {
            assert forall|k: int| 0 <= k < tail.len() implies #[trigger] tail[k] < old_tbl.len() by {
                assert(tail[k] == v[k + 1]);
            }
        }
        lemma_chain_list_ext(tbl, st, old_tbl, o, tail, v.len() - 1);
        let (l, t) = e.unwrap();
        lemma_value_ext(tbl, st, old_tbl, o, t.aexpr);
    }
}

/// Edges stay those of their heads when the table and the store grow.
pub proof fn lemma_edge_list_ext(
    tbl: Seq<Node>,
    st: SPPstore,
    old_tbl: Seq<Node>,
    o: SPPstore,
    heads: Seq<AExprIdx>,
    es: Seq<(EdgeLabel, State)>,
)
    requires
        st.extends(&o),
        table_ext(old_tbl, tbl),
        normal_table(old_tbl, o),
        in_table(old_tbl, heads),
        edge_list(old_tbl, o, heads, es),
    ensures
        edge_list(tbl, st, heads, es),
    decreases heads.len(),
{
    if heads.len() > 0 {
        let h0 = heads.drop_last();
        assert(heads[heads.len() - 1] < old_tbl.len());
        assert(heads.last() < old_tbl.len());
        assert(in_table(old_tbl, h0)) by {
            assert forall|k: int| 0 <= k < h0.len() implies #[trigger] h0[k] < old_tbl.len() by {
                assert(h0[k] == heads[k]);
            }
        }
        if edge_to(old_tbl, o, heads.last(), None) {
            lemma_edge_to_ext(tbl, st, old_tbl, o, heads.last(), None);
            lemma_edge_list_ext(tbl, st, old_tbl, o, h0, es);
        } else {
            lemma_edge_to_ext(tbl, st, old_tbl, o, heads.last(), Some(es.last()));
            lemma_edge_list_ext(tbl, st, old_tbl, o, h0, es.drop_last());
        }
    }
}

// ---- laws ------------------------------------------------------------------------------------

/// An expression is taken apart in one way, and is no head then.
pub proof fn lemma_parted_once(
    tbl: Seq<Node>,
    st: SPPstore,
    s: AExprIdx,
    v: Seq<AExprIdx>,
    u: Seq<AExprIdx>,
)
    requires
        normal_table(tbl, st),
        parted(tbl, st, s, v),
        parted(tbl, st, s, u),
    ensures
        v == u,
        !headed(tbl, s),
{
    match tbl[s as int] {
        Node::Star(i) => {
            assert(v[0] < tbl.len() && u[0] < tbl.len() && v[1] < tbl.len() && u[1] < tbl.len());
            lemma_chain_once(tbl, st, v[0], u[0]);
            assert(tbl[v[1] as int] == tbl[u[1] as int]);
        },
        Node::Sequence(l) => {
            match tbl[l[0] as int] {
                Node::Union(bs) => {
                    assert forall|k: int| 0 <= k < v.len() implies v[k] == u[k] by {
                        assert(branches(tbl, st, l, bs, v, k));
                        assert(branches(tbl, st, l, bs, u, k));
                        assert(v[k] < tbl.len() && u[k] < tbl.len());
                        lemma_chain_once(tbl, st, v[k], u[k]);
                    }
                },
                _ => {
                    assert(v[0] < tbl.len() && u[0] < tbl.len());
                    assert(v[1] < tbl.len() && u[1] < tbl.len());
                    lemma_chain_once(tbl, st, v[0], u[0]);
                    lemma_chain_once(tbl, st, v[1], u[1]);
                },
            }
        },
        _ => {},
    }
    assert(v =~= u);
}

/// What comes of taking apart is in every list of it.
proof fn lemma_apart_in(
    tbl: Seq<Node>,
    st: SPPstore,
    s: AExprIdx,
    f: Seq<AExprIdx>,
    g: Seq<AExprIdx>,
    k: int,
)
    requires
        normal_table(tbl, st),
        taken_apart(tbl, st, s, f, f.len() as int),
        taken_apart(tbl, st, s, g, g.len() as int),
        0 <= k < f.len(),
    ensures
        g.contains(f[k]),
    decreases k,
{
    if k == 0 {
        assert(g[0] == f[0]);
    } else {
        assert(brought(tbl, st, f, k));
        let (i, v) = choose|i: int, v: Seq<AExprIdx>| #[trigger] comes_from(tbl, st, f, k, i, v);
        lemma_apart_in(tbl, st, s, f, g, i);
        let m = choose|m: int| 0 <= m < g.len() && g[m] == f[i];
        lemma_parted_once(tbl, st, f[i], v, v);
        assert(settled(tbl, st, g, m));
        let u = choose|u: Seq<AExprIdx>| #[trigger] spread_at(tbl, st, g, m, u);
        lemma_parted_once(tbl, st, f[i], v, u);
        let j = choose|j: int| 0 <= j < v.len() && v[j] == f[k];
        assert(g.contains(u[j]));
    }
}

proof fn lemma_headed_of(tbl: Seq<Node>, found: Seq<AExprIdx>, n: int, x: AExprIdx)
    requires
        0 <= n <= found.len(),
    ensures
        headed_of(tbl, found, n).contains(x) <==> headed(tbl, x) && exists|k: int|
            0 <= k < n && #[trigger] found[k] == x,
    decreases n,
{
    if n > 0 {
        lemma_headed_of(tbl, found, n - 1, x);
        let h = headed_of(tbl, found, n - 1);
        if headed(tbl, found[n - 1]) {
            let g = h.push(found[n - 1]);
            if g.contains(x) {
                let j = choose|j: int| 0 <= j < g.len() && g[j] == x;
                if j < h.len() {
                    assert(h[j] == x);
                }
            }
            if h.contains(x) {
                let j = choose|j: int| 0 <= j < h.len() && h[j] == x;
                assert(g[j] == x);
            }
            assert(g[h.len() as int] == found[n - 1]);
        }
    }
}

/// An expression has the same heads, whenever it is taken apart.
pub proof fn law_heads_once(
    aut: AutWithHoles,
    st: SPPstore,
    s: AExprIdx,
    v: Seq<AExprIdx>,
    u: Seq<AExprIdx>,
    x: AExprIdx,
)
    requires
        st.wf(),
        aut.wf(&st),
        heads_of(aut.tbl(), st, s, v),
        heads_of(aut.tbl(), st, s, u),
    ensures
        v.contains(x) <==> u.contains(x),
{
    aut.lemma_normal(st);
    let tbl = aut.tbl();
    let f = choose|f: Seq<AExprIdx>| #[trigger]
        taken_apart(tbl, st, s, f, f.len() as int) && v == headed_of(tbl, f, f.len() as int);
    let g = choose|g: Seq<AExprIdx>| #[trigger]
        taken_apart(tbl, st, s, g, g.len() as int) && u == headed_of(tbl, g, g.len() as int);
    lemma_headed_of(tbl, f, f.len() as int, x);
    lemma_headed_of(tbl, g, g.len() as int, x);
    if v.contains(x) {
        let k = choose|k: int| 0 <= k < f.len() && #[trigger] f[k] == x;
        lemma_apart_in(tbl, st, s, f, g, k);
        let m = choose|m: int| 0 <= m < g.len() && g[m] == x;
        assert(g[m] == x);
    }
    if u.contains(x) {
        let k = choose|k: int| 0 <= k < g.len() && #[trigger] g[k] == x;
        lemma_apart_in(tbl, st, s, g, f, k);
        let m = choose|m: int| 0 <= m < f.len() && f[m] == x;
        assert(f[m] == x);
    }
}

/// Where what `s` is taken apart into are heads, nothing else comes of it.
proof fn lemma_two_parts(
    tbl: Seq<Node>,
    st: SPPstore,
    s: AExprIdx,
    found: Seq<AExprIdx>,
    y: AExprIdx,
    z: AExprIdx,
    k: int,
)
    requires
        normal_table(tbl, st),
        taken_apart(tbl, st, s, found, found.len() as int),
        parted(tbl, st, s, seq![y, z]),
        headed(tbl, y),
        headed(tbl, z),
        0 < k < found.len(),
    ensures
        found[k] == y || found[k] == z,
    decreases k,
{
    assert(brought(tbl, st, found, k));
    let (i, v) = choose|i: int, v: Seq<AExprIdx>| #[trigger] comes_from(tbl, st, found, k, i, v);
    lemma_parted_once(tbl, st, found[i], v, v);
    if i > 0 {
        lemma_two_parts(tbl, st, s, found, y, z, i);
    }
    lemma_parted_once(tbl, st, s, v, seq![y, z]);
    let j = choose|j: int| 0 <= j < v.len() && v[j] == found[k];
    assert(v[j] == y || v[j] == z);
}

/// The product of two expressions that are neither products nor relations.
proof fn lemma_pair_chain(tbl: Seq<Node>, st: SPPstore, i: AExprIdx, s: AExprIdx, y: AExprIdx)
    requires
        normal_table(tbl, st),
        i < tbl.len(),
        s < tbl.len(),
        y < tbl.len(),
        tbl[i as int] is Hole,
        tbl[s as int] is Star,
        chain_of(tbl, st, y) == chain_list(tbl, st, seq![i, s], 2),
    ensures
        tbl[y as int] == Node::Sequence(seq![i, s]),
{
    let n = st.n();
    let l = seq![i, s];
    let a = Item::Part(i);
    let b = Item::Part(s);
    let nil = Seq::<Item>::empty();
    lemma_chain_two(tbl, st, l);
    assert(chain_of(tbl, st, i) == Some(nil.push(a)));
    assert(chain_of(tbl, st, s) == Some(nil.push(b)));
    let v = nil.push(b);
    assert(v.drop_last() =~= nil);
    assert(push_items(n, Some(nil.push(a)), nil) == Some(nil.push(a)));
    assert(push_items(n, Some(nil.push(a)), v) == Some(nil.push(a).push(b)));
    let c = nil.push(a).push(b);
    assert(chain_of(tbl, st, y) == Some(c));
    match tbl[y as int] {
        Node::Sequence(u) => {
            let w = items_of(tbl, st, u);
            assert(w == c);
            assert(w[0] == item_of(tbl, st, u[0]) && w[1] == item_of(tbl, st, u[1]));
            assert(c[0] == a && c[1] == b);
            assert(u =~= l);
        },
        _ => {
            assert(c.len() == 2);
        },
    }
}

/// A repeated hole has one edge, through the hole and back to the repetition, and ends as
/// every packet came.
pub proof fn law_repeated_hole(
    aut: AutWithHoles,
    st: SPPstore,
    s: AExprIdx,
    i: AExprIdx,
    h: Hole,
    heads: Seq<AExprIdx>,
    es: Seq<(EdgeLabel, State)>,
)
    requires
        st.wf(),
        aut.wf(&st),
        aut.has(s),
        aut.has(i),
        aut.tbl()[s as int] == Node::Star(i),
        aut.tbl()[i as int] == Node::Hole(h),
        heads_of(aut.tbl(), st, s, heads),
        edge_list(aut.tbl(), st, heads, es),
    ensures
        es == seq![(EdgeLabel::Abstract(h), State { aexpr: s, visible: false })],
        labels_of(st, aut.tbl(), heads) == seq![EdgeLabel::Concrete(st.one)],
{
    aut.lemma_normal(st);
    lemma_one_zero(st);
    let tbl = aut.tbl();
    let found = choose|found: Seq<AExprIdx>| #[trigger]
        taken_apart(tbl, st, s, found, found.len() as int) && heads == headed_of(
            tbl,
            found,
            found.len() as int,
        );
    assert(settled(tbl, st, found, 0));
    let v = choose|v: Seq<AExprIdx>| #[trigger] spread_at(tbl, st, found, 0, v);
    let y = v[0];
    let z = v[1];
    assert(v =~= seq![y, z]);
    assert(y < tbl.len() && z < tbl.len());
    lemma_pair_chain(tbl, st, i, s, y);
    let u = seq![i, s];
    assert(headed(tbl, y) && headed(tbl, z));
    assert(found.contains(v[0]) && found.contains(v[1]));
    let a = choose|a: int| 0 <= a < found.len() && found[a] == y;
    let b = choose|b: int| 0 <= b < found.len() && found[b] == z;
    assert(a != 0 && b != 0 && a != b);
    assert forall|k: int| 0 < k < found.len() implies #[trigger] found[k] == y || found[k] == z by {
        lemma_two_parts(tbl, st, s, found, y, z, k);
    }
    if found.len() > 3 {
        assert(found[1] == y || found[1] == z);
        assert(found[2] == y || found[2] == z);
        assert(found[3] == y || found[3] == z);
    }
    assert(found.len() == 3);
    assert(!headed(tbl, found[0]));
    assert(headed(tbl, found[1]) && headed(tbl, found[2]));
    let nil = Seq::<AExprIdx>::empty();
    assert(headed_of(tbl, found, 0) == nil);
    assert(headed_of(tbl, found, 1) == nil);
    assert(headed_of(tbl, found, 2) == nil.push(found[1]));
    assert(headed_of(tbl, found, 3) == nil.push(found[1]).push(found[2]));
    let h1 = nil.push(found[1]);
    assert(heads.drop_last() =~= h1);
    assert(h1.drop_last() =~= nil);
    assert(heads.last() == found[2] && h1.last() == found[1]);
    assert(edge_to(tbl, st, z, None));
    assert(!edge_to(tbl, st, y, None));
    if found[1] == y {
        assert(edge_list(tbl, st, h1, es));
        assert(edge_list(tbl, st, nil, es.drop_last()));
    } else {
        assert(edge_list(tbl, st, h1, es.drop_last()));
        assert(edge_list(tbl, st, nil, es.drop_last()));
    }
    assert(es.drop_last().len() == 0);
    let e = es.last();
    assert(edge_to(tbl, st, y, Some(e)));
    let t = e.1.aexpr;
    assert(u.skip(1) =~= seq![s]);
    let one = seq![s];
    assert(chain_list(tbl, st, one, 0) == Some(Seq::<Item>::empty()));
    assert(chain_list(tbl, st, one, 1) == chain_of(tbl, st, s)) by {
        lemma_chain_tidy(tbl, st, s);
        if let Some(w) = chain_of(tbl, st, s) {
            lemma_items_self(st.n(), w);
        }
    }
    lemma_chain_once(tbl, st, t, s);
    assert(es[0] == e);
    assert(es =~= seq![(EdgeLabel::Abstract(h), State { aexpr: s, visible: false })]);
    assert(labels_of(st, tbl, nil) =~= Seq::empty());
    let ls = labels_of(st, tbl, heads);
    assert(labels_of(st, tbl, h1) =~= if found[1] == y {
        Seq::empty()
    } else {
        seq![EdgeLabel::Concrete(st.one)]
    });
    assert(ls =~= seq![EdgeLabel::Concrete(st.one)]);
}
} // verus!
