//! Learning relations from examples.
use vstd::prelude::*;
use crate::holes::trie::{
    conflicting, exampled, generalize, merged, path_ok, told, Known, Layers,
};
use crate::sp::Pkt;
use crate::spp::{chosen, SPPstore, SPP};

verus! {

/// Two examples give one input different labels.
#[derive(Debug, Clone, Copy, PartialEq, Eq)]
pub struct ConflictError;

impl ConflictError {
    /// What is wrong.
    pub fn message(&self) -> (s: String)
        ensures
            s@ == "conflicting examples"@,
    {
        "conflicting examples".to_string()
    }
}

/// The branch of a pair of bits.
pub open spec fn branch(x: bool, y: bool) -> usize {
    chosen(0usize, 1usize, 2usize, 3usize, x, y)
}

/// The branches of two packets.
pub open spec fn branches(p: Pkt, q: Pkt) -> Seq<usize> {
    Seq::new(p.len(), |i: int| branch(p[i], q[i]))
}

pub proof fn lemma_branches_first(p: Pkt, q: Pkt)
    requires
        p.len() > 0,
        p.len() == q.len(),
    ensures
        branches(p, q)[0] == branch(p[0], q[0]),
        branches(p, q).skip(1) == branches(p.drop_first(), q.drop_first()),
{
    assert(branches(p, q).skip(1) =~= branches(p.drop_first(), q.drop_first()));
}

/// Equal branches come from equal packets.
pub proof fn lemma_branches_same(p: Pkt, q: Pkt, r: Pkt, s: Pkt)
    requires
        p.len() == q.len(),
        r.len() == s.len(),
        branches(p, q) == branches(r, s),
    ensures
        p == r,
        q == s,
{
    let a = branches(p, q);
    let b = branches(r, s);
    assert(a.len() == p.len() && b.len() == r.len());
    assert forall|i: int| 0 <= i < p.len() implies p[i] == r[i] && q[i] == s[i] by {
        assert(a[i] == branch(p[i], q[i]));
        assert(b[i] == branch(r[i], s[i]));
    }
    assert(p =~= r);
    assert(q =~= s);
}

/// Add the branches of two packets to a path.
pub(crate) fn push_branches(path: &mut Vec<usize>, p: &Vec<bool>, q: &Vec<bool>)
    requires
        p@.len() == q@.len(),
    ensures
        final(path)@ == old(path)@ + branches(p@, q@),
{
    let ghost p0 = path@;
    let mut i: usize = 0;
    assert(path@ =~= p0 + branches(p@, q@).take(0));
    while i < p.len()
        invariant
            p@.len() == q@.len(),
            i <= p@.len(),
            path@ == p0 + branches(p@, q@).take(i as int),
        decreases p.len() - i,
    {
        let b: usize = if p[i] {
            if q[i] {
                3
            } else {
                2
            }
        } else {
            if q[i] {
                1
            } else {
                0
            }
        };
        path.push(b);
        assert(branches(p@, q@).take(i + 1) =~= branches(p@, q@).take(i as int).push(b));
        assert(path@ =~= p0 + branches(p@, q@).take(i + 1));
        i = i + 1;
    }
    assert(branches(p@, q@).take(i as int) =~= branches(p@, q@));
}

/// The classes of level `d` are relations: they relate what the diagram accepts
/// from them on.
pub open spec fn folded(st: SPPstore, l: Layers, d: int, v: Seq<SPP>) -> bool {
    let k = (l.rows@.len() - d) as nat;
    &&& v.len() == l.count(d)
    &&& forall|c: int| 0 <= c < v.len() ==> st.has_at(k, #[trigger] v[c])
    &&& forall|c: int, p: Pkt, q: Pkt|
        #![trigger st.rel_at(v[c], p, q)]
        0 <= c < v.len() && p.len() == k && q.len() == k ==> st.rel_at(v[c], p, q) == l.label(
            d,
            c,
            branches(p, q),
        )
}

/// The relations of the classes of level `base` of a diagram whose levels from
/// there on read two packets.
pub(crate) fn fold_relations(
    store: &mut SPPstore,
    l: &Layers,
    base: usize,
    Ghost(ws): Ghost<Seq<usize>>,
) -> (v: Vec<SPP>)
    requires
        old(store).wf(),
        l.wf(ws),
        base <= ws.len(),
        forall|d: int| base <= d < ws.len() ==> #[trigger] ws[d] == 4,
    ensures
        final(store).wf(),
        final(store).grows(old(store)),
        final(store).sp == old(store).sp,
        folded(*final(store), *l, base as int, v@),
{
    let ghost o = *store;
    let ghost total = ws.len() as int;
    let mut cur: Vec<SPP> = Vec::new();
    let mut c: usize = 0;
    proof {
        o.lemma_grows();
    }
    while c < l.leaves.len()
        invariant
            o == *store,
            o.wf(),
            c <= l.leaves@.len(),
            cur@.len() == c,
            forall|j: int| 0 <= j < c ==> o.has_at(0, #[trigger] cur@[j]),
            forall|j: int, p: Pkt, q: Pkt|
                #![trigger o.rel_at(cur@[j], p, q)]
                0 <= j < c && p.len() == 0 ==> o.rel_at(cur@[j], p, q) == l.leaves@[j],
        decreases l.leaves.len() - c,
    {
        let x = store.leaf(l.leaves[c]);
        cur.push(x);
        c = c + 1;
    }
    let mut d: usize = l.rows.len();
    while d > base
        invariant
            o.wf(),
            store.wf(),
            store.grows(&o),
            store.sp == o.sp,
            l.wf(ws),
            total == ws.len(),
            base <= d <= total,
            forall|e: int| base <= e < ws.len() ==> #[trigger] ws[e] == 4,
            folded(*store, *l, d as int, cur@),
        decreases d,
    {
        let ghost s0 = *store;
        let ghost k = (total - d) as nat;
        let ghost cur0 = cur@;
        d = d - 1;
        let mut next: Vec<SPP> = Vec::new();
        let mut c: usize = 0;
        proof {
            s0.lemma_grows();
        }
        while c < l.rows[d].len()
            invariant
                s0.wf(),
                store.wf(),
                store.grows(&s0),
                store.sp == s0.sp,
                l.wf(ws),
                total == ws.len(),
                0 <= d < total,
                ws[d as int] == 4,
                k == total - d - 1,
                cur@ == cur0,
                folded(s0, *l, d + 1, cur0),
                c <= l.rows@[d as int]@.len(),
                next@.len() == c,
                forall|j: int| 0 <= j < c ==> store.has_at(k + 1, #[trigger] next@[j]),
                forall|j: int, p: Pkt, q: Pkt|
                    #![trigger store.rel_at(next@[j], p, q)]
                    0 <= j < c && p.len() == k + 1 && q.len() == k + 1 ==> store.rel_at(
                        next@[j],
                        p,
                        q,
                    ) == l.label(d as int, j, branches(p, q)),
            decreases l.rows@[d as int].len() - c,
        {
            let ghost s1 = *store;
            let ghost next1 = next@;
            let row = &l.rows[d][c];
            proof {
                assert(l.row_wf(ws, d as int, c as int));
                assert(row@ == l.rows@[d as int]@[c as int]@);
                assert(row@[0] < l.count(d + 1));
                assert(row@[1] < l.count(d + 1));
                assert(row@[2] < l.count(d + 1));
                assert(row@[3] < l.count(d + 1));
                assert(s0.has_at(k, cur0[row@[0] as int]));
                assert(s0.has_at(k, cur0[row@[1] as int]));
                assert(s0.has_at(k, cur0[row@[2] as int]));
                assert(s0.has_at(k, cur0[row@[3] as int]));
            }
            let x00 = cur[row[0]];
            let x01 = cur[row[1]];
            let x10 = cur[row[2]];
            let x11 = cur[row[3]];
            let x = store.mk_at(x00, x01, x10, x11, Ghost(k));
            next.push(x);
            proof {
                assert forall|j: int| 0 <= j < c + 1 implies store.has_at(
                    k + 1,
                    #[trigger] next@[j],
                ) by {
                    if j < c {
                        assert(next@[j] == next1[j]);
                        assert(s1.has_at(k + 1, next1[j]));
                    }
                }
                assert forall|j: int, p: Pkt, q: Pkt|
                    #![trigger store.rel_at(next@[j], p, q)]
                    0 <= j < c + 1 && p.len() == k + 1 && q.len() == k + 1 implies store.rel_at(
                    next@[j],
                    p,
                    q,
                ) == l.label(d as int, j, branches(p, q)) by {
                    if j < c {
                        assert(next@[j] == next1[j]);
                        assert(s1.has_at(k + 1, next1[j]));
                        assert(s1.rel_at(next1[j], p, q) == store.rel_at(next1[j], p, q));
                    } else {
                        let b = branch(p[0], q[0]);
                        let t = row@[b as int] as int;
                        let y = chosen(x00, x01, x10, x11, p[0], q[0]);
                        let p1 = p.drop_first();
                        let q1 = q.drop_first();
                        assert(y == cur0[t]);
                        lemma_branches_first(p, q);
                        assert(s0.has_at(k, y));
                        assert(s1.rel_at(y, p1, q1) == s0.rel_at(y, p1, q1));
                        assert(s0.rel_at(cur0[t], p1, q1) == l.label(
                            d + 1,
                            t,
                            branches(p1, q1),
                        ));
                    }
                }
            }
            c = c + 1;
        }
        cur = next;
        proof {
            assert((total - d) as nat == k + 1);
            assert(folded(*store, *l, d as int, cur@));
        }
    }
    cur
}

/// An example for a relation: a pair of packets, and whether it is related.
#[derive(Debug)]
pub struct Example {
    pub input: Vec<bool>,
    pub output: Vec<bool>,
    pub in_spp: bool,
}

/// Two examples label one pair of packets differently.
pub open spec fn examples_conflict(es: Seq<Example>) -> bool {
    exists|i: int, j: int|
        0 <= i < es.len() && 0 <= j < es.len() && (#[trigger] es[i]).input@ == (
        #[trigger] es[j]).input@ && es[i].output@ == es[j].output@ && es[i].in_spp != es[j].in_spp
}

/// The relation says of every example what the example says.
pub open spec fn fits(st: SPPstore, r: SPP, es: Seq<Example>) -> bool {
    forall|i: int|
        0 <= i < es.len() ==> st.rel(r, (#[trigger] es[i]).input@, es[i].output@) == es[i].in_spp
}

/// Some example has the path and the label.
pub open spec fn pair_shown(es: Seq<Example>, q: Seq<usize>, label: bool) -> bool {
    exists|i: int|
        0 <= i < es.len() && branches((#[trigger] es[i]).input@, es[i].output@) == q
            && es[i].in_spp == label
}

/// What the examples tell, by the branches of their packets.
pub open spec fn pairs_told(es: Seq<Example>) -> Known {
    Map::new(
        |q: Seq<usize>| pair_shown(es, q, true) || pair_shown(es, q, false),
        |q: Seq<usize>| pair_shown(es, q, true),
    )
}

/// Branches for packets of `n` fields.
pub open spec fn fours(n: nat) -> Seq<usize> {
    Seq::new(n, |i: int| 4usize)
}

/// A relation that generalises the examples: it says of every example what the
/// example says.  Of other packets it says what merging prefixes of the examples gives
/// that go together.  Without examples it is the empty relation.
pub fn learn_spp(examples: &Vec<Example>, store: &mut SPPstore) -> (r: Result<SPP, ConflictError>)
    requires
        old(store).wf(),
        forall|i: int|
            0 <= i < examples@.len() ==> (#[trigger] examples@[i]).input@.len() == old(store).n()
                && examples@[i].output@.len() == old(store).n(),
    ensures
        final(store).wf(),
        final(store).extends(old(store)),
        final(store).sp == old(store).sp,
        r is Err <==> examples_conflict(examples@),
        r matches Ok(x) ==> final(store).has(x) && fits(*final(store), x, examples@),
        r matches Ok(x) ==> examples@.len() > 0 ==> forall|p: Pkt, q: Pkt|
            p.len() == old(store).n() && q.len() == old(store).n() ==> #[trigger] final(store).rel(
                x,
                p,
                q,
            ) == merged(
                seq![pairs_told(examples@)],
                0,
                fours(old(store).n()),
                branches(p, q),
            ),
        examples@.len() == 0 ==> r == Ok::<SPP, ConflictError>(old(store).zero),
{
    let ghost o = *store;
    let ghost n = o.n();
    let ghost es = examples@;
    proof {
        o.lemma_wf();
    }
    if examples.len() == 0 {
        return Ok(store.zero);
    }
    let nv = store.num_vars();
    let mut ws: Vec<usize> = Vec::new();
    let mut i: u32 = 0;
    while i < nv
        invariant
            i <= nv,
            ws@.len() == i,
            forall|j: int| 0 <= j < i ==> #[trigger] ws@[j] == 4,
        decreases nv - i,
    {
        ws.push(4);
        i = i + 1;
    }
    let mut paths: Vec<(Vec<usize>, bool)> = Vec::new();
    let mut i: usize = 0;
    while i < examples.len()
        invariant
            i <= es.len(),
            es == examples@,
            n == ws@.len(),
            forall|j: int| 0 <= j < n ==> #[trigger] ws@[j] == 4,
            forall|j: int|
                0 <= j < es.len() ==> (#[trigger] es[j]).input@.len() == n && es[j].output@.len()
                    == n,
            paths@.len() == i,
            forall|j: int|
                0 <= j < i ==> (#[trigger] paths@[j]).0@ == branches(es[j].input@, es[j].output@)
                    && paths@[j].1 == es[j].in_spp,
        decreases examples.len() - i,
    {
        let mut path: Vec<usize> = Vec::new();
        assert(es[i as int].input@.len() == n);
        push_branches(&mut path, &examples[i].input, &examples[i].output);
        assert(path@ =~= branches(es[i as int].input@, es[i as int].output@));
        paths.push((path, examples[i].in_spp));
        i = i + 1;
    }
    proof {
        assert forall|j: int| 0 <= j < paths@.len() implies path_ok(
            (#[trigger] paths@[j]).0@,
            ws@,
        ) by {
            assert(es[j].input@.len() == n);
        }
        if conflicting(paths@) {
            let (a, b) = choose|a: int, b: int|
                0 <= a < paths@.len() && 0 <= b < paths@.len() && (#[trigger] paths@[a]).0@ == (
                #[trigger] paths@[b]).0@ && paths@[a].1 != paths@[b].1;
            assert(es[a].input@.len() == n && es[b].input@.len() == n);
            lemma_branches_same(es[a].input@, es[a].output@, es[b].input@, es[b].output@);
            assert(examples_conflict(es));
        }
        if examples_conflict(es) {
            let (a, b) = choose|a: int, b: int|
                0 <= a < es.len() && 0 <= b < es.len() && (#[trigger] es[a]).input@ == (
                #[trigger] es[b]).input@ && es[a].output@ == es[b].output@ && es[a].in_spp
                    != es[b].in_spp;
            assert(paths@[a].0@ == paths@[b].0@);
        }
    }
    match generalize(&ws, &paths) {
        None => Err(ConflictError),
        Some(l) => {
            let v = fold_relations(store, &l, 0, Ghost(ws@));
            let x = v[0];
            proof {
                store.lemma_at(x);
                assert(store.has_at(n, v@[0]));
                assert(ws@ =~= fours(n));
                assert(told(paths@) =~= pairs_told(es)) by {
                    assert forall|z: Seq<usize>, b: bool| #[trigger]
                        exampled(paths@, paths@.len() as int, z, b) == pair_shown(es, z, b) by {
                        if exampled(paths@, paths@.len() as int, z, b) {
                            let j = choose|j: int|
                                0 <= j < paths@.len() && (#[trigger] paths@[j]).0@ == z
                                    && paths@[j].1 == b;
                            assert(branches(es[j].input@, es[j].output@) == z);
                        }
                        if pair_shown(es, z, b) {
                            let j = choose|j: int|
                                0 <= j < es.len() && branches(
                                    (#[trigger] es[j]).input@,
                                    es[j].output@,
                                ) == z && es[j].in_spp == b;
                            assert(paths@[j].0@ == z);
                        }
                    }
                }
                assert forall|p: Pkt, q: Pkt| p.len() == n && q.len() == n implies
                    #[trigger] store.rel(x, p, q) == merged(
                    seq![pairs_told(es)],
                    0,
                    fours(n),
                    branches(p, q),
                ) by {
                    assert(path_ok(branches(p, q), ws@));
                    assert(store.rel_at(v@[0], p, q) == l.label(0, 0, branches(p, q)));
                }
                assert forall|j: int| 0 <= j < es.len() implies store.rel(
                    x,
                    (#[trigger] es[j]).input@,
                    es[j].output@,
                ) == es[j].in_spp by {
                    assert(paths@[j].0@ == branches(es[j].input@, es[j].output@));
                    assert(store.rel_at(v@[0], es[j].input@, es[j].output@) == l.label(
                        0,
                        0,
                        branches(es[j].input@, es[j].output@),
                    ));
                }
            }
            Ok(x)
        },
    }
}

} // verus!
