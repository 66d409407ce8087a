//! Where runs can be along a given trace.
use vstd::prelude::*;
use vstd::slice::*;
use crate::holes::aut::{
    accepts_from, among, distinct, is_path, lemma_first, lemma_run_rest, listed, moves, onward,
    position, run_on, trace_of, Place, StateKey, ENFA,
};
use crate::holes::search::{singleton_sp, sp_intersect, sp_union};
use crate::holes::table::{
    can_reach, hop, hops, lemma_reach_among, lemma_rows_ext, output_of, row_of, subsumes, tabulate,
    tabulates, StateGraph,
};
use crate::lang::{is_word, packets, Word};
use crate::sp::{Pkt, SP};
use crate::spp::{SPPstore, SPP};

verus! {

/// For every state and every position of a trace, a set of packets.
pub struct Reach<S> {
    pub states: Vec<S>,
    pub sets: Vec<Vec<SP>>,
}

/// A table of sets of packets with `k` rows of `n` columns.
pub open spec fn sets_ok(st: SPPstore, sets: Seq<Vec<SP>>, k: nat, n: nat) -> bool {
    sets.len() == k && forall|i: int| 0 <= i < k ==> row_ok(st, (#[trigger] sets[i])@, n)
}

/// A row of `n` sets of packets.
pub open spec fn row_ok(st: SPPstore, row: Seq<SP>, n: nat) -> bool {
    row.len() == n && forall|i: int| 0 <= i < n ==> st.sp.has(#[trigger] row[i])
}

impl<S: StateKey> Reach<S> {
    /// The packet is listed for the state and the position.
    pub open spec fn lists(&self, st: SPPstore, q: S::M, i: int, p: Pkt) -> bool {
        exists|k: int|
            0 <= k < self.states@.len() && (#[trigger] self.states@[k]).model() == q && st.sp.mem(
                self.sets@[k]@[i],
                p,
            )
    }

    /// The table has different states, and `n` sets for each.
    pub open spec fn wf(&self, st: SPPstore, n: nat) -> bool {
        &&& distinct(self.states@)
        &&& sets_ok(st, self.sets@, self.states@.len(), n)
    }

    /// The packets for a state and a position, if there are any.
    pub fn get(&self, store: &SPPstore, q: &S, i: usize, n: usize) -> (r: Option<SP>)
        requires
            store.wf(),
            self.wf(*store, n as nat),
            i < n,
        ensures
            match r {
                Some(x) => x != store.sp.zero && store.sp.has(x) && forall|p: Pkt|
                    #![trigger store.sp.mem(x, p)]
                    p.len() == store.n() ==> (store.sp.mem(x, p) <==> self.lists(
                        *store,
                        q.model(),
                        i as int,
                        p,
                    )),
                None => forall|p: Pkt|
                    p.len() == store.n() ==> !(#[trigger] self.lists(
                        *store,
                        q.model(),
                        i as int,
                        p,
                    )),
            },
    {
        match position(&self.states, q) {
            None => None,
            Some(k) => {
                proof {
                    assert(row_ok(*store, self.sets@[k as int]@, n as nat));
                    store.lemma_wf();
                    store.sp.lemma_consts();
                }
                let x = self.sets[k][i];
                proof {
                    assert forall|p: Pkt| #![trigger store.sp.mem(x, p)]
                        p.len() == store.n() implies (store.sp.mem(x, p) <==> self.lists(
                        *store,
                        q.model(),
                        i as int,
                        p,
                    )) by {
                        if store.sp.mem(x, p) {
                            assert(self.states@[k as int].model() == q.model());
                        }
                        if self.lists(*store, q.model(), i as int, p) {
                            let h = choose|h: int|
                                0 <= h < self.states@.len() && (#[trigger] self.states@[h]).model()
                                    == q.model() && store.sp.mem(self.sets@[h]@[i as int], p);
                            if h < k {
                                assert(self.states@[h].model() != self.states@[k as int].model());
                            } else if k < h {
                                assert(self.states@[k as int].model() != self.states@[h].model());
                            }
                        }
                    }
                }
                if store.sp.is_zero(x) {
                    None
                } else {
                    Some(x)
                }
            },
        }
    }
}

/// The word of packet `p`, what follows position `i` of the trace, and the output.
pub open spec fn word_from(t: Seq<Pkt>, output: Pkt, i: int, p: Pkt) -> Word {
    (seq![p] + t.skip(i + 1)).push(output)
}

/// From state `q` with packet `p` at position `i` the rest of the trace and the
/// output can be reached; at a visible state the packet is that of the trace.
pub open spec fn completes<A: ENFA>(
    a: &A,
    st: SPPstore,
    t: Seq<Pkt>,
    output: Pkt,
    q: Place<A>,
    i: int,
    p: Pkt,
) -> bool {
    &&& a.vis(q) ==> p == t[i]
    &&& accepts_from(a, st, q, word_from(t, output, i, p))
}

/// A transition leads on to the position of the trace that a state calls for.
pub open spec fn next_at<A: ENFA>(a: &A, r: Place<A>, i: int) -> int {
    if a.vis(r) {
        i + 1
    } else {
        i
    }
}

pub(crate) proof fn lemma_word_from(n: nat, t: Seq<Pkt>, output: Pkt, i: int, p: Pkt)
    requires
        forall|j: int| 0 <= j < t.len() ==> (#[trigger] t[j]).len() == n,
        output.len() == n,
        p.len() == n,
        0 <= i < t.len(),
    ensures
        is_word(n, word_from(t, output, i, p)),
        word_from(t, output, i, p)[0] == p,
        word_from(t, output, i, p).len() == t.len() - i + 1,
        i + 1 < t.len() ==> word_from(t, output, i, p)[1] == t[i + 1],
        i + 1 < t.len() ==> word_from(t, output, i, p).skip(1) == word_from(
            t,
            output,
            i + 1,
            t[i + 1],
        ),
        forall|x: Pkt| #[trigger] word_from(t, output, i, p).update(0, x) == word_from(
            t,
            output,
            i,
            x,
        ),
        i + 1 == t.len() ==> word_from(t, output, i, p)[1] == output,
{
    let w = word_from(t, output, i, p);
    assert forall|j: int| 0 <= j < w.len() implies (#[trigger] w[j]).len() == n by {
        if 1 <= j < w.len() - 1 {
            assert(w[j] == t[i + j]);
        }
    }
    if i + 1 < t.len() {
        assert(w.skip(1) =~= word_from(t, output, i + 1, t[i + 1]));
    }
    assert forall|x: Pkt| #[trigger] w.update(0, x) == word_from(t, output, i, x) by {
        assert(w.update(0, x) =~= word_from(t, output, i, x));
    }
}

/// The rule of backward reachability: an output at the end of the trace, or a
/// transition to where `z` holds.
spec fn back_rule<A: ENFA>(
    a: &A,
    st: SPPstore,
    t: Seq<Pkt>,
    output: Pkt,
    z: spec_fn(Place<A>, int, Pkt) -> bool,
    q: Place<A>,
    i: int,
    p: Pkt,
) -> bool {
    &&& a.vis(q) ==> p == t[i]
    &&& (i == t.len() - 1 && a.out(st, q, p, output)) || exists|r: Place<A>, x: Pkt|
        x.len() == st.n() && #[trigger] a.step(st, q, p, r, x) && next_at(a, r, i) < t.len() && z(
            r,
            next_at(a, r, i),
            x,
        )
}

/// What the rule gives holds, if what it is given does.
proof fn lemma_back_sound<A: ENFA>(
    a: &A,
    st: SPPstore,
    t: Seq<Pkt>,
    output: Pkt,
    z: spec_fn(Place<A>, int, Pkt) -> bool,
    q: Place<A>,
    i: int,
    p: Pkt,
)
    requires
        forall|j: int| 0 <= j < t.len() ==> (#[trigger] t[j]).len() == st.n(),
        output.len() == st.n(),
        p.len() == st.n(),
        0 <= i < t.len(),
        forall|r: Place<A>, j: int, x: Pkt|
            x.len() == st.n() && 0 <= j < t.len() && #[trigger] z(r, j, x) ==> completes(
                a,
                st,
                t,
                output,
                r,
                j,
                x,
            ),
        back_rule(a, st, t, output, z, q, i, p),
    ensures
        completes(a, st, t, output, q, i, p),
{
    let n = st.n();
    let w = word_from(t, output, i, p);
    lemma_word_from(n, t, output, i, p);
    lemma_first(a, st, q, w);
    if !(i == t.len() - 1 && a.out(st, q, p, output)) {
        let (r, x) = choose|r: Place<A>, x: Pkt|
            x.len() == n && #[trigger] a.step(st, q, p, r, x) && next_at(a, r, i) < t.len() && z(
                r,
                next_at(a, r, i),
                x,
            );
        assert(completes(a, st, t, output, r, next_at(a, r, i), x));
        if a.vis(r) {
            assert(w.skip(1) == word_from(t, output, i + 1, t[i + 1]));
        } else {
            assert(w.update(0, x) == word_from(t, output, i, x));
        }
        assert(onward(a, st, q, w, r, x));
    }
}

/// What is closed under the rule holds everything that completes.
proof fn lemma_back_complete<A: ENFA>(
    a: &A,
    st: SPPstore,
    t: Seq<Pkt>,
    output: Pkt,
    z: spec_fn(Place<A>, int, Pkt) -> bool,
    ok: spec_fn(Place<A>) -> bool,
    q: Place<A>,
    i: int,
    p: Pkt,
    path: Seq<(Place<A>, Pkt)>,
)
    requires
        forall|j: int| 0 <= j < t.len() ==> (#[trigger] t[j]).len() == st.n(),
        output.len() == st.n(),
        p.len() == st.n(),
        0 <= i < t.len(),
        ok(q),
        forall|r: Place<A>, y: Pkt, s: Place<A>, x: Pkt|
            ok(r) && y.len() == st.n() && x.len() == st.n() && #[trigger] a.step(st, r, y, s, x)
                ==> ok(s),
        forall|r: Place<A>, j: int, x: Pkt|
            ok(r) && x.len() == st.n() && 0 <= j < t.len() && #[trigger] back_rule(
                a,
                st,
                t,
                output,
                z,
                r,
                j,
                x,
            ) ==> z(r, j, x),
        a.vis(q) ==> p == t[i],
        run_on(a, st, q, path, word_from(t, output, i, p)),
    ensures
        z(q, i, p),
    decreases path.len(),
{
    let n = st.n();
    let w = word_from(t, output, i, p);
    lemma_word_from(n, t, output, i, p);
    if path.len() == 1 {
        assert(path.skip(1) =~= Seq::<(Place<A>, Pkt)>::empty());
        assert(trace_of(a, path) =~= seq![path[0].1]);
        assert(w.drop_last().len() == 1);
        assert(i + 1 == t.len());
        assert(w.drop_last()[0] == w[0]);
        assert(path.last() == path[0]);
        assert(w.last() == output);
        assert(a.out(st, q, p, output));
        assert(back_rule(a, st, t, output, z, q, i, p));
    } else {
        lemma_run_rest(a, st, q, path, w);
        let (r, x) = path[1];
        let rest = path.skip(1);
        assert(a.step(st, q, p, r, x));
        assert(ok(r));
        if a.vis(r) {
            assert(w.skip(1) == word_from(t, output, i + 1, t[i + 1]));
            lemma_back_complete(a, st, t, output, z, ok, r, i + 1, x, rest);
        } else {
            assert(w.update(0, x) == word_from(t, output, i, x));
            lemma_back_complete(a, st, t, output, z, ok, r, i, x, rest);
        }
        assert(z(r, next_at(a, r, i), x));
        assert(back_rule(a, st, t, output, z, q, i, p));
    }
}

/// What the table of sets holds.
spec fn table_of<S: StateKey>(st: SPPstore, states: Seq<S>, sets: Seq<Vec<SP>>) -> spec_fn(
    S::M,
    int,
    Pkt,
) -> bool {
    |q: S::M, i: int, p: Pkt|
        exists|k: int|
            0 <= k < states.len() && (#[trigger] states[k]).model() == q && st.sp.mem(
                sets[k]@[i],
                p,
            )
}

proof fn lemma_table_at<S: StateKey>(
    st: SPPstore,
    states: Seq<S>,
    sets: Seq<Vec<SP>>,
    k: int,
    i: int,
    p: Pkt,
)
    requires
        distinct(states),
        0 <= k < states.len(),
    ensures
        table_of(st, states, sets)(states[k].model(), i, p) == st.sp.mem(sets[k]@[i], p),
{
    let z = table_of(st, states, sets);
    if z(states[k].model(), i, p) {
        let h = choose|h: int|
            0 <= h < states.len() && (#[trigger] states[h]).model() == states[k].model()
                && st.sp.mem(sets[h]@[i], p);
        if h < k {
            assert(states[h].model() != states[k].model());
        } else if k < h {
            assert(states[k].model() != states[h].model());
        }
    }
    if st.sp.mem(sets[k]@[i], p) {
        assert(states[k].model() == states[k].model());
    }
}

/// The sets for the packets of a trace.
fn singletons(store: &mut SPPstore, trace: &[Vec<bool>]) -> (r: Vec<SP>)
    requires
        old(store).wf(),
        forall|i: int| 0 <= i < trace@.len() ==> (#[trigger] trace@[i])@.len() == old(store).n(),
    ensures
        final(store).wf(),
        final(store).extends(old(store)),
        row_ok(*final(store), r@, trace@.len()),
        forall|i: int, p: Pkt|
            #![trigger final(store).sp.mem(r@[i], p)]
            0 <= i < trace@.len() && p.len() == old(store).n() ==> (final(store).sp.mem(r@[i], p)
                <==> p == trace@[i]@),
{
    let ghost o = *store;
    let mut r: Vec<SP> = Vec::new();
    let mut i: usize = 0;
    while i < trace.len()
        invariant
            store.wf(),
            o.wf(),
            store.extends(&o),
            forall|j: int| 0 <= j < trace@.len() ==> (#[trigger] trace@[j])@.len() == o.n(),
            i <= trace@.len(),
            row_ok(*store, r@, i as nat),
            forall|j: int, p: Pkt|
                #![trigger store.sp.mem(r@[j], p)]
                0 <= j < i && p.len() == o.n() ==> (store.sp.mem(r@[j], p) <==> p == trace@[j]@),
        decreases trace.len() - i,
    {
        let ghost s0 = *store;
        let ghost r0 = r@;
        proof {
            s0.lemma_wf();
        }
        let x = singleton_sp(store, trace[i].as_slice());
        r.push(x);
        proof {
            assert forall|j: int| 0 <= j < i + 1 implies store.sp.has(#[trigger] r@[j]) by {
                if j < i {
                    assert(r@[j] == r0[j]);
                    assert(s0.sp.has(r0[j]));
                }
            }
            assert forall|j: int, p: Pkt|
                #![trigger store.sp.mem(r@[j], p)]
                0 <= j < i + 1 && p.len() == o.n() implies (store.sp.mem(r@[j], p) <==> p
                == trace@[j]@) by {
                if j < i {
                    assert(r@[j] == r0[j]);
                    assert(s0.sp.has(r0[j]));
                    assert(s0.sp.mem(r0[j], p) == store.sp.mem(r0[j], p));
                }
            }
        }
        i = i + 1;
    }
    r
}

/// Sets the entry for a state and a position.
fn put(sets: &mut Vec<Vec<SP>>, k: usize, i: usize, x: SP)
    requires
        k < old(sets)@.len(),
        i < old(sets)@[k as int]@.len(),
    ensures
        final(sets)@.len() == old(sets)@.len(),
        forall|j: int|
            0 <= j < old(sets)@.len() && j != k ==> #[trigger] final(sets)@[j] == old(sets)@[j],
        final(sets)@[k as int]@ == old(sets)@[k as int]@.update(i as int, x),
{
    let mut row: Vec<SP> = Vec::new();
    let mut j: usize = 0;
    while j < sets[k].len()
        invariant
            k < sets@.len(),
            j <= sets@[k as int]@.len(),
            row@ == sets@[k as int]@.take(j as int),
        decreases sets@[k as int]@.len() - j,
    {
        row.push(sets[k][j]);
        proof {
            assert(row@ =~= sets@[k as int]@.take(j + 1));
        }
        j = j + 1;
    }
    proof {
        assert(row@ =~= sets@[k as int]@);
    }
    row.set(i, x);
    sets.set(k, row);
}

/// Empty sets for `k` states and `n` positions.
fn empty_sets(zero: SP, k: usize, n: usize) -> (r: Vec<Vec<SP>>)
    ensures
        r@.len() == k,
        forall|i: int| 0 <= i < k ==> (#[trigger] r@[i])@.len() == n,
        forall|i: int, j: int|
            #![trigger r@[i]@[j]]
            0 <= i < k && 0 <= j < n ==> r@[i]@[j] == zero,
{
    let mut r: Vec<Vec<SP>> = Vec::new();
    let mut i: usize = 0;
    while i < k
        invariant
            i <= k,
            r@.len() == i,
            forall|h: int| 0 <= h < i ==> (#[trigger] r@[h])@.len() == n,
            forall|h: int, j: int|
                #![trigger r@[h]@[j]]
                0 <= h < i && 0 <= j < n ==> r@[h]@[j] == zero,
        decreases k - i,
    {
        let mut row: Vec<SP> = Vec::new();
        let mut j: usize = 0;
        while j < n
            invariant
                j <= n,
                row@.len() == j,
                forall|h: int| 0 <= h < j ==> #[trigger] row@[h] == zero,
            decreases n - j,
        {
            row.push(zero);
            j = j + 1;
        }
        let ghost r0 = r@;
        r.push(row);
        proof {
            assert forall|h: int, j: int|
                #![trigger r@[h]@[j]]
                0 <= h < i + 1 && 0 <= j < n implies r@[h]@[j] == zero by {
                if h < i {
                    assert(r@[h] == r0[h]);
                }
            }
        }
        i = i + 1;
    }
    r
}

proof fn lemma_sets_ext(st: SPPstore, s0: SPPstore, sets: Seq<Vec<SP>>, k: nat, n: nat)
    requires
        s0.wf(),
        st.extends(&s0),
        sets_ok(s0, sets, k, n),
    ensures
        sets_ok(st, sets, k, n),
        forall|h: int, i: int, p: Pkt|
            #![trigger st.sp.mem(sets[h]@[i], p)]
            #![trigger s0.sp.mem(sets[h]@[i], p)]
            0 <= h < k && 0 <= i < n && p.len() == s0.n() ==> st.sp.mem(sets[h]@[i], p)
                == s0.sp.mem(sets[h]@[i], p),
{
    s0.lemma_wf();
    assert forall|h: int| 0 <= h < k implies row_ok(st, (#[trigger] sets[h])@, n) by {
        assert(row_ok(s0, sets[h]@, n));
        assert forall|i: int| 0 <= i < n implies st.sp.has(#[trigger] sets[h]@[i]) by {
            assert(s0.sp.has(sets[h]@[i]));
        }
    }
    assert forall|h: int, i: int, p: Pkt|
        #![trigger st.sp.mem(sets[h]@[i], p)]
        #![trigger s0.sp.mem(sets[h]@[i], p)]
        0 <= h < k && 0 <= i < n && p.len() == s0.n() implies st.sp.mem(sets[h]@[i], p)
        == s0.sp.mem(sets[h]@[i], p) by {
        assert(row_ok(s0, sets[h]@, n));
        assert(s0.sp.has(sets[h]@[i]));
    }
}

/// The table says the same when the store grows.
proof fn lemma_table_ext<S: StateKey>(
    st: SPPstore,
    s0: SPPstore,
    states: Seq<S>,
    sets: Seq<Vec<SP>>,
    n: nat,
    q: S::M,
    i: int,
    p: Pkt,
)
    requires
        s0.wf(),
        st.extends(&s0),
        sets_ok(s0, sets, states.len(), n),
        0 <= i < n,
        p.len() == s0.n(),
    ensures
        table_of(st, states, sets)(q, i, p) == table_of(s0, states, sets)(q, i, p),
{
    lemma_sets_ext(st, s0, sets, states.len(), n);
    if table_of(st, states, sets)(q, i, p) {
        let k = choose|k: int|
            0 <= k < states.len() && (#[trigger] states[k]).model() == q && st.sp.mem(
                sets[k]@[i],
                p,
            );
        assert(s0.sp.mem(sets[k]@[i], p));
    }
    if table_of(s0, states, sets)(q, i, p) {
        let k = choose|k: int|
            0 <= k < states.len() && (#[trigger] states[k]).model() == q && s0.sp.mem(
                sets[k]@[i],
                p,
            );
        assert(st.sp.mem(sets[k]@[i], p));
    }
}

/// The packets before a transition of the row to what the sets hold.
spec fn row_pulls<S>(
    st: SPPstore,
    g: StateGraph<S>,
    row: Seq<(SPP, usize)>,
    c: int,
    sets: Seq<Vec<SP>>,
    n: int,
    i: int,
    p: Pkt,
) -> bool {
    exists|h: int, x: Pkt|
        0 <= h < c && x.len() == st.n() && #[trigger] st.rel(row[h].0, p, x) && spot(
            g,
            row[h].1,
            i,
        ) < n && st.sp.mem(sets[row[h].1 as int]@[spot(g, row[h].1, i)], x)
}

/// The position that a state of the table calls for.
spec fn spot<S>(g: StateGraph<S>, j: usize, i: int) -> int {
    if g.visible@[j as int] {
        i + 1
    } else {
        i
    }
}

/// What the rule of backward reachability gives for a state and a position.
fn back_entry<A: ENFA>(
    a: &A,
    store: &mut SPPstore,
    g: &StateGraph<A::State>,
    sets: &Vec<Vec<SP>>,
    at: &Vec<SP>,
    out_sp: SP,
    k: usize,
    i: usize,
    Ghost(t): Ghost<Seq<Pkt>>,
    Ghost(output): Ghost<Pkt>,
) -> (r: SP)
    requires
        old(store).wf(),
        a.valid(*old(store)),
        tabulates(a, *old(store), *g),
        sets_ok(*old(store), sets@, g.states@.len(), t.len()),
        row_ok(*old(store), at@, t.len()),
        old(store).sp.has(out_sp),
        forall|j: int| 0 <= j < t.len() ==> (#[trigger] t[j]).len() == old(store).n(),
        output.len() == old(store).n(),
        forall|j: int, p: Pkt|
            #![trigger old(store).sp.mem(at@[j], p)]
            0 <= j < t.len() && p.len() == old(store).n() ==> (old(store).sp.mem(at@[j], p) <==> p
                == t[j]),
        forall|p: Pkt|
            #![trigger old(store).sp.mem(out_sp, p)]
            p.len() == old(store).n() ==> (old(store).sp.mem(out_sp, p) <==> p == output),
        k < g.states@.len(),
        i < t.len(),
    ensures
        final(store).wf(),
        final(store).extends(old(store)),
        final(store).sp.has(r),
        forall|p: Pkt|
            #![trigger final(store).sp.mem(r, p)]
            p.len() == old(store).n() ==> (final(store).sp.mem(r, p) <==> back_rule(
                a,
                *old(store),
                t,
                output,
                table_of(*old(store), g.states@, sets@),
                g.states@[k as int].model(),
                i as int,
                p,
            )),
{
    let ghost o = *store;
    let ghost nf = o.n();
    let n: usize = at.len();
    let ghost q = g.states@[k as int].model();
    let ghost row = g.edges@[k as int]@;
    proof {
        o.lemma_wf();
        o.sp.lemma_consts();
        assert(row_of(a, o, g.states@, q, row));
        assert(output_of(a, o, q, g.outputs@[k as int]));
        assert(g.visible@[k as int] == a.vis(q));
    }
    let mut new_sp = store.sp.zero;
    if i + 1 == n {
        new_sp = store.pull(g.outputs[k], out_sp);
        proof {
            assert forall|p: Pkt| #![trigger store.sp.mem(new_sp, p)] p.len() == nf implies (
            store.sp.mem(new_sp, p) <==> a.out(o, q, p, output)) by {
                if a.out(o, q, p, output) {
                    assert(o.sp.mem(out_sp, output) && o.rel(g.outputs@[k as int], p, output));
                }
            }
        }
    }
    let ghost s1 = *store;
    let mut c: usize = 0;
    while c < g.edges[k].len()
        invariant
            store.wf(),
            o.wf(),
            store.extends(&o),
            a.valid(o),
            tabulates(a, o, *g),
            nf == o.n(),
            n == t.len(),
            i < n,
            k < g.states@.len(),
            row == g.edges@[k as int]@,
            q == g.states@[k as int].model(),
            row_of(a, o, g.states@, q, row),
            sets_ok(o, sets@, g.states@.len(), t.len()),
            c <= row.len(),
            store.sp.has(new_sp),
            forall|p: Pkt|
                #![trigger store.sp.mem(new_sp, p)]
                p.len() == nf ==> (store.sp.mem(new_sp, p) <==> (i + 1 == n && a.out(
                    o,
                    q,
                    p,
                    output,
                )) || row_pulls(o, *g, row, c as int, sets@, n as int, i as int, p)),
        decreases row.len() - c,
    {
        let (s, j) = g.edges[k][c];
        let ghost s2 = *store;
        let ghost n0 = new_sp;
        proof {
            assert(row[c as int] == (s, j));
            s2.lemma_wf();
            o.lemma_wf();
            assert(row_ok(o, sets@[j as int]@, t.len()));
        }
        let vis_j = g.visible[j];
        let skip = vis_j && i + 1 >= n;
        if !skip {
            let it: usize = if vis_j {
                i + 1
            } else {
                i
            };
            let ghost tgt = sets@[j as int]@[it as int];
            proof {
                assert(o.sp.has(sets@[j as int]@[it as int]));
            }
            let pre = store.pull(s, sets[j][it]);
            let ghost s3 = *store;
            proof {
                s3.lemma_wf();
            }
            new_sp = sp_union(store, new_sp, pre);
            proof {
                assert forall|p: Pkt| #![trigger store.sp.mem(new_sp, p)]
                    p.len() == nf implies (store.sp.mem(new_sp, p) <==> (i + 1 == n && a.out(
                    o,
                    q,
                    p,
                    output,
                )) || row_pulls(o, *g, row, c + 1, sets@, n as int, i as int, p)) by {
                    assert(s3.sp.mem(n0, p) == s2.sp.mem(n0, p));
                    if s3.sp.mem(pre, p) {
                        let x = choose|x: Pkt|
                            #![trigger s2.sp.mem(tgt, x)]
                            x.len() == nf && s2.sp.mem(tgt, x) && s2.rel(s, p, x);
                        assert(o.sp.mem(tgt, x) && o.rel(row[c as int].0, p, x));
                        assert(row_pulls(o, *g, row, c + 1, sets@, n as int, i as int, p));
                    }
                    if row_pulls(o, *g, row, c as int, sets@, n as int, i as int, p) {
                        let (h, x) = choose|h: int, x: Pkt|
                            0 <= h < c && x.len() == o.n() && #[trigger] o.rel(row[h].0, p, x)
                                && spot(*g, row[h].1, i as int) < n && o.sp.mem(
                                sets@[row[h].1 as int]@[spot(*g, row[h].1, i as int)],
                                x,
                            );
                        assert(o.rel(row[h].0, p, x));
                    }
                    if row_pulls(o, *g, row, c + 1, sets@, n as int, i as int, p) {
                        let (h, x) = choose|h: int, x: Pkt|
                            0 <= h < c + 1 && x.len() == o.n() && #[trigger] o.rel(
                                row[h].0,
                                p,
                                x,
                            ) && spot(*g, row[h].1, i as int) < n && o.sp.mem(
                                sets@[row[h].1 as int]@[spot(*g, row[h].1, i as int)],
                                x,
                            );
                        if h == c {
                            assert(s2.sp.mem(tgt, x) && s2.rel(s, p, x));
                            assert(s3.sp.mem(pre, p));
                        } else {
                            assert(o.rel(row[h].0, p, x));
                            assert(row_pulls(o, *g, row, c as int, sets@, n as int, i as int, p));
                        }
                    }
                }
            }
        } else {
            proof {
                assert forall|p: Pkt| #![trigger store.sp.mem(new_sp, p)]
                    p.len() == nf implies (store.sp.mem(new_sp, p) <==> (i + 1 == n && a.out(
                    o,
                    q,
                    p,
                    output,
                )) || row_pulls(o, *g, row, c + 1, sets@, n as int, i as int, p)) by {
                    if row_pulls(o, *g, row, c as int, sets@, n as int, i as int, p) {
                        let (h, x) = choose|h: int, x: Pkt|
                            0 <= h < c && x.len() == o.n() && #[trigger] o.rel(row[h].0, p, x)
                                && spot(*g, row[h].1, i as int) < n && o.sp.mem(
                                sets@[row[h].1 as int]@[spot(*g, row[h].1, i as int)],
                                x,
                            );
                        assert(o.rel(row[h].0, p, x));
                    }
                    if row_pulls(o, *g, row, c + 1, sets@, n as int, i as int, p) {
                        let (h, x) = choose|h: int, x: Pkt|
                            0 <= h < c + 1 && x.len() == o.n() && #[trigger] o.rel(
                                row[h].0,
                                p,
                                x,
                            ) && spot(*g, row[h].1, i as int) < n && o.sp.mem(
                                sets@[row[h].1 as int]@[spot(*g, row[h].1, i as int)],
                                x,
                            );
                        assert(h != c);
                        assert(o.rel(row[h].0, p, x));
                    }
                }
            }
        }
        c = c + 1;
    }
    let ghost s4 = *store;
    let ghost n1 = new_sp;
    proof {
        s4.lemma_wf();
        assert(o.sp.has(at@[i as int]));
    }
    if g.visible[k] {
        new_sp = sp_intersect(store, new_sp, at[i]);
    }
    proof {
        let z = table_of(o, g.states@, sets@);
        assert forall|p: Pkt| #![trigger store.sp.mem(new_sp, p)] p.len() == nf implies (
        store.sp.mem(new_sp, p) <==> back_rule(a, o, t, output, z, q, i as int, p)) by {
            assert(s4.sp.mem(at@[i as int], p) == o.sp.mem(at@[i as int], p));
            if row_pulls(o, *g, row, row.len() as int, sets@, n as int, i as int, p) {
                let (h, x) = choose|h: int, x: Pkt|
                    0 <= h < row.len() && x.len() == o.n() && #[trigger] o.rel(row[h].0, p, x)
                        && spot(*g, row[h].1, i as int) < n && o.sp.mem(
                        sets@[row[h].1 as int]@[spot(*g, row[h].1, i as int)],
                        x,
                    );
                let j = row[h].1;
                assert(j < g.states@.len());
                let r = g.states@[j as int].model();
                assert(row[h].1.model() == j);
                assert(listed(o, row, p, j, x));
                assert(a.step(o, q, p, r, x));
                assert(g.visible@[j as int] == a.vis(r));
                lemma_table_at(o, g.states@, sets@, j as int, next_at(a, r, i as int), x);
                assert(z(r, next_at(a, r, i as int), x));
            }
            if exists|r: Place<A>, x: Pkt|
                x.len() == o.n() && #[trigger] a.step(o, q, p, r, x) && next_at(a, r, i as int)
                    < t.len() && z(r, next_at(a, r, i as int), x) {
                let (r, x) = choose|r: Place<A>, x: Pkt|
                    x.len() == o.n() && #[trigger] a.step(o, q, p, r, x) && next_at(
                        a,
                        r,
                        i as int,
                    ) < t.len() && z(r, next_at(a, r, i as int), x);
                assert(among(g.states@, r));
                let j = choose|j: int| 0 <= j < g.states@.len() && (#[trigger] g.states@[j]).model()
                    == r;
                assert(j < g.states.len());
                let ju = j as usize;
                lemma_table_at(o, g.states@, sets@, j, next_at(a, r, i as int), x);
                assert(a.step(o, q, p, g.states@[ju as int].model(), x));
                assert(listed(o, row, p, ju, x));
                let h = choose|h: int|
                    0 <= h < row.len() && o.rel((#[trigger] row[h]).0, p, x) && row[h].1.model()
                        == ju;
                assert(row[h].1 == ju);
                assert(g.visible@[j] == a.vis(r));
                assert(o.rel(row[h].0, p, x));
                assert(row_pulls(o, *g, row, row.len() as int, sets@, n as int, i as int, p));
            }
        }
    }
    new_sp
}

/// The rule is the same when the store grows.
proof fn lemma_back_rule_ext<A: ENFA>(
    a: &A,
    st: SPPstore,
    o: SPPstore,
    t: Seq<Pkt>,
    output: Pkt,
    states: Seq<A::State>,
    sets: Seq<Vec<SP>>,
    q: Place<A>,
    i: int,
    p: Pkt,
)
    requires
        o.wf(),
        st.wf(),
        st.extends(&o),
        a.valid(o),
        a.is_state(q),
        sets_ok(st, sets, states.len(), t.len()),
        output.len() == o.n(),
        p.len() == o.n(),
        0 <= i < t.len(),
    ensures
        back_rule(a, st, t, output, table_of(st, states, sets), q, i, p) == back_rule(
            a,
            o,
            t,
            output,
            table_of(st, states, sets),
            q,
            i,
            p,
        ),
{
    a.lemma_valid(st, o);
    let z = table_of(st, states, sets);
    if back_rule(a, st, t, output, z, q, i, p) && !(i == t.len() - 1 && a.out(st, q, p, output)) {
        let (r, x) = choose|r: Place<A>, x: Pkt|
            x.len() == st.n() && #[trigger] a.step(st, q, p, r, x) && next_at(a, r, i) < t.len()
                && z(r, next_at(a, r, i), x);
        assert(a.step(o, q, p, r, x));
    }
    if back_rule(a, o, t, output, z, q, i, p) && !(i == t.len() - 1 && a.out(o, q, p, output)) {
        let (r, x) = choose|r: Place<A>, x: Pkt|
            x.len() == o.n() && #[trigger] a.step(o, q, p, r, x) && next_at(a, r, i) < t.len()
                && z(r, next_at(a, r, i), x);
        assert(a.step(st, q, p, r, x));
    }
}

/// What the sets hold completes.
spec fn back_sound<A: ENFA>(
    a: &A,
    o: SPPstore,
    st: SPPstore,
    t: Seq<Pkt>,
    output: Pkt,
    states: Seq<A::State>,
    sets: Seq<Vec<SP>>,
) -> bool {
    forall|r: Place<A>, j: int, x: Pkt|
        x.len() == o.n() && 0 <= j < t.len() && #[trigger] table_of(st, states, sets)(r, j, x)
            ==> completes(a, o, t, output, r, j, x)
}

/// The set for state `k` and position `i` holds what the rule gives.
spec fn back_closed_at<A: ENFA>(
    a: &A,
    o: SPPstore,
    st: SPPstore,
    t: Seq<Pkt>,
    output: Pkt,
    states: Seq<A::State>,
    sets: Seq<Vec<SP>>,
    k: int,
    i: int,
) -> bool {
    forall|p: Pkt|
        p.len() == o.n() && #[trigger] back_rule(
            a,
            o,
            t,
            output,
            table_of(st, states, sets),
            states[k].model(),
            i,
            p,
        ) ==> st.sp.mem(sets[k]@[i], p)
}

/// The rule is closed for the entries before state `k` and position `i`.
spec fn back_closed<A: ENFA>(
    a: &A,
    o: SPPstore,
    st: SPPstore,
    t: Seq<Pkt>,
    output: Pkt,
    states: Seq<A::State>,
    sets: Seq<Vec<SP>>,
    k: int,
    i: int,
) -> bool {
    forall|h: int, j: int|
        0 <= h < states.len() && 0 <= j < t.len() && (h < k || (h == k && j < i))
            ==> #[trigger] back_closed_at(a, o, st, t, output, states, sets, h, j)
}

/// What is sound, and closed, stays so when the store grows.
proof fn lemma_back_kept<A: ENFA>(
    a: &A,
    o: SPPstore,
    st: SPPstore,
    s0: SPPstore,
    t: Seq<Pkt>,
    output: Pkt,
    states: Seq<A::State>,
    sets: Seq<Vec<SP>>,
)
    requires
        s0.wf(),
        st.extends(&s0),
        s0.n() == o.n(),
        sets_ok(s0, sets, states.len(), t.len()),
    ensures
        back_sound(a, o, s0, t, output, states, sets) ==> back_sound(
            a,
            o,
            st,
            t,
            output,
            states,
            sets,
        ),
        forall|k: int, i: int|
            0 <= k < states.len() && 0 <= i < t.len() && back_closed_at(
                a,
                o,
                s0,
                t,
                output,
                states,
                sets,
                k,
                i,
            ) ==> #[trigger] back_closed_at(a, o, st, t, output, states, sets, k, i),
{
    let (z, z0) = (table_of(st, states, sets), table_of(s0, states, sets));
    lemma_sets_ext(st, s0, sets, states.len(), t.len());
    assert forall|r: Place<A>, j: int, x: Pkt|
        x.len() == o.n() && 0 <= j < t.len() implies #[trigger] z(r, j, x) == z0(r, j, x) by {
        lemma_table_ext(st, s0, states, sets, t.len(), r, j, x);
    }
    if back_sound(a, o, s0, t, output, states, sets) {
        assert forall|r: Place<A>, j: int, x: Pkt|
            x.len() == o.n() && 0 <= j < t.len() && #[trigger] z(r, j, x) implies completes(
            a,
            o,
            t,
            output,
            r,
            j,
            x,
        ) by {
            assert(z0(r, j, x));
        }
    }
    assert forall|k: int, i: int|
        0 <= k < states.len() && 0 <= i < t.len() && back_closed_at(
            a,
            o,
            s0,
            t,
            output,
            states,
            sets,
            k,
            i,
        ) implies #[trigger] back_closed_at(a, o, st, t, output, states, sets, k, i) by {
        assert forall|p: Pkt|
            p.len() == o.n() && #[trigger] back_rule(
                a,
                o,
                t,
                output,
                z,
                states[k].model(),
                i,
                p,
            ) implies st.sp.mem(sets[k]@[i], p) by {
            let q = states[k].model();
            if !(i == t.len() - 1 && a.out(o, q, p, output)) {
                let (r, x) = choose|r: Place<A>, x: Pkt|
                    x.len() == o.n() && #[trigger] a.step(o, q, p, r, x) && next_at(a, r, i)
                        < t.len() && z(r, next_at(a, r, i), x);
                assert(z0(r, next_at(a, r, i), x));
                assert(a.step(o, q, p, r, x));
            }
            assert(back_rule(a, o, t, output, z0, states[k].model(), i, p));
        }
    }
}

/// The states of a table are closed under steps.
pub open spec fn closed_states<A: ENFA>(a: &A, st: SPPstore, states: Seq<A::State>) -> bool {
    &&& among(states, a.init())
    &&& forall|q: Place<A>, p: Pkt, r: Place<A>, x: Pkt|
        among(states, q) && p.len() == st.n() && x.len() == st.n() && #[trigger] a.step(
            st,
            q,
            p,
            r,
            x,
        ) ==> among(states, r)
}

/// The states of a table are those that can be reached.
pub proof fn lemma_states_exact<A: ENFA>(
    a: &A,
    o: SPPstore,
    roots: Seq<A::State>,
    states: Seq<A::State>,
)
    requires
        closed_states(a, o, states),
        subsumes(states, roots),
        forall|i: int|
            0 <= i < states.len() ==> can_reach(a, o, roots, (#[trigger] states[i]).model()),
    ensures
        forall|q: Place<A>| #[trigger] among(states, q) <==> can_reach(a, o, roots, q),
{
    assert forall|q: Place<A>| #[trigger] among(states, q) <==> can_reach(a, o, roots, q) by {
        if among(states, q) {
            let i = choose|i: int| 0 <= i < states.len() && (#[trigger] states[i]).model() == q;
            assert(can_reach(a, o, roots, states[i].model()));
        }
        if can_reach(a, o, roots, q) {
            let path = choose|path: Seq<Place<A>>| #[trigger]
                hops(a, o, path) && (path[0] == a.init() || among(roots, path[0]))
                    && path.last() == q;
            assert forall|s: Place<A>, r: Place<A>|
                among(states, s) && #[trigger] hop(a, o, s, r) implies among(states, r) by {
                let (p, x) = choose|p: Pkt, x: Pkt|
                    p.len() == o.n() && x.len() == o.n() && #[trigger] a.step(o, s, p, r, x);
                assert(a.step(o, s, p, r, x));
            }
            lemma_reach_among(a, o, roots, states, path, path.len() - 1);
        }
    }
}

pub(crate) proof fn lemma_graph_closed<A: ENFA>(
    a: &A,
    st: SPPstore,
    o: SPPstore,
    g: StateGraph<A::State>,
)
    requires
        o.wf(),
        st.extends(&o),
        a.valid(o),
        tabulates(a, st, g),
    ensures
        closed_states(a, o, g.states@),
        forall|i: int| 0 <= i < g.states@.len() ==> a.is_state((#[trigger] g.states@[i]).model()),
{
    a.lemma_valid(st, o);
    assert(g.states@[0].model() == a.init());
    assert forall|q: Place<A>, p: Pkt, r: Place<A>, x: Pkt|
        among(g.states@, q) && p.len() == o.n() && x.len() == o.n() && #[trigger] a.step(
            o,
            q,
            p,
            r,
            x,
        ) implies among(g.states@, r) by {
        let i = choose|i: int| 0 <= i < g.states@.len() && (#[trigger] g.states@[i]).model() == q;
        assert(a.is_state(g.states@[i].model()));
        assert(row_of(a, st, g.states@, g.states@[i].model(), g.edges@[i]@));
        assert(a.step(st, q, p, r, x));
    }
}

/// Updating one entry by what the rule gives keeps the sets sound.
proof fn lemma_back_update<A: ENFA>(
    a: &A,
    o: SPPstore,
    st: SPPstore,
    s0: SPPstore,
    t: Seq<Pkt>,
    output: Pkt,
    states: Seq<A::State>,
    sets: Seq<Vec<SP>>,
    more: Seq<Vec<SP>>,
    k: int,
    i: int,
    x: SP,
)
    requires
        s0.wf(),
        st.extends(&s0),
        s0.n() == o.n(),
        distinct(states),
        sets_ok(s0, sets, states.len(), t.len()),
        forall|j: int| 0 <= j < t.len() ==> (#[trigger] t[j]).len() == o.n(),
        output.len() == o.n(),
        0 <= k < states.len(),
        0 <= i < t.len(),
        st.sp.has(x),
        more.len() == sets.len(),
        forall|j: int| 0 <= j < sets.len() && j != k ==> #[trigger] more[j] == sets[j],
        more[k]@ == sets[k]@.update(i, x),
        back_sound(a, o, s0, t, output, states, sets),
        forall|p: Pkt|
            #![trigger st.sp.mem(x, p)]
            p.len() == o.n() && st.sp.mem(x, p) ==> s0.sp.mem(sets[k]@[i], p) || back_rule(
                a,
                o,
                t,
                output,
                table_of(s0, states, sets),
                states[k].model(),
                i,
                p,
            ),
    ensures
        sets_ok(st, more, states.len(), t.len()),
        back_sound(a, o, st, t, output, states, more),
{
    lemma_sets_ext(st, s0, sets, states.len(), t.len());
    assert forall|h: int| 0 <= h < states.len() implies row_ok(
        st,
        (#[trigger] more[h])@,
        t.len(),
    ) by {
        assert(row_ok(st, sets[h]@, t.len()));
        if h == k {
            assert forall|j: int| 0 <= j < t.len() implies st.sp.has(#[trigger] more[k]@[j]) by {
                if j != i {
                    assert(more[k]@[j] == sets[k]@[j]);
                    assert(st.sp.has(sets[k]@[j]));
                }
            }
        }
    }
    let (z, z0) = (table_of(st, states, more), table_of(s0, states, sets));
    assert forall|r: Place<A>, j: int, y: Pkt|
        y.len() == o.n() && 0 <= j < t.len() && #[trigger] z(r, j, y) implies completes(
        a,
        o,
        t,
        output,
        r,
        j,
        y,
    ) by {
        let h = choose|h: int|
            0 <= h < states.len() && (#[trigger] states[h]).model() == r && st.sp.mem(
                more[h]@[j],
                y,
            );
        lemma_table_at(s0, states, sets, h, j, y);
        if h == k && j == i {
            assert(more[h]@[j] == x);
            if s0.sp.mem(sets[k]@[i], y) {
                assert(z0(r, j, y));
            } else {
                lemma_back_sound(a, o, t, output, z0, r, j, y);
            }
        } else {
            assert(more[h]@[j] == sets[h]@[j]);
            assert(s0.sp.mem(sets[h]@[j], y));
            assert(z0(r, j, y));
        }
    }
}

/// For every state that runs can reach from the start, or from the further roots,
/// and every position of the trace, the packets from which the rest of the trace
/// and the output can be reached.
pub fn backward_reachable<A: ENFA>(
    a: &A,
    store: &mut SPPstore,
    trace: &[Vec<bool>],
    output: &[bool],
    extra_roots: &Vec<A::State>,
) -> (r: Reach<A::State>)
    requires
        old(store).wf(),
        a.valid(*old(store)),
        trace@.len() >= 1,
        forall|i: int| 0 <= i < trace@.len() ==> (#[trigger] trace@[i])@.len() == old(store).n(),
        output@.len() == old(store).n(),
        forall|i: int|
            0 <= i < extra_roots@.len() ==> a.is_state((#[trigger] extra_roots@[i]).model()),
    ensures
        final(store).wf(),
        final(store).extends(old(store)),
        r.wf(*final(store), trace@.len()),
        subsumes(r.states@, extra_roots@),
        closed_states(a, *old(store), r.states@),
        forall|q: Place<A>| #[trigger]
            among(r.states@, q) <==> can_reach(a, *old(store), extra_roots@, q),
        forall|q: Place<A>, i: int, p: Pkt|
            among(r.states@, q) && 0 <= i < trace@.len() && p.len() == old(store).n() ==> (
            #[trigger] r.lists(*final(store), q, i, p) <==> completes(
                a,
                *old(store),
                packets(trace@),
                output@,
                q,
                i,
                p,
            )),
{
    let ghost o = *store;
    let ghost nf = o.n();
    let ghost t = packets(trace@);
    let ghost out = output@;
    let n: usize = trace.len();
    let g = tabulate(a, store, extra_roots);
    let ghost st0 = *store;
    let ghost ss = g.states@;
    proof {
        lemma_graph_closed(a, st0, o, g);
        lemma_states_exact(a, o, extra_roots@, g.states@);
        a.lemma_valid(st0, o);
        assert forall|j: int| 0 <= j < t.len() implies (#[trigger] t[j]).len() == nf by {
            assert(t[j] == trace@[j]@);
        }
    }
    let at = singletons(store, trace);
    let ghost st1 = *store;
    let out_sp = singleton_sp(store, output);
    let ghost st2 = *store;
    proof {
        st1.lemma_wf();
        st2.lemma_wf();
        st2.sp.lemma_consts();
        assert(row_ok(st2, at@, t.len())) by {
            assert forall|j: int| 0 <= j < t.len() implies st2.sp.has(#[trigger] at@[j]) by {
                assert(st1.sp.has(at@[j]));
            }
        }
        assert forall|j: int, p: Pkt| #![trigger st2.sp.mem(at@[j], p)]
            0 <= j < t.len() && p.len() == nf implies (st2.sp.mem(at@[j], p) <==> p == t[j]) by {
            assert(st1.sp.has(at@[j]));
            assert(st1.sp.mem(at@[j], p) == st2.sp.mem(at@[j], p));
        }
        a.lemma_valid(st1, st0);
        a.lemma_valid(st2, st1);
    }
    let k_max: usize = g.states.len();
    let mut sets = empty_sets(store.sp.zero, k_max, n);
    proof {
        assert forall|h: int| 0 <= h < ss.len() implies row_ok(
            st2,
            (#[trigger] sets@[h])@,
            t.len(),
        ) by {
            assert forall|j: int| 0 <= j < t.len() implies st2.sp.has(
                #[trigger] sets@[h]@[j],
            ) by {}
        }
        let z = table_of(st2, ss, sets@);
        assert forall|r: Place<A>, j: int, x: Pkt|
            x.len() == nf && 0 <= j < t.len() && #[trigger] z(r, j, x) implies completes(
            a,
            o,
            t,
            out,
            r,
            j,
            x,
        ) by {
            let h = choose|h: int|
                0 <= h < ss.len() && (#[trigger] ss[h]).model() == r && st2.sp.mem(
                    sets@[h]@[j],
                    x,
                );
            assert(sets@[h]@[j] == st2.sp.zero);
        }
    }
    // one entry per round, so that the rounds are counted
    let mut rounds: Vec<()> = Vec::new();
    let mut changed = true;
    while changed
        invariant
            store.wf(),
            o.wf(),
            st0.wf(),
            st2.wf(),
            st0.extends(&o),
            st2.extends(&st0),
            store.extends(&st2),
            a.valid(o),
            a.valid(st0),
            nf == o.n(),
            n == t.len(),
            n >= 1,
            ss == g.states@,
            k_max == ss.len(),
            out.len() == nf,
            tabulates(a, st0, g),
            forall|i: int| 0 <= i < ss.len() ==> a.is_state((#[trigger] ss[i]).model()),
            forall|j: int| 0 <= j < t.len() ==> (#[trigger] t[j]).len() == nf,
            row_ok(st2, at@, t.len()),
            st2.sp.has(out_sp),
            forall|j: int, p: Pkt|
                #![trigger st2.sp.mem(at@[j], p)]
                0 <= j < t.len() && p.len() == nf ==> (st2.sp.mem(at@[j], p) <==> p == t[j]),
            forall|p: Pkt|
                #![trigger st2.sp.mem(out_sp, p)]
                p.len() == nf ==> (st2.sp.mem(out_sp, p) <==> p == out),
            sets_ok(*store, sets@, ss.len(), t.len()),
            back_sound(a, o, *store, t, out, ss, sets@),
            !changed ==> back_closed(a, o, *store, t, out, ss, sets@, k_max as int, 0),
        decreases usize::MAX - rounds.len(),
    {
        changed = false;
        let mut k: usize = 0;
        while k < k_max
            invariant
                store.wf(),
                o.wf(),
                st0.wf(),
                st2.wf(),
                st0.extends(&o),
                st2.extends(&st0),
                store.extends(&st2),
                a.valid(o),
                a.valid(st0),
                nf == o.n(),
                n == t.len(),
                n >= 1,
                ss == g.states@,
                k_max == ss.len(),
                out.len() == nf,
                tabulates(a, st0, g),
                forall|i: int| 0 <= i < ss.len() ==> a.is_state((#[trigger] ss[i]).model()),
                forall|j: int| 0 <= j < t.len() ==> (#[trigger] t[j]).len() == nf,
                row_ok(st2, at@, t.len()),
                st2.sp.has(out_sp),
                forall|j: int, p: Pkt|
                    #![trigger st2.sp.mem(at@[j], p)]
                    0 <= j < t.len() && p.len() == nf ==> (st2.sp.mem(at@[j], p) <==> p == t[j]),
                forall|p: Pkt|
                    #![trigger st2.sp.mem(out_sp, p)]
                    p.len() == nf ==> (st2.sp.mem(out_sp, p) <==> p == out),
                sets_ok(*store, sets@, ss.len(), t.len()),
                back_sound(a, o, *store, t, out, ss, sets@),
                k <= k_max,
                !changed ==> back_closed(a, o, *store, t, out, ss, sets@, k as int, 0),
            decreases k_max - k,
        {
            let mut i: usize = 0;
            while i < n
                invariant
                    store.wf(),
                    o.wf(),
                    st0.wf(),
                    st2.wf(),
                    st0.extends(&o),
                    st2.extends(&st0),
                    store.extends(&st2),
                    a.valid(o),
                    a.valid(st0),
                    nf == o.n(),
                    n == t.len(),
                    ss == g.states@,
                    k_max == ss.len(),
                    k < k_max,
                    out.len() == nf,
                    tabulates(a, st0, g),
                    forall|j: int| 0 <= j < ss.len() ==> a.is_state((#[trigger] ss[j]).model()),
                    forall|j: int| 0 <= j < t.len() ==> (#[trigger] t[j]).len() == nf,
                    row_ok(st2, at@, t.len()),
                    st2.sp.has(out_sp),
                    forall|j: int, p: Pkt|
                        #![trigger st2.sp.mem(at@[j], p)]
                        0 <= j < t.len() && p.len() == nf ==> (st2.sp.mem(at@[j], p) <==> p
                            == t[j]),
                    forall|p: Pkt|
                        #![trigger st2.sp.mem(out_sp, p)]
                        p.len() == nf ==> (st2.sp.mem(out_sp, p) <==> p == out),
                    sets_ok(*store, sets@, ss.len(), t.len()),
                    back_sound(a, o, *store, t, out, ss, sets@),
                    i <= n,
                    !changed ==> back_closed(a, o, *store, t, out, ss, sets@, k as int, i as int),
                decreases n - i,
            {
                let ghost s0 = *store;
                let ghost sets0 = sets@;
                let ghost q = ss[k as int].model();
                let ghost z0 = table_of(s0, ss, sets0);
                proof {
                    a.lemma_valid(s0, st0);
                    lemma_rows_ext(a, s0, st0, g, ss.len());
                    st2.lemma_wf();
                    s0.lemma_wf();
                    assert(row_ok(s0, at@, t.len())) by {
                        assert forall|j: int| 0 <= j < t.len() implies s0.sp.has(
                            #[trigger] at@[j],
                        ) by {
                            assert(st2.sp.has(at@[j]));
                        }
                    }
                    assert forall|j: int, p: Pkt| #![trigger s0.sp.mem(at@[j], p)]
                        0 <= j < t.len() && p.len() == nf implies (s0.sp.mem(at@[j], p) <==> p
                        == t[j]) by {
                        assert(st2.sp.has(at@[j]));
                        assert(st2.sp.mem(at@[j], p) == s0.sp.mem(at@[j], p));
                    }
                    assert forall|p: Pkt| #![trigger s0.sp.mem(out_sp, p)]
                        p.len() == nf implies (s0.sp.mem(out_sp, p) <==> p == out) by {
                        assert(st2.sp.mem(out_sp, p) == s0.sp.mem(out_sp, p));
                    }
                }
                let new_sp = back_entry(
                    a,
                    store,
                    &g,
                    &sets,
                    &at,
                    out_sp,
                    k,
                    i,
                    Ghost(t),
                    Ghost(out),
                );
                let ghost s1 = *store;
                proof {
                    s1.lemma_wf();
                    lemma_sets_ext(s1, s0, sets0, ss.len(), t.len());
                    lemma_back_kept(a, o, s1, s0, t, out, ss, sets0);
                    assert(row_ok(s1, sets0[k as int]@, t.len()));
                    assert(s1.sp.has(sets0[k as int]@[i as int]));
                    assert(a.is_state(ss[k as int].model()));
                    assert forall|p: Pkt| #![trigger s1.sp.mem(new_sp, p)]
                        p.len() == nf implies (s1.sp.mem(new_sp, p) <==> back_rule(
                        a,
                        o,
                        t,
                        out,
                        z0,
                        q,
                        i as int,
                        p,
                    )) by {
                        lemma_back_rule_ext(a, s0, o, t, out, ss, sets0, q, i as int, p);
                    }
                }
                let old_sp = sets[k][i];
                let combined = sp_union(store, old_sp, new_sp);
                let ghost s2 = *store;
                proof {
                    lemma_sets_ext(s2, s1, sets0, ss.len(), t.len());
                    lemma_back_kept(a, o, s2, s1, t, out, ss, sets0);
                }
                if combined != old_sp {
                    put(&mut sets, k, i, combined);
                    changed = true;
                    proof {
                        assert forall|p: Pkt| #![trigger s2.sp.mem(combined, p)]
                            p.len() == nf && s2.sp.mem(combined, p) implies s0.sp.mem(
                            sets0[k as int]@[i as int],
                            p,
                        ) || back_rule(a, o, t, out, z0, q, i as int, p) by {
                            assert(s1.sp.mem(old_sp, p) == s0.sp.mem(old_sp, p));
                        }
                        lemma_back_update(
                            a,
                            o,
                            s2,
                            s0,
                            t,
                            out,
                            ss,
                            sets0,
                            sets@,
                            k as int,
                            i as int,
                            combined,
                        );
                    }
                } else {
                    proof {
                        if !changed {
                            assert(back_closed_at(
                                a,
                                o,
                                s0,
                                t,
                                out,
                                ss,
                                sets0,
                                k as int,
                                i as int,
                            )) by {
                                assert forall|p: Pkt|
                                    p.len() == nf && #[trigger] back_rule(
                                        a,
                                        o,
                                        t,
                                        out,
                                        z0,
                                        q,
                                        i as int,
                                        p,
                                    ) implies s0.sp.mem(sets0[k as int]@[i as int], p) by {
                                    assert(s1.sp.mem(new_sp, p));
                                    assert(s2.sp.mem(combined, p));
                                    assert(s2.sp.mem(old_sp, p) == s0.sp.mem(old_sp, p));
                                }
                            }
                            assert forall|h: int, j: int|
                                0 <= h < ss.len() && 0 <= j < t.len() && (h < k || (h == k && j
                                    < i + 1)) implies #[trigger] back_closed_at(
                                a,
                                o,
                                s2,
                                t,
                                out,
                                ss,
                                sets0,
                                h,
                                j,
                            ) by {
                                assert(back_closed_at(a, o, s0, t, out, ss, sets0, h, j));
                                assert(back_closed_at(a, o, s1, t, out, ss, sets0, h, j));
                            }
                        }
                    }
                }
                i = i + 1;
            }
            k = k + 1;
        }
        rounds.push(());
    }
    let r = Reach { states: g.states, sets };
    proof {
        let st = *store;
        let z = table_of(st, ss, sets@);
        assert forall|q: Place<A>, i: int, p: Pkt|
            among(r.states@, q) && 0 <= i < trace@.len() && p.len() == nf implies (
        #[trigger] r.lists(st, q, i, p) <==> completes(a, o, t, out, q, i, p)) by {
            assert(r.lists(st, q, i, p) == z(q, i, p));
            if completes(a, o, t, out, q, i, p) {
                let w = word_from(t, out, i, p);
                let path = choose|path: Seq<(Place<A>, Pkt)>| #[trigger]
                    run_on(a, o, q, path, w);
                let ok = |m: Place<A>| among(ss, m);
                assert forall|m: Place<A>, j: int, x: Pkt|
                    ok(m) && x.len() == nf && 0 <= j < t.len() && #[trigger] back_rule(
                        a,
                        o,
                        t,
                        out,
                        z,
                        m,
                        j,
                        x,
                    ) implies z(m, j, x) by {
                    let h = choose|h: int| 0 <= h < ss.len() && (#[trigger] ss[h]).model() == m;
                    assert(back_closed_at(a, o, st, t, out, ss, sets@, h, j));
                    lemma_table_at(st, ss, sets@, h, j, x);
                }
                lemma_back_complete(a, o, t, out, z, ok, q, i, p, path);
            }
        }
    }
    r
}

// ---- forward -----------------------------------------------------------------------------------

/// A run that records the trace up to position `i` leads to `q` with packet `p`.
pub open spec fn follows<A: ENFA>(
    a: &A,
    st: SPPstore,
    t: Seq<Pkt>,
    q: Place<A>,
    i: int,
    p: Pkt,
) -> bool {
    exists|path: Seq<(Place<A>, Pkt)>| #[trigger]
        is_path(a, st, path) && path[0].0 == a.init() && path.last() == (q, p) && trace_of(a, path)
            == t.take(i + 1)
}

/// A run goes on to the position that the next state calls for.
pub(crate) proof fn lemma_follows_step<A: ENFA>(
    a: &A,
    st: SPPstore,
    t: Seq<Pkt>,
    q: Place<A>,
    i: int,
    p: Pkt,
    r: Place<A>,
    x: Pkt,
)
    requires
        0 <= i < t.len(),
        follows(a, st, t, q, i, p),
        a.step(st, q, p, r, x),
        x.len() == st.n(),
        next_at(a, r, i) < t.len(),
        a.vis(r) ==> x == t[i + 1],
    ensures
        follows(a, st, t, r, next_at(a, r, i), x),
{
    let path = choose|path: Seq<(Place<A>, Pkt)>| #[trigger]
        is_path(a, st, path) && path[0].0 == a.init() && path.last() == (q, p) && trace_of(a, path)
            == t.take(i + 1);
    let more = path.push((r, x));
    assert forall|j: int| 0 <= j < more.len() - 1 implies #[trigger] moves(a, st, more, j) by {
        if j < path.len() - 1 {
            assert(moves(a, st, path, j));
        }
    }
    assert(is_path(a, st, more));
    assert(more.skip(1).drop_last() =~= path.skip(1));
    assert(more.skip(1).last() == (r, x));
    if a.vis(r) {
        assert(trace_of(a, more) =~= trace_of(a, path).push(x));
        assert(t.take(i + 2) =~= t.take(i + 1).push(t[i + 1]));
    } else {
        assert(trace_of(a, more) =~= trace_of(a, path));
    }
    assert(more.last() == (r, x));
}

/// What holds the start, and is closed under steps, holds everything that follows.
proof fn lemma_forward_complete<A: ENFA>(
    a: &A,
    st: SPPstore,
    t: Seq<Pkt>,
    z: spec_fn(Place<A>, int, Pkt) -> bool,
    path: Seq<(Place<A>, Pkt)>,
    i: int,
)
    requires
        t.len() >= 1,
        0 <= i < t.len(),
        is_path(a, st, path),
        path[0].0 == a.init(),
        trace_of(a, path) == t.take(i + 1),
        z(a.init(), 0, t[0]),
        forall|q: Place<A>, j: int, p: Pkt, r: Place<A>, x: Pkt|
            #![trigger z(q, j, p), a.step(st, q, p, r, x)]
            0 <= j < t.len() && p.len() == st.n() && x.len() == st.n() && z(q, j, p) && a.step(
                st,
                q,
                p,
                r,
                x,
            ) && next_at(a, r, j) < t.len() && (a.vis(r) ==> x == t[j + 1]) ==> z(
                r,
                next_at(a, r, j),
                x,
            ),
    ensures
        z(path.last().0, i, path.last().1),
    decreases path.len(),
{
    assert(trace_of(a, path)[0] == path[0].1);
    assert(t.take(i + 1)[0] == t[0]);
    if path.len() == 1 {
        assert(path.skip(1) =~= Seq::<(Place<A>, Pkt)>::empty());
        assert(trace_of(a, path) =~= seq![path[0].1]);
        assert(t.take(i + 1).len() == i + 1);
        assert(i == 0);
        assert(path.last() == path[0]);
    } else {
        let prev = path.drop_last();
        let (q, p) = prev.last();
        let (r, x) = path.last();
        assert forall|j: int| 0 <= j < prev.len() - 1 implies #[trigger] moves(a, st, prev, j) by {
            assert(moves(a, st, path, j));
        }
        assert(is_path(a, st, prev));
        assert(moves(a, st, path, path.len() - 2));
        assert(path[path.len() - 2] == (q, p) && path[path.len() - 1] == (r, x));
        assert(path[path.len() - 2].1.len() == st.n() && path[path.len() - 1].1.len() == st.n());
        assert(path.skip(1).drop_last() =~= prev.skip(1));
        assert(path.skip(1).last() == (r, x));
        if a.vis(r) {
            assert(trace_of(a, path) =~= trace_of(a, prev).push(x));
            assert(trace_of(a, prev).len() >= 1);
            assert(trace_of(a, path).len() == i + 1);
            assert(t.take(i + 1).drop_last() =~= t.take(i));
            assert(trace_of(a, path).drop_last() =~= trace_of(a, prev));
            assert(trace_of(a, path).last() == x);
            assert(t.take(i + 1).last() == t[i]);
            lemma_forward_complete(a, st, t, z, prev, i - 1);
        } else {
            assert(trace_of(a, path) =~= trace_of(a, prev));
            lemma_forward_complete(a, st, t, z, prev, i);
        }
        assert(z(q, if a.vis(r) {
            i - 1
        } else {
            i
        }, p));
    }
}

/// What the sets hold follows.
spec fn forward_sound<A: ENFA>(
    a: &A,
    o: SPPstore,
    st: SPPstore,
    t: Seq<Pkt>,
    states: Seq<A::State>,
    sets: Seq<Vec<SP>>,
) -> bool {
    forall|r: Place<A>, j: int, x: Pkt|
        x.len() == o.n() && 0 <= j < t.len() && #[trigger] table_of(st, states, sets)(r, j, x)
            ==> follows(a, o, t, r, j, x)
}

/// The packets of the set for state `k` and position `i` are followed along edge
/// `c`.
spec fn edge_closed<S>(
    st: SPPstore,
    t: Seq<Pkt>,
    g: StateGraph<S>,
    sets: Seq<Vec<SP>>,
    k: int,
    i: int,
    c: int,
) -> bool {
    forall|p: Pkt, x: Pkt|
        #![trigger st.sp.mem(sets[k]@[i], p), st.rel(g.edges@[k]@[c].0, p, x)]
        p.len() == st.n() && x.len() == st.n() && st.sp.mem(sets[k]@[i], p) && st.rel(
            g.edges@[k]@[c].0,
            p,
            x,
        ) && spot(g, g.edges@[k]@[c].1, i) < t.len() && (g.visible@[g.edges@[k]@[c].1 as int]
            ==> x == t[i + 1]) ==> st.sp.mem(
            sets[g.edges@[k]@[c].1 as int]@[spot(g, g.edges@[k]@[c].1, i)],
            x,
        )
}

/// All entries before state `k`, position `i` and edge `c` are followed.
spec fn forward_closed<S>(
    st: SPPstore,
    t: Seq<Pkt>,
    g: StateGraph<S>,
    sets: Seq<Vec<SP>>,
    k: int,
    i: int,
    c: int,
) -> bool {
    forall|h: int, j: int, d: int|
        0 <= h < g.states@.len() && 0 <= j < t.len() && 0 <= d < g.edges@[h]@.len() && (h < k || (h
            == k && j < i) || (h == k && j == i && d < c)) ==> #[trigger] edge_closed(
            st,
            t,
            g,
            sets,
            h,
            j,
            d,
        )
}

proof fn lemma_forward_kept<A: ENFA>(
    a: &A,
    o: SPPstore,
    st: SPPstore,
    s0: SPPstore,
    t: Seq<Pkt>,
    g: StateGraph<A::State>,
    sets: Seq<Vec<SP>>,
    k: int,
    i: int,
    c: int,
)
    requires
        s0.wf(),
        st.extends(&s0),
        s0.n() == o.n(),
        a.valid(s0),
        tabulates(a, s0, g),
        sets_ok(s0, sets, g.states@.len(), t.len()),
    ensures
        forward_sound(a, o, s0, t, g.states@, sets) ==> forward_sound(
            a,
            o,
            st,
            t,
            g.states@,
            sets,
        ),
        forward_closed(s0, t, g, sets, k, i, c) ==> forward_closed(st, t, g, sets, k, i, c),
{
    let states = g.states@;
    let (z, z0) = (table_of(st, states, sets), table_of(s0, states, sets));
    lemma_sets_ext(st, s0, sets, states.len(), t.len());
    if forward_sound(a, o, s0, t, states, sets) {
        assert forall|r: Place<A>, j: int, x: Pkt|
            x.len() == o.n() && 0 <= j < t.len() && #[trigger] z(r, j, x) implies follows(
            a,
            o,
            t,
            r,
            j,
            x,
        ) by {
            lemma_table_ext(st, s0, states, sets, t.len(), r, j, x);
            assert(z0(r, j, x));
        }
    }
    if forward_closed(s0, t, g, sets, k, i, c) {
        assert forall|h: int, j: int, d: int|
            0 <= h < g.states@.len() && 0 <= j < t.len() && 0 <= d < g.edges@[h]@.len() && (h < k
                || (h == k && j < i) || (h == k && j == i && d < c)) implies #[trigger] edge_closed(
            st,
            t,
            g,
            sets,
            h,
            j,
            d,
        ) by {
            assert(edge_closed(s0, t, g, sets, h, j, d));
            assert(row_of(a, s0, states, states[h].model(), g.edges@[h]@));
            let (s, m) = g.edges@[h]@[d];
            assert(s0.has(s) && m < states.len());
            assert forall|p: Pkt, x: Pkt|
                #![trigger st.sp.mem(sets[h]@[j], p), st.rel(s, p, x)]
                p.len() == st.n() && x.len() == st.n() && st.sp.mem(sets[h]@[j], p) && st.rel(
                    s,
                    p,
                    x,
                ) && spot(g, m, j) < t.len() && (g.visible@[m as int] ==> x
                    == t[j + 1]) implies st.sp.mem(sets[m as int]@[spot(g, m, j)], x) by {
                assert(s0.sp.mem(sets[h]@[j], p) && s0.rel(s, p, x));
                assert(s0.sp.mem(sets[m as int]@[spot(g, m, j)], x));
            }
        }
    }
}

/// Follows the packets of one set along one edge.  Tells whether a set has grown.
fn forward_edge<A: ENFA>(
    a: &A,
    store: &mut SPPstore,
    g: &StateGraph<A::State>,
    sets: &mut Vec<Vec<SP>>,
    at: &Vec<SP>,
    k: usize,
    i: usize,
    c: usize,
    Ghost(o): Ghost<SPPstore>,
    Ghost(t): Ghost<Seq<Pkt>>,
) -> (changed: bool)
    requires
        old(store).wf(),
        o.wf(),
        old(store).extends(&o),
        a.valid(o),
        a.valid(*old(store)),
        tabulates(a, *old(store), *g),
        sets_ok(*old(store), old(sets)@, g.states@.len(), t.len()),
        row_ok(*old(store), at@, t.len()),
        forall|j: int| 0 <= j < t.len() ==> (#[trigger] t[j]).len() == o.n(),
        forall|j: int, p: Pkt|
            #![trigger old(store).sp.mem(at@[j], p)]
            0 <= j < t.len() && p.len() == o.n() ==> (old(store).sp.mem(at@[j], p) <==> p == t[j]),
        k < g.states@.len(),
        i < t.len(),
        c < g.edges@[k as int]@.len(),
        forward_sound(a, o, *old(store), t, g.states@, old(sets)@),
    ensures
        final(store).wf(),
        final(store).extends(old(store)),
        sets_ok(*final(store), final(sets)@, g.states@.len(), t.len()),
        forward_sound(a, o, *final(store), t, g.states@, final(sets)@),
        !changed ==> final(sets)@ == old(sets)@ && edge_closed(
            *final(store),
            t,
            *g,
            final(sets)@,
            k as int,
            i as int,
            c as int,
        ),
        forall|h: int, j: int, p: Pkt|
            0 <= h < g.states@.len() && 0 <= j < t.len() && p.len() == o.n() && old(store).sp.mem(
                old(sets)@[h]@[j],
                p,
            ) ==> #[trigger] final(store).sp.mem(final(sets)@[h]@[j], p),
{
    let ghost s0 = *store;
    let ghost nf = o.n();
    let ghost sets0 = sets@;
    let ghost ss = g.states@;
    let n: usize = at.len();
    let ghost q = ss[k as int].model();
    let (s, j) = g.edges[k][c];
    let ghost row = g.edges@[k as int]@;
    proof {
        s0.lemma_wf();
        assert(row_of(a, s0, ss, q, row));
        assert(row[c as int] == (s, j));
        assert(row_ok(s0, sets0[k as int]@, t.len()));
        assert(s0.sp.has(sets0[k as int]@[i as int]));
        lemma_sets_ext(s0, s0, sets0, ss.len(), t.len());
    }
    let vis_j = g.visible[j];
    if vis_j && i + 1 >= n {
        proof {
            assert forall|h: int, l: int, p: Pkt|
                0 <= h < ss.len() && 0 <= l < t.len() && p.len() == nf && s0.sp.mem(
                    sets0[h]@[l],
                    p,
                ) implies #[trigger] s0.sp.mem(sets@[h]@[l], p) by {}
        }
        return false;
    }
    let it: usize = if vis_j {
        i + 1
    } else {
        i
    };
    let ghost src = sets0[k as int]@[i as int];
    let pushed = store.push(sets[k][i], s);
    let ghost s1 = *store;
    proof {
        s1.lemma_wf();
        assert(s0.sp.has(at@[it as int]));
    }
    let restricted = if vis_j {
        sp_intersect(store, pushed, at[it])
    } else {
        pushed
    };
    let ghost s2 = *store;
    proof {
        s2.lemma_wf();
        lemma_sets_ext(s2, s0, sets0, ss.len(), t.len());
        assert forall|x: Pkt| #![trigger s2.sp.mem(restricted, x)] x.len() == nf implies (
        s2.sp.mem(restricted, x) <==> (vis_j ==> x == t[it as int]) && exists|p: Pkt|
            #![trigger s0.sp.mem(src, p)]
            p.len() == nf && s0.sp.mem(src, p) && s0.rel(s, p, x)) by {
            if vis_j {
                assert(s1.sp.mem(at@[it as int], x) == s0.sp.mem(at@[it as int], x));
            }
        }
        assert(row_ok(s2, sets0[j as int]@, t.len()));
        assert(s2.sp.has(sets0[j as int]@[it as int]));
    }
    let old_sp = sets[j][it];
    let combined = sp_union(store, old_sp, restricted);
    let ghost s3 = *store;
    proof {
        lemma_sets_ext(s3, s2, sets0, ss.len(), t.len());
    }
    let changed = combined != old_sp;
    if changed {
        put(sets, j, it, combined);
    }
    proof {
        let z0 = table_of(s0, ss, sets0);
        let more = sets@;
        let z = table_of(s3, ss, more);
        let r = ss[j as int].model();
        assert(g.visible@[j as int] == a.vis(r));
        assert forall|h: int, l: int| 0 <= h < ss.len() && 0 <= l < t.len() implies
            #[trigger] more[h]@[l] == (if changed && h == j && l == it {
            combined
        } else {
            sets0[h]@[l]
        }) by {
            assert(row_ok(s0, sets0[h]@, t.len()));
        }
        assert forall|h: int| 0 <= h < ss.len() implies row_ok(
            s3,
            (#[trigger] more[h])@,
            t.len(),
        ) by {
            assert(row_ok(s3, sets0[h]@, t.len()));
            assert forall|l: int| 0 <= l < t.len() implies s3.sp.has(#[trigger] more[h]@[l]) by {
                assert(s3.sp.has(sets0[h]@[l]));
            }
        }
        assert forall|h: int, l: int, p: Pkt|
            0 <= h < ss.len() && 0 <= l < t.len() && p.len() == nf && s0.sp.mem(
                sets0[h]@[l],
                p,
            ) implies #[trigger] s3.sp.mem(more[h]@[l], p) by {
            assert(s2.sp.mem(sets0[h]@[l], p));
            assert(s3.sp.mem(sets0[h]@[l], p));
        }
        assert forall|m: Place<A>, l: int, x: Pkt|
            x.len() == nf && 0 <= l < t.len() && #[trigger] z(m, l, x) implies follows(
            a,
            o,
            t,
            m,
            l,
            x,
        ) by {
            let h = choose|h: int|
                0 <= h < ss.len() && (#[trigger] ss[h]).model() == m && s3.sp.mem(
                    more[h]@[l],
                    x,
                );
            lemma_table_at(s0, ss, sets0, h, l, x);
            if s0.sp.mem(sets0[h]@[l], x) {
                assert(z0(m, l, x));
            } else {
                assert(s3.sp.mem(sets0[h]@[l], x) == s2.sp.mem(sets0[h]@[l], x));
                assert(s2.sp.mem(sets0[h]@[l], x) == s0.sp.mem(sets0[h]@[l], x));
                assert(changed && h == j && l == it);
                assert(s2.sp.mem(restricted, x));
                let p = choose|p: Pkt|
                    #![trigger s0.sp.mem(src, p)]
                    p.len() == nf && s0.sp.mem(src, p) && s0.rel(s, p, x);
                lemma_table_at(s0, ss, sets0, k as int, i as int, p);
                assert(z0(q, i as int, p));
                assert(follows(a, o, t, q, i as int, p));
                assert(row[c as int].1.model() == j);
                assert(listed(s0, row, p, j, x));
                assert(a.step(s0, q, p, r, x));
                a.lemma_valid(s0, o);
                assert(a.is_state(ss[k as int].model()));
                assert(a.step(o, q, p, r, x));
                lemma_follows_step(a, o, t, q, i as int, p, r, x);
            }
        }
        if !changed {
            assert forall|p: Pkt, x: Pkt|
                #![trigger s3.sp.mem(more[k as int]@[i as int], p), s3.rel(s, p, x)]
                p.len() == nf && x.len() == nf && s3.sp.mem(more[k as int]@[i as int], p) && s3.rel(
                    s,
                    p,
                    x,
                ) && spot(*g, j, i as int) < t.len() && (g.visible@[j as int] ==> x
                    == t[i + 1]) implies s3.sp.mem(
                more[j as int]@[spot(*g, j, i as int)],
                x,
            ) by {
                assert(s3.sp.mem(src, p) == s2.sp.mem(src, p));
                assert(s2.sp.mem(src, p) == s0.sp.mem(src, p));
                assert(s0.rel(s, p, x));
                assert(s2.sp.mem(restricted, x));
                assert(s3.sp.mem(combined, x));
            }
        }
    }
    changed
}

/// For every state that runs can reach and every position of the trace, the
/// packets that runs along the trace bring there.
pub fn forward_reachable<A: ENFA>(a: &A, store: &mut SPPstore, trace: &[Vec<bool>]) -> (r: Reach<
    A::State,
>)
    requires
        old(store).wf(),
        a.valid(*old(store)),
        trace@.len() >= 1,
        forall|i: int| 0 <= i < trace@.len() ==> (#[trigger] trace@[i])@.len() == old(store).n(),
    ensures
        final(store).wf(),
        final(store).extends(old(store)),
        r.wf(*final(store), trace@.len()),
        closed_states(a, *old(store), r.states@),
        forall|q: Place<A>| #[trigger]
            among(r.states@, q) <==> can_reach(a, *old(store), Seq::empty(), q),
        forall|q: Place<A>, i: int, p: Pkt|
            0 <= i < trace@.len() && p.len() == old(store).n() ==> (#[trigger] r.lists(
                *final(store),
                q,
                i,
                p,
            ) <==> follows(a, *old(store), packets(trace@), q, i, p)),
{
    let ghost o = *store;
    let ghost nf = o.n();
    let ghost t = packets(trace@);
    let n: usize = trace.len();
    let roots: Vec<A::State> = Vec::new();
    let g = tabulate(a, store, &roots);
    let ghost st0 = *store;
    let ghost ss = g.states@;
    proof {
        lemma_graph_closed(a, st0, o, g);
        assert(roots@ =~= Seq::<A::State>::empty());
        lemma_states_exact(a, o, roots@, g.states@);
        a.lemma_valid(st0, o);
        assert forall|j: int| 0 <= j < t.len() implies (#[trigger] t[j]).len() == nf by {
            assert(t[j] == trace@[j]@);
        }
    }
    let at = singletons(store, trace);
    let ghost st1 = *store;
    proof {
        st1.lemma_wf();
        st1.sp.lemma_consts();
        a.lemma_valid(st1, st0);
        lemma_rows_ext(a, st1, st0, g, ss.len());
        assert(st1.sp.has(at@[0]));
    }
    let k_max: usize = g.states.len();
    let mut sets = empty_sets(store.sp.zero, k_max, n);
    let ghost sets0 = sets@;
    put(&mut sets, 0, 0, at[0]);
    proof {
        assert forall|h: int, j: int| 0 <= h < ss.len() && 0 <= j < t.len() implies
            #[trigger] sets@[h]@[j] == (if h == 0 && j == 0 {
            at@[0]
        } else {
            st1.sp.zero
        }) by {
            assert(sets0[h]@[j] == st1.sp.zero);
        }
        assert forall|h: int| 0 <= h < ss.len() implies row_ok(
            st1,
            (#[trigger] sets@[h])@,
            t.len(),
        ) by {
            assert(sets0[h]@.len() == n);
            assert forall|j: int| 0 <= j < t.len() implies st1.sp.has(
                #[trigger] sets@[h]@[j],
            ) by {}
        }
        let z = table_of(st1, ss, sets@);
        assert forall|r: Place<A>, j: int, x: Pkt|
            x.len() == nf && 0 <= j < t.len() && #[trigger] z(r, j, x) implies follows(
            a,
            o,
            t,
            r,
            j,
            x,
        ) by {
            let h = choose|h: int|
                0 <= h < ss.len() && (#[trigger] ss[h]).model() == r && st1.sp.mem(
                    sets@[h]@[j],
                    x,
                );
            assert(sets@[h]@[j] == (if h == 0 && j == 0 {
                at@[0]
            } else {
                st1.sp.zero
            }));
            assert(h == 0 && j == 0);
            assert(x == t[0]);
            let path = seq![(r, x)];
            assert(is_path(a, o, path));
            assert(path.skip(1) =~= Seq::<(Place<A>, Pkt)>::empty());
            assert(trace_of(a, path) =~= t.take(1));
            assert(path.last() == (r, x));
        }
        assert(st1.sp.mem(sets@[0]@[0], t[0]));
    }
    // one entry per round, so that the rounds are counted
    let mut rounds: Vec<()> = Vec::new();
    let mut changed = true;
    while changed
        invariant
            store.wf(),
            o.wf(),
            st1.wf(),
            st1.extends(&o),
            store.extends(&st1),
            a.valid(o),
            a.valid(st1),
            nf == o.n(),
            n == t.len(),
            n >= 1,
            ss == g.states@,
            k_max == ss.len(),
            tabulates(a, st1, g),
            forall|j: int| 0 <= j < t.len() ==> (#[trigger] t[j]).len() == nf,
            row_ok(st1, at@, t.len()),
            forall|j: int, p: Pkt|
                #![trigger st1.sp.mem(at@[j], p)]
                0 <= j < t.len() && p.len() == nf ==> (st1.sp.mem(at@[j], p) <==> p == t[j]),
            sets_ok(*store, sets@, ss.len(), t.len()),
            forward_sound(a, o, *store, t, ss, sets@),
            store.sp.mem(sets@[0]@[0], t[0]),
            !changed ==> forward_closed(*store, t, g, sets@, k_max as int, 0, 0),
        decreases usize::MAX - rounds.len(),
    {
        changed = false;
        let mut k: usize = 0;
        while k < k_max
            invariant
                store.wf(),
                o.wf(),
                st1.wf(),
                st1.extends(&o),
                store.extends(&st1),
                a.valid(o),
                a.valid(st1),
                nf == o.n(),
                n == t.len(),
                n >= 1,
                ss == g.states@,
                k_max == ss.len(),
                tabulates(a, st1, g),
                forall|j: int| 0 <= j < t.len() ==> (#[trigger] t[j]).len() == nf,
                row_ok(st1, at@, t.len()),
                forall|j: int, p: Pkt|
                    #![trigger st1.sp.mem(at@[j], p)]
                    0 <= j < t.len() && p.len() == nf ==> (st1.sp.mem(at@[j], p) <==> p == t[j]),
                sets_ok(*store, sets@, ss.len(), t.len()),
                forward_sound(a, o, *store, t, ss, sets@),
                store.sp.mem(sets@[0]@[0], t[0]),
                k <= k_max,
                !changed ==> forward_closed(*store, t, g, sets@, k as int, 0, 0),
            decreases k_max - k,
        {
            let mut i: usize = 0;
            while i < n
                invariant
                    store.wf(),
                    o.wf(),
                    st1.wf(),
                    st1.extends(&o),
                    store.extends(&st1),
                    a.valid(o),
                    a.valid(st1),
                    nf == o.n(),
                    n == t.len(),
                    n >= 1,
                    ss == g.states@,
                    k_max == ss.len(),
                    k < k_max,
                    tabulates(a, st1, g),
                    forall|j: int| 0 <= j < t.len() ==> (#[trigger] t[j]).len() == nf,
                    row_ok(st1, at@, t.len()),
                    forall|j: int, p: Pkt|
                        #![trigger st1.sp.mem(at@[j], p)]
                        0 <= j < t.len() && p.len() == nf ==> (st1.sp.mem(at@[j], p) <==> p
                            == t[j]),
                    sets_ok(*store, sets@, ss.len(), t.len()),
                    forward_sound(a, o, *store, t, ss, sets@),
                    store.sp.mem(sets@[0]@[0], t[0]),
                    i <= n,
                    !changed ==> forward_closed(*store, t, g, sets@, k as int, i as int, 0),
                decreases n - i,
            {
                let mut c: usize = 0;
                while c < g.edges[k].len()
                    invariant
                        store.wf(),
                        o.wf(),
                        st1.wf(),
                        st1.extends(&o),
                        store.extends(&st1),
                        a.valid(o),
                        a.valid(st1),
                        nf == o.n(),
                        n == t.len(),
                        n >= 1,
                        i < n,
                        ss == g.states@,
                        k_max == ss.len(),
                        k < k_max,
                        tabulates(a, st1, g),
                        forall|j: int| 0 <= j < t.len() ==> (#[trigger] t[j]).len() == nf,
                        row_ok(st1, at@, t.len()),
                        forall|j: int, p: Pkt|
                            #![trigger st1.sp.mem(at@[j], p)]
                            0 <= j < t.len() && p.len() == nf ==> (st1.sp.mem(at@[j], p) <==> p
                                == t[j]),
                        sets_ok(*store, sets@, ss.len(), t.len()),
                        forward_sound(a, o, *store, t, ss, sets@),
                        store.sp.mem(sets@[0]@[0], t[0]),
                        c <= g.edges@[k as int]@.len(),
                        !changed ==> forward_closed(
                            *store,
                            t,
                            g,
                            sets@,
                            k as int,
                            i as int,
                            c as int,
                        ),
                    decreases g.edges@[k as int]@.len() - c,
                {
                    let ghost s0 = *store;
                    let ghost sets1 = sets@;
                    proof {
                        a.lemma_valid(s0, st1);
                        lemma_rows_ext(a, s0, st1, g, ss.len());
                        st1.lemma_wf();
                        assert(row_ok(s0, at@, t.len())) by {
                            assert forall|j: int| 0 <= j < t.len() implies s0.sp.has(
                                #[trigger] at@[j],
                            ) by {
                                assert(st1.sp.has(at@[j]));
                            }
                        }
                        assert forall|j: int, p: Pkt| #![trigger s0.sp.mem(at@[j], p)]
                            0 <= j < t.len() && p.len() == nf implies (s0.sp.mem(at@[j], p)
                            <==> p == t[j]) by {
                            assert(st1.sp.has(at@[j]));
                            assert(st1.sp.mem(at@[j], p) == s0.sp.mem(at@[j], p));
                        }
                    }
                    let grown = forward_edge(
                        a,
                        store,
                        &g,
                        &mut sets,
                        &at,
                        k,
                        i,
                        c,
                        Ghost(o),
                        Ghost(t),
                    );
                    proof {
                        assert(store.sp.mem(sets@[0]@[0], t[0]));
                        if !grown && !changed {
                            lemma_forward_kept(
                                a,
                                o,
                                *store,
                                s0,
                                t,
                                g,
                                sets1,
                                k as int,
                                i as int,
                                c as int,
                            );
                        }
                    }
                    if grown {
                        changed = true;
                    }
                    c = c + 1;
                }
                i = i + 1;
            }
            k = k + 1;
        }
        rounds.push(());
    }
    let r = Reach { states: g.states, sets };
    proof {
        let st = *store;
        let z = table_of(st, ss, sets@);
        a.lemma_valid(st, st1);
        lemma_rows_ext(a, st, st1, g, ss.len());
        lemma_table_at(st, ss, sets@, 0, 0, t[0]);
        assert(ss[0].model() == a.init());
        assert forall|q: Place<A>, j: int, p: Pkt, m: Place<A>, x: Pkt|
            #![trigger z(q, j, p), a.step(o, q, p, m, x)]
            0 <= j < t.len() && p.len() == nf && x.len() == nf && z(q, j, p) && a.step(
                o,
                q,
                p,
                m,
                x,
            ) && next_at(a, m, j) < t.len() && (a.vis(m) ==> x == t[j + 1]) implies z(
            m,
            next_at(a, m, j),
            x,
        ) by {
            let h = choose|h: int|
                0 <= h < ss.len() && (#[trigger] ss[h]).model() == q && st.sp.mem(sets@[h]@[j], p);
            let row = g.edges@[h]@;
            assert(row_of(a, st, ss, ss[h].model(), row));
            assert(a.is_state(ss[h].model()));
            a.lemma_valid(st, o);
            assert(a.step(st, q, p, m, x));
            assert(among(ss, m));
            let l = choose|l: int| 0 <= l < ss.len() && (#[trigger] ss[l]).model() == m;
            assert(l < g.edges.len());
            let lu = l as usize;
            assert(a.step(st, ss[h].model(), p, ss[lu as int].model(), x));
            assert(listed(st, row, p, lu, x));
            let d = choose|d: int|
                0 <= d < row.len() && st.rel((#[trigger] row[d]).0, p, x) && row[d].1.model()
                    == lu;
            assert(row[d].1 == lu);
            assert(edge_closed(st, t, g, sets@, h, j, d));
            assert(g.visible@[l] == a.vis(m));
            lemma_table_at(st, ss, sets@, l, next_at(a, m, j), x);
        }
        assert forall|q: Place<A>, i: int, p: Pkt|
            0 <= i < trace@.len() && p.len() == nf implies (#[trigger] r.lists(st, q, i, p)
            <==> follows(a, o, t, q, i, p)) by {
            assert(r.lists(st, q, i, p) == z(q, i, p)) by {
                if r.lists(st, q, i, p) {
                    let h = choose|h: int|
                        0 <= h < r.states@.len() && (#[trigger] r.states@[h]).model() == q
                            && st.sp.mem(r.sets@[h]@[i], p);
                    assert(ss[h].model() == q && st.sp.mem(sets@[h]@[i], p));
                }
                if z(q, i, p) {
                    let h = choose|h: int|
                        0 <= h < ss.len() && (#[trigger] ss[h]).model() == q && st.sp.mem(
                            sets@[h]@[i],
                            p,
                        );
                    assert(r.states@[h].model() == q);
                }
            }
            if follows(a, o, t, q, i, p) {
                let path = choose|path: Seq<(Place<A>, Pkt)>| #[trigger]
                    is_path(a, o, path) && path[0].0 == a.init() && path.last() == (q, p)
                        && trace_of(a, path) == t.take(i + 1);
                lemma_forward_complete(a, o, t, z, path, i);
            }
        }
    }
    r
}

} // verus!
