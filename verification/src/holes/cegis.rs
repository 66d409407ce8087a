//! Filling holes by counterexamples.
//!
//! The learner proposes what to put in the holes.  A constraint that the proposal
//! breaks gives a clause that every filling that meets the constraint satisfies and
//! that the proposal does not.
use vstd::prelude::*;
use crate::flags::Flags;
use crate::holes::aut::{
    accepts_from, among, enfa_lang, is_path, lemma_first, lemma_lang_valid, trace_of, Place,
    StateKey, DFA, ENFA, NFA,
};
use crate::holes::candidate::{
    automata_of, everything, gains, gains_for, keeps_slots, span_word, spans, Candidate,
};
use crate::holes::cut::{add_lower_bound_clause_mincut, cut_clause, too_large};
use crate::holes::elaborate::packets_of;
use crate::holes::escape::{
    below_fill, breach, breach_end, breaches, goes, lands, lemma_breaches, lemma_escape, lemma_meet,
    lemma_more, lemma_reached_kept, placed_at, plausible, reached, stays, Places,
};
use crate::holes::explicit::ExplicitDFA;
use crate::holes::inst::{
    admits, contained, graph_of, graph_row, separates, targets, witness_word, Filling,
    Instantiate, LowerBoundCounterexample, State, Witness,
};
use crate::holes::nk_with_holes::{keeps, label_lang, label_ok, EdgeLabel, Fill, Hole};
use crate::holes::problem::Constraint;
use crate::holes::reach::{
    backward_reachable, completes, follows, forward_reachable, lemma_follows_step,
    lemma_word_from, next_at, word_from, Reach,
};
use crate::holes::search::{path_of, singleton_sp};
use crate::holes::smt::{
    ask, bits_at, clause_true, guess_by, lit_ok, lit_true, member, packet_ok, reply_of, same_bits,
    solution_ok, widths, AbstractBit, AbstractClause, Bits, Guess, LearnError, Literal, Reply,
    SmtLearner, Solution, Transcript,
};
use crate::lang::{is_word, packets, same, Word};
use crate::sp::{Pkt, SPstore, SP};
use crate::spp::{SPPstore, SPP};

verus! {

// ---- literals and what they claim --------------------------------------------------------------

/// What a literal says of a guess.
pub type Claim = spec_fn(Guess) -> bool;

/// A literal keeps its meaning when the store grows and variables are added.
pub proof fn lemma_lit_true(
    l: Literal,
    st: SPstore,
    o: SPstore,
    n: nat,
    s: nat,
    ws: Seq<nat>,
    m: nat,
    g: Guess,
    e: Bits,
    f: Bits,
)
    requires
        st.extends(&o),
        lit_ok(l, o, n, s, ws, m),
        same_bits(m, e, f),
    ensures
        lit_true(o, l, g, e) == lit_true(st, l, g, f),
{
    match l {
        Literal::Spp { spp, ap1, ap2, polarity } => {
            lemma_bits_kept(ap1@, n, m, e, f);
            lemma_bits_kept(ap2@, n, m, e, f);
        },
        Literal::SppMember { spp, in_sp, out_sp } => {
            if member(o, g, spp.0, in_sp, out_sp) {
                let (p, q) = choose|p: Pkt, q: Pkt|
                    p.len() == o.n() && q.len() == o.n() && o.mem(in_sp, p) && o.mem(out_sp, q)
                        && #[trigger] (g.spps)(spp.0, p, q);
                assert(st.mem(in_sp, p) && st.mem(out_sp, q));
                assert((g.spps)(spp.0, p, q));
            }
            if member(st, g, spp.0, in_sp, out_sp) {
                let (p, q) = choose|p: Pkt, q: Pkt|
                    p.len() == st.n() && q.len() == st.n() && st.mem(in_sp, p) && st.mem(out_sp, q)
                        && #[trigger] (g.spps)(spp.0, p, q);
                assert(o.mem(in_sp, p) && o.mem(out_sp, q));
                assert((g.spps)(spp.0, p, q));
            }
        },
        Literal::Cand { cand, pkt_in, pkt_start, states, pkt_end, pkt_out, polarity } => {
            lemma_bits_kept(pkt_in@, n, m, e, f);
            lemma_bits_kept(pkt_start@, n, m, e, f);
            lemma_bits_kept(pkt_end@, n, m, e, f);
            lemma_bits_kept(pkt_out@, n, m, e, f);
        },
    }
}

/// A literal stays one when the store grows and variables are added.
pub proof fn lemma_lit_kept(
    l: Literal,
    st: SPstore,
    o: SPstore,
    n: nat,
    s: nat,
    ws: Seq<nat>,
    m: nat,
    k: nat,
)
    requires
        st.extends(&o),
        lit_ok(l, o, n, s, ws, m),
        m <= k,
    ensures
        lit_ok(l, st, n, s, ws, k),
{
    match l {
        Literal::Spp { spp, ap1, ap2, polarity } => {
            lemma_packet_kept(ap1@, n, m, k);
            lemma_packet_kept(ap2@, n, m, k);
        },
        Literal::SppMember { spp, in_sp, out_sp } => {},
        Literal::Cand { cand, pkt_in, pkt_start, states, pkt_end, pkt_out, polarity } => {
            lemma_packet_kept(pkt_in@, n, m, k);
            lemma_packet_kept(pkt_start@, n, m, k);
            lemma_packet_kept(pkt_end@, n, m, k);
            lemma_packet_kept(pkt_out@, n, m, k);
        },
    }
}

proof fn lemma_bits_kept(ap: Seq<AbstractBit>, n: nat, m: nat, e: Bits, f: Bits)
    requires
        packet_ok(ap, n, m),
        same_bits(m, e, f),
    ensures
        bits_at(ap, e) == bits_at(ap, f),
{
    assert forall|i: int| 0 <= i < ap.len() implies bits_at(ap, e)[i] == bits_at(ap, f)[i] by {
        if let AbstractBit::Exist(v) = ap[i] {
            assert(v.0 < m);
            assert(e(v.0) == f(v.0));
        }
    }
    assert(bits_at(ap, e) =~= bits_at(ap, f));
}

proof fn lemma_packet_kept(ap: Seq<AbstractBit>, n: nat, m: nat, k: nat)
    requires
        packet_ok(ap, n, m),
        m <= k,
    ensures
        packet_ok(ap, n, k),
{
    assert forall|i: int| 0 <= i < ap.len() implies (#[trigger] ap[i] matches AbstractBit::Exist(v)
        ==> v.0 < k) by {
        assert(ap[i] matches AbstractBit::Exist(v) ==> v.0 < m);
    }
}

/// Literals and their claims: whatever `o` allowed is allowed with values for the
/// new variables that make each literal true whose claim is, and a literal that is
/// true makes its claim.
pub open spec fn banked<'a, L: SmtLearner<'a>>(
    l: L,
    o: L,
    st: SPstore,
    lits: Seq<Literal>,
    claims: Seq<Claim>,
) -> bool {
    &&& keeps_slots(l, o)
    &&& lits.len() == claims.len()
    &&& forall|k: int|
        0 <= k < lits.len() ==> lit_ok(
            #[trigger] lits[k],
            st,
            l.n(),
            l.slots(),
            widths(l.automata()),
            l.vars(),
        )
    &&& forall|g: Guess, e: Bits| #[trigger] l.allows(g, e) ==> o.allows(g, e)
    &&& forall|g: Guess, e: Bits| #[trigger]
        o.allows(g, e) ==> banked_for(l, o, st, lits, claims, g, e)
    &&& honest(l, st, lits, claims)
}

/// Every claim is true whose literal is, where the guess is allowed.
#[verifier::opaque]
pub open spec fn honest<'a, L: SmtLearner<'a>>(
    l: L,
    st: SPstore,
    lits: Seq<Literal>,
    claims: Seq<Claim>,
) -> bool {
    forall|k: int, g: Guess, e: Bits|
        #![trigger lits[k], l.allows(g, e)]
        0 <= k < lits.len() && l.allows(g, e) && lit_true(st, lits[k], g, e) ==> claims[k](g)
}

/// Values for the new variables that go with the guess.
#[verifier::opaque]
pub open spec fn banked_for<'a, L: SmtLearner<'a>>(
    l: L,
    o: L,
    st: SPstore,
    lits: Seq<Literal>,
    claims: Seq<Claim>,
    g: Guess,
    e: Bits,
) -> bool {
    exists|f: Bits|
        same_bits(o.vars(), e, f) && #[trigger] l.allows(g, f) && truthful(st, lits, claims, g, f)
}

/// Every literal is true whose claim is.
pub open spec fn truthful(
    st: SPstore,
    lits: Seq<Literal>,
    claims: Seq<Claim>,
    g: Guess,
    f: Bits,
) -> bool {
    forall|k: int|
        0 <= k < lits.len() && (#[trigger] claims[k])(g) ==> lit_true(st, lits[k], g, f)
}

/// No literals at all.
pub(crate) proof fn lemma_bank_empty<'a, L: SmtLearner<'a>>(l: L, st: SPstore)
    requires
        l.wf(),
    ensures
        banked(l, l, st, Seq::<Literal>::empty(), Seq::<Claim>::empty()),
{
    reveal(honest);
    assert forall|g: Guess, e: Bits| #[trigger] l.allows(g, e) implies banked_for(
        l,
        l,
        st,
        Seq::<Literal>::empty(),
        Seq::<Claim>::empty(),
        g,
        e,
    ) by {
        reveal(banked_for);
        assert(same_bits(l.vars(), e, e));
        assert(truthful(st, Seq::<Literal>::empty(), Seq::<Claim>::empty(), g, e));
    }
}

/// Literals are kept when the store grows.
pub(crate) proof fn lemma_bank_store<'a, L: SmtLearner<'a>>(
    l: L,
    o: L,
    st: SPstore,
    st0: SPstore,
    lits: Seq<Literal>,
    claims: Seq<Claim>,
)
    requires
        banked(l, o, st0, lits, claims),
        st.extends(&st0),
    ensures
        banked(l, o, st, lits, claims),
{
    let ws = widths(l.automata());
    assert forall|k: int| 0 <= k < lits.len() implies lit_ok(
        #[trigger] lits[k],
        st,
        l.n(),
        l.slots(),
        ws,
        l.vars(),
    ) by {
        lemma_lit_kept(lits[k], st, st0, l.n(), l.slots(), ws, l.vars(), l.vars());
    }
    assert forall|g: Guess, e: Bits| #[trigger] o.allows(g, e) implies banked_for(
        l,
        o,
        st,
        lits,
        claims,
        g,
        e,
    ) by {
        assert(banked_for(l, o, st0, lits, claims, g, e));
        reveal(banked_for);
        let f = choose|f: Bits|
            same_bits(o.vars(), e, f) && #[trigger] l.allows(g, f) && truthful(
                st0,
                lits,
                claims,
                g,
                f,
            );
        assert(truthful(st, lits, claims, g, f)) by {
            assert forall|k: int| 0 <= k < lits.len() && (#[trigger] claims[k])(g)
                implies lit_true(st, lits[k], g, f) by {
                lemma_lit_true(lits[k], st, st0, l.n(), l.slots(), ws, l.vars(), g, f, f);
                assert(lit_true(st0, lits[k], g, f));
            }
        }
    }
    assert(honest(l, st, lits, claims)) by {
        reveal(honest);
        assert forall|k: int, g: Guess, e: Bits|
            #![trigger lits[k], l.allows(g, e)]
            0 <= k < lits.len() && l.allows(g, e) && lit_true(st, lits[k], g, e)
            implies claims[k](g) by {
            lemma_lit_true(lits[k], st, st0, l.n(), l.slots(), ws, l.vars(), g, e, e);
        }
    }
}

/// One more literal: values that go with the guess.
proof fn lemma_bank_push_for<'a, L: SmtLearner<'a>>(
    l: L,
    l0: L,
    o: L,
    st: SPstore,
    st0: SPstore,
    lits: Seq<Literal>,
    claims: Seq<Claim>,
    lit: Literal,
    claim: Claim,
    g: Guess,
    e: Bits,
)
    requires
        banked(l0, o, st0, lits, claims),
        st.extends(&st0),
        gains(l, l0, st, lit, claim),
        o.allows(g, e),
    ensures
        banked_for(l, o, st, lits.push(lit), claims.push(claim), g, e),
{
    let ws = widths(l.automata());
    let n = l.n();
    let lits2 = lits.push(lit);
    let claims2 = claims.push(claim);
    assert(banked_for(l0, o, st0, lits, claims, g, e));
    assert(exists|f: Bits|
        same_bits(o.vars(), e, f) && #[trigger] l0.allows(g, f) && truthful(
            st0,
            lits,
            claims,
            g,
            f,
        )) by {
        reveal(banked_for);
    }
    let f = choose|f: Bits|
        same_bits(o.vars(), e, f) && #[trigger] l0.allows(g, f) && truthful(
            st0,
            lits,
            claims,
            g,
            f,
        );
    assert(gains_for(l, l0, st, lit, claim, g, f));
    assert(exists|h: Bits|
        same_bits(l0.vars(), f, h) && #[trigger] l.allows(g, h) && (claim(g) ==> lit_true(
            st,
            lit,
            g,
            h,
        ))) by {
        reveal(gains_for);
    }
    let h = choose|h: Bits|
        same_bits(l0.vars(), f, h) && #[trigger] l.allows(g, h) && (claim(g) ==> lit_true(
            st,
            lit,
            g,
            h,
        ));
    assert(same_bits(o.vars(), e, h)) by {
        assert forall|i: usize| #![trigger h(i)] i < o.vars() implies e(i) == h(i) by {
            assert(f(i) == e(i));
            assert(f(i) == h(i));
        }
    }
    assert(truthful(st, lits2, claims2, g, h)) by {
        assert forall|k: int| 0 <= k < lits2.len() && (#[trigger] claims2[k])(g)
            implies lit_true(st, lits2[k], g, h) by {
            if k < lits.len() {
                assert(claims2[k] == claims[k]);
                assert(claims[k](g));
                lemma_lit_true(lits[k], st, st0, n, l.slots(), ws, l0.vars(), g, f, h);
                assert(lit_true(st0, lits[k], g, f));
            }
        }
    }
    reveal(banked_for);
}

/// One more literal: what is true is claimed.
proof fn lemma_bank_honest<'a, L: SmtLearner<'a>>(
    l: L,
    l0: L,
    o: L,
    st: SPstore,
    st0: SPstore,
    lits: Seq<Literal>,
    claims: Seq<Claim>,
    lit: Literal,
    claim: Claim,
)
    requires
        banked(l0, o, st0, lits, claims),
        st.extends(&st0),
        gains(l, l0, st, lit, claim),
    ensures
        honest(l, st, lits.push(lit), claims.push(claim)),
{
    reveal(honest);
    let ws = widths(l.automata());
    let lits2 = lits.push(lit);
    let claims2 = claims.push(claim);
    assert forall|k: int, g: Guess, e: Bits|
        #![trigger lits2[k], l.allows(g, e)]
        0 <= k < lits2.len() && l.allows(g, e) && lit_true(st, lits2[k], g, e)
        implies claims2[k](g) by {
        assert(l0.allows(g, e));
        if k < lits.len() {
            assert(lits2[k] == lits[k]);
            lemma_lit_true(lits[k], st, st0, l.n(), l.slots(), ws, l0.vars(), g, e, e);
            assert(claims[k](g));
        }
    }
}

/// One more literal.
proof fn lemma_bank_push<'a, L: SmtLearner<'a>>(
    l: L,
    l0: L,
    o: L,
    st: SPstore,
    st0: SPstore,
    lits: Seq<Literal>,
    claims: Seq<Claim>,
    lit: Literal,
    claim: Claim,
)
    requires
        banked(l0, o, st0, lits, claims),
        st.extends(&st0),
        gains(l, l0, st, lit, claim),
    ensures
        banked(l, o, st, lits.push(lit), claims.push(claim)),
{
    let ws = widths(l.automata());
    let n = l.n();
    let lits2 = lits.push(lit);
    assert forall|k: int| 0 <= k < lits2.len() implies lit_ok(
        #[trigger] lits2[k],
        st,
        n,
        l.slots(),
        ws,
        l.vars(),
    ) by {
        if k < lits.len() {
            assert(lits2[k] == lits[k]);
            lemma_lit_kept(lits[k], st, st0, n, l.slots(), ws, l0.vars(), l.vars());
        }
    }
    assert forall|g: Guess, e: Bits| #[trigger] l.allows(g, e) implies o.allows(g, e) by {
        assert(l0.allows(g, e));
    }
    assert forall|g: Guess, e: Bits| #[trigger] o.allows(g, e) implies banked_for(
        l,
        o,
        st,
        lits2,
        claims.push(claim),
        g,
        e,
    ) by {
        lemma_bank_push_for(l, l0, o, st, st0, lits, claims, lit, claim, g, e);
    }
    lemma_bank_honest(l, l0, o, st, st0, lits, claims, lit, claim);
}

/// The guess satisfies all that was asserted, with some values of the variables.
pub open spec fn admitted<'a, L: SmtLearner<'a>>(l: L, g: Guess) -> bool {
    exists|e: Bits| #[trigger] l.allows(g, e)
}

/// The learner goes on from `o` to `l` and loses no guess that meets the demand.
pub open spec fn refines<'a, L: SmtLearner<'a>>(l: L, o: L, demand: Claim) -> bool {
    &&& keeps_slots(l, o)
    &&& forall|g: Guess, e: Bits| #[trigger] l.allows(g, e) ==> o.allows(g, e)
    &&& forall|g: Guess| #[trigger] admitted(o, g) && demand(g) ==> admitted(l, g)
}

/// The learner allows only what meets the demand.
pub open spec fn demands<'a, L: SmtLearner<'a>>(l: L, demand: Claim) -> bool {
    forall|g: Guess, e: Bits| #[trigger] l.allows(g, e) ==> demand(g)
}

/// One of the claims holds.
pub open spec fn any_claim(claims: Seq<Claim>, g: Guess) -> bool {
    exists|k: int| 0 <= k < claims.len() && (#[trigger] claims[k])(g)
}

/// If a claim holds, there are values with which the clause of the literals does.
proof fn lemma_bank_clause<'a, L: SmtLearner<'a>>(
    l: L,
    o: L,
    st: SPstore,
    lits: Seq<Literal>,
    claims: Seq<Claim>,
    g: Guess,
) -> (f: Bits)
    requires
        banked(l, o, st, lits, claims),
        admitted(o, g),
        any_claim(claims, g),
    ensures
        l.allows(g, f),
        clause_true(st, lits, g, f),
{
    let e = choose|e: Bits| #[trigger] o.allows(g, e);
    assert(banked_for(l, o, st, lits, claims, g, e));
    reveal(banked_for);
    let f = choose|f: Bits|
        same_bits(o.vars(), e, f) && #[trigger] l.allows(g, f) && truthful(st, lits, claims, g, f);
    let k = choose|k: int| 0 <= k < claims.len() && (#[trigger] claims[k])(g);
    assert(lit_true(st, lits[k], g, f));
    f
}

/// Asserts a clause of the literals: the guesses for which one of their claims holds
/// stay, and no others.
pub(crate) fn assert_some<'a, L: SmtLearner<'a>>(
    learner: &mut L,
    store: &mut SPPstore,
    lits: Vec<Literal>,
    Ghost(o): Ghost<L>,
    Ghost(claims): Ghost<Seq<Claim>>,
    Ghost(demand): Ghost<Claim>,
)
    requires
        old(store).wf(),
        old(store).n() == o.n(),
        banked(*old(learner), o, old(store).sp, lits@, claims),
        forall|g: Guess| demand(g) ==> #[trigger] any_claim(claims, g),
        forall|g: Guess| #[trigger] any_claim(claims, g) ==> demand(g),
    ensures
        final(store).wf(),
        final(store).extends(old(store)),
        refines(*final(learner), o, demand),
        demands(*final(learner), demand),
{
    let ghost l1 = *learner;
    let ghost s1 = *store;
    let ghost ls = lits@;
    proof {
        store.lemma_wf();
        store.lemma_sets_n();
    }
    learner.add_clause(AbstractClause { literals: lits }, &mut store.sp);
    proof {
        store.lemma_sets(&s1);
        let l2 = *learner;
        assert forall|g: Guess, e: Bits| #[trigger] l2.allows(g, e) implies o.allows(g, e) by {
            assert(l1.allows(g, e));
        }
        assert forall|g: Guess| #[trigger] admitted(o, g) && demand(g) implies admitted(l2, g) by {
            assert(any_claim(claims, g));
            let f = lemma_bank_clause(l1, o, s1.sp, ls, claims, g);
            let h = choose|h: Bits| same_bits(l1.vars(), f, h) && #[trigger] l2.allows(g, h);
            assert(l2.allows(g, h));
        }
        assert forall|g: Guess, e: Bits| #[trigger] l2.allows(g, e) implies demand(g) by {
            assert(l1.allows(g, e));
            let k = choose|k: int| 0 <= k < ls.len() && lit_true(s1.sp, #[trigger] ls[k], g, e);
            reveal(honest);
            assert(claims[k](g));
            assert(any_claim(claims, g));
        }
    }
}


// ---- what a guess puts in the holes ------------------------------------------------------------

/// What a guess puts in the holes.
pub open spec fn guess_fill<'a, C: Candidate<'a>>(
    vars: Filling<C::Var>,
    st: SPPstore,
    dfa: &'a ExplicitDFA,
    g: Guess,
) -> Fill {
    |h: Hole| if vars.has(h) {
        C::slot_lang(vars.val(h), st, dfa, g)
    } else {
        |w: Word| false
    }
}

/// Every hole has a slot of the learner.
pub open spec fn vars_ok<'a, C: Candidate<'a>, L: SmtLearner<'a>>(
    vars: Filling<C::Var>,
    l: L,
    dfa: &'a ExplicitDFA,
) -> bool {
    &&& vars.wf()
    &&& forall|h: Hole| #[trigger]
        vars.has(h) ==> C::placed(vars.val(h), l.slots(), l.automata(), dfa)
}

/// The holes of an automaton are filled by candidates over `dfa`, and have slots.
pub open spec fn filled_by<'a, C: Candidate<'a>>(
    x: Instantiate<C>,
    vars: Filling<C::Var>,
    dfa: &'a ExplicitDFA,
) -> bool {
    &&& forall|h: Hole| #[trigger] x.holes.has(h) <==> vars.has(h)
    &&& forall|h: Hole| #[trigger] x.holes.has(h) ==> x.holes.val(h).over(dfa)
}

/// A literal without variables.
proof fn lemma_plain<'a, L: SmtLearner<'a>>(l: L, st: SPstore, lit: Literal, claim: Claim)
    requires
        l.wf(),
        lit_ok(lit, st, l.n(), l.slots(), widths(l.automata()), l.vars()),
        forall|g: Guess, e: Bits| #[trigger] lit_true(st, lit, g, e) == claim(g),
    ensures
        gains(l, l, st, lit, claim),
{
    assert forall|g: Guess, e: Bits| #[trigger] l.allows(g, e) implies gains_for(
        l,
        l,
        st,
        lit,
        claim,
        g,
        e,
    ) by {
        reveal(gains_for);
        assert(same_bits(l.vars(), e, e));
        assert(lit_true(st, lit, g, e) == claim(g));
    }
}

/// The clause that the holes do not admit all of the ways that a run went through
/// them.  Without any way through a hole it has no literals, and nothing satisfies
/// it.
pub fn add_upper_bound_clause<'a, C: Candidate<'a>, L: SmtLearner<'a>>(
    witnesses: &Vec<Witness<C::State>>,
    inst: &Instantiate<C>,
    vars: &Filling<C::Var>,
    learner: &mut L,
    store: &mut SPPstore,
    dfa: &'a ExplicitDFA,
)
    requires
        old(learner).wf(),
        old(store).wf(),
        old(store).n() == old(learner).n(),
        dfa.valid(*old(store)),
        inst.valid(*old(store)),
        filled_by(*inst, *vars, dfa),
        vars_ok::<C, L>(*vars, *old(learner), dfa),
        forall|k: int|
            0 <= k < witnesses@.len() ==> inst.is_witness(*old(store), #[trigger] witnesses@[k]),
    ensures
        final(store).wf(),
        final(store).extends(old(store)),
        refines(
            *final(learner),
            *old(learner),
            |g: Guess| !admits(guess_fill::<C>(*vars, *old(store), dfa, g), witnesses@),
        ),
        demands(
            *final(learner),
            |g: Guess| !admits(guess_fill::<C>(*vars, *old(store), dfa, g), witnesses@),
        ),
{
    let ghost o = *learner;
    let ghost so = *store;
    let ghost us = witnesses@;
    let mut lits: Vec<Literal> = Vec::new();
    let ghost mut claims = Seq::<Claim>::empty();
    proof {
        lemma_bank_empty(o, so.sp);
        assert(lits@ =~= Seq::<Literal>::empty());
    }
    let mut i: usize = 0;
    while i < witnesses.len()
        invariant
            us == witnesses@,
            o.wf(),
            *learner == o,
            *store == so,
            so.wf(),
            so.n() == o.n(),
            dfa.valid(so),
            inst.valid(so),
            filled_by(*inst, *vars, dfa),
            vars_ok::<C, L>(*vars, o, dfa),
            forall|k: int| 0 <= k < us.len() ==> inst.is_witness(so, #[trigger] us[k]),
            i <= us.len(),
            claims.len() == i,
            banked(o, o, so.sp, lits@, claims),
            forall|k: int, g: Guess|
                0 <= k < i ==> #[trigger] claims[k](g) == !guess_fill::<C>(*vars, so, dfa, g)(
                    us[k].0,
                )(witness_word(us[k])),
        decreases witnesses.len() - i,
    {
        let u = &witnesses[i];
        let h: Hole = u.0;
        let ghost u0 = us[i as int];
        assert(inst.is_witness(so, us[i as int]));
        assert(inst.holes.has(h) && vars.has(h));
        match (inst.holes.get(&h), vars.get(&h)) {
            (Some(c), Some(v)) => {
                let v = *v;
                assert(C::placed(vars.val(h), o.slots(), o.automata(), dfa));
                let l = c.reject_literal(&*store, dfa, v, &u.1.0, &u.1.1, &u.1.2);
                proof {
                    let claim = |g: Guess|
                        !guess_fill::<C>(*vars, so, dfa, g)(h)(witness_word(u0));
                    assert forall|g: Guess, e: Bits| #[trigger] lit_true(so.sp, l, g, e) == claim(
                        g,
                    ) by {
                        assert(witness_word(u0) == span_word(
                            u0.1.0@,
                            packets_of(path_of(u0.1.1@)),
                            u0.1.2@,
                        ));
                    }
                    assert(lit_ok(
                        l,
                        so.sp,
                        so.n(),
                        o.slots(),
                        widths(o.automata()),
                        o.vars(),
                    ));
                    lemma_plain(o, so.sp, l, claim);
                    lemma_bank_push(o, o, o, so.sp, so.sp, lits@, claims, l, claim);
                    let c0 = claims;
                    claims = claims.push(claim);
                    assert forall|k: int, g: Guess| 0 <= k < i + 1 implies #[trigger] claims[k](g)
                        == !guess_fill::<C>(*vars, so, dfa, g)(us[k].0)(witness_word(us[k])) by {
                        if k < i {
                            assert(claims[k] == c0[k]);
                            assert(c0[k](g) == !guess_fill::<C>(*vars, so, dfa, g)(us[k].0)(
                                witness_word(us[k]),
                            ));
                        }
                    }
                }
                lits.push(l);
            },
            _ => {
                assert(false);
            },
        }
        i = i + 1;
    }
    let ghost demand = |g: Guess| !admits(guess_fill::<C>(*vars, so, dfa, g), us);
    proof {
        assert forall|g: Guess| demand(g) implies #[trigger] any_claim(claims, g) by {
            let hs = guess_fill::<C>(*vars, so, dfa, g);
            let k = choose|k: int|
                0 <= k < us.len() && !hs((#[trigger] us[k]).0)(witness_word(us[k]));
            assert(claims[k](g));
        }
        assert forall|g: Guess| #[trigger] any_claim(claims, g) implies demand(g) by {
            let k = choose|k: int| 0 <= k < claims.len() && (#[trigger] claims[k])(g);
            let hs = guess_fill::<C>(*vars, so, dfa, g);
            assert(!hs(us[k].0)(witness_word(us[k])));
        }
    }
    assert_some(learner, store, lits, Ghost(o), Ghost(claims), Ghost(demand));
}

// ---- sets of packets by place ------------------------------------------------------------------

/// The sets of a table are kept when the store grows.
pub(crate) proof fn lemma_reach_ext<C: ENFA>(
    r: &Reach<State<C::State>>,
    st: SPPstore,
    o: SPPstore,
    n: nat,
)
    requires
        o.wf(),
        r.wf(o, n),
        st.extends(&o),
    ensures
        r.wf(st, n),
        forall|q: State<Place<C>>, i: int, p: Pkt|
            #![trigger r.lists(st, q, i, p)]
            0 <= i < n && p.len() == o.n() ==> r.lists(st, q, i, p) == r.lists(o, q, i, p),
{
    assert forall|k: int| 0 <= k < r.sets@.len() implies crate::holes::reach::row_ok(
        st,
        (#[trigger] r.sets@[k])@,
        n,
    ) by {
        assert(crate::holes::reach::row_ok(o, r.sets@[k]@, n));
    }
    assert forall|q: State<Place<C>>, i: int, p: Pkt|
        #![trigger r.lists(st, q, i, p)]
        0 <= i < n && p.len() == o.n() implies r.lists(st, q, i, p) == r.lists(o, q, i, p) by {
        assert forall|k: int| 0 <= k < r.states@.len() implies st.sp.mem(
            (#[trigger] r.sets@[k])@[i],
            p,
        ) == o.sp.mem(r.sets@[k]@[i], p) by {
            assert(crate::holes::reach::row_ok(o, r.sets@[k]@, n));
            assert(o.sp.has(r.sets@[k]@[i]));
            o.lemma_sets_n();
        }
        if r.lists(st, q, i, p) {
            let k = choose|k: int|
                0 <= k < r.states@.len() && (#[trigger] r.states@[k]).model() == q && st.sp.mem(
                    r.sets@[k]@[i],
                    p,
                );
            assert(o.sp.mem(r.sets@[k]@[i], p));
        }
        if r.lists(o, q, i, p) {
            let k = choose|k: int|
                0 <= k < r.states@.len() && (#[trigger] r.states@[k]).model() == q && o.sp.mem(
                    r.sets@[k]@[i],
                    p,
                );
            assert(st.sp.mem(r.sets@[k]@[i], p));
        }
    }
}

/// The packets of a table for a state of the expression and a position.
pub(crate) fn packets_at<C: ENFA>(
    reach: &Reach<State<C::State>>,
    store: &SPPstore,
    a: usize,
    i: usize,
    n: usize,
) -> (r: SP)
    requires
        store.wf(),
        reach.wf(*store, n as nat),
        i < n,
    ensures
        store.sp.has(r),
        forall|p: Pkt|
            #![trigger store.sp.mem(r, p)]
            p.len() == store.n() ==> (store.sp.mem(r, p) <==> reach.lists(
                *store,
                State::<Place<C>>::Outer(a),
                i as int,
                p,
            )),
{
    let q: State<C::State> = State::Outer(a);
    assert(q.model() == State::<Place<C>>::Outer(a));
    proof {
        store.lemma_wf();
        store.sp.lemma_consts();
    }
    match reach.get(store, &q, i, n) {
        Some(x) => x,
        None => store.sp.zero,
    }
}

/// The states of the expression.
pub(crate) fn outer_states<C: ENFA>(inst: &Instantiate<C>) -> (r: Vec<State<C::State>>)
    ensures
        forall|i: int|
            0 <= i < r@.len() ==> inst.is_state((#[trigger] r@[i]).model()),
        forall|a: usize|
            a < inst.graph.states@.len() ==> #[trigger] among(r@, State::<Place<C>>::Outer(a)),
{
    let mut r: Vec<State<C::State>> = Vec::new();
    let mut i: usize = 0;
    while i < inst.graph.states.len()
        invariant
            i <= inst.graph.states@.len(),
            r@.len() == i,
            forall|j: usize| j < i ==> #[trigger] r@[j as int] == State::<C::State>::Outer(j),
        decreases inst.graph.states.len() - i,
    {
        r.push(State::Outer(i));
        i = i + 1;
    }
    proof {
        assert forall|j: int| 0 <= j < r@.len() implies inst.is_state((#[trigger] r@[j]).model()) by {
            assert(r@[j as usize as int] == State::<C::State>::Outer(j as usize));
        }
        assert forall|a: usize| a < inst.graph.states@.len() implies #[trigger] among(
            r@,
            State::<Place<C>>::Outer(a),
        ) by {
            assert(r@[a as int] == State::<C::State>::Outer(a));
            assert(r@[a as int].model() == State::<Place<C>>::Outer(a));
        }
    }
    r
}


// ---- the frontier ------------------------------------------------------------------------------

/// A hole through which a run could leave what is reached now: the packets with
/// which it is entered, the packets that it records, and those with which it is left.
pub struct HoleSite<'t> {
    pub hole: Hole,
    pub in_sp: SP,
    pub trace: &'t [Vec<bool>],
    pub out_sp: SP,
}

/// The sets of the site are sets of the store and hold a packet.
pub open spec fn site_ok(s: HoleSite, st: SPPstore) -> bool {
    &&& st.sp.has(s.in_sp)
    &&& st.sp.has(s.out_sp)
    &&& s.in_sp != st.sp.zero
    &&& s.out_sp != st.sp.zero
    &&& forall|i: int| 0 <= i < s.trace@.len() ==> (#[trigger] s.trace@[i])@.len() == st.n()
}

/// The site is for the hole and the recorded packets, and has both packets.
pub open spec fn site_is(
    s: HoleSite,
    st: SPPstore,
    h: Hole,
    p: Pkt,
    m: Pkt,
    ts: Seq<Pkt>,
) -> bool {
    &&& s.hole == h
    &&& st.sp.mem(s.in_sp, p)
    &&& st.sp.mem(s.out_sp, m)
    &&& packets(s.trace@) == ts
}

/// One of the sites is for the hole and the packets.
pub open spec fn site_listed(
    sites: Seq<HoleSite>,
    st: SPPstore,
    h: Hole,
    p: Pkt,
    m: Pkt,
    ts: Seq<Pkt>,
) -> bool {
    exists|k: int| 0 <= k < sites.len() && #[trigger] site_is(sites[k], st, h, p, m, ts)
}

/// Sites that are kept: the list goes on, and the store grows.
proof fn lemma_sites_kept(
    a: Seq<HoleSite>,
    st: SPPstore,
    b: Seq<HoleSite>,
    o: SPPstore,
)
    requires
        o.wf(),
        st.wf(),
        st.extends(&o),
        b.len() <= a.len(),
        forall|k: int| 0 <= k < b.len() ==> #[trigger] a[k] == b[k],
        forall|k: int| 0 <= k < b.len() ==> site_ok(#[trigger] b[k], o),
    ensures
        forall|k: int| 0 <= k < b.len() ==> site_ok(#[trigger] a[k], st),
        forall|h: Hole, p: Pkt, m: Pkt, ts: Seq<Pkt>|
            p.len() == o.n() && m.len() == o.n() && site_listed(b, o, h, p, m, ts)
                ==> #[trigger] site_listed(a, st, h, p, m, ts),
{
    o.lemma_sets_n();
    o.lemma_wf();
    st.lemma_wf();
    o.sp.lemma_consts();
    assert forall|k: int| 0 <= k < b.len() implies site_ok(#[trigger] a[k], st) by {
        assert(site_ok(b[k], o));
    }
    assert forall|h: Hole, p: Pkt, m: Pkt, ts: Seq<Pkt>|
        p.len() == o.n() && m.len() == o.n() && site_listed(b, o, h, p, m, ts)
        implies #[trigger] site_listed(a, st, h, p, m, ts) by {
        let k = choose|k: int| 0 <= k < b.len() && #[trigger] site_is(b[k], o, h, p, m, ts);
        assert(site_ok(b[k], o));
        assert(site_is(a[k], st, h, p, m, ts));
    }
}

/// The packets after position `i`, up to position `j`.
pub(crate) fn part_of<'t>(trace: &'t [Vec<bool>], i: usize, j: usize) -> (r: &'t [Vec<bool>])
    requires
        i <= j < trace@.len(),
    ensures
        r@ == trace@.subrange(i + 1, j + 1),
        packets(r@) == packets(trace@).subrange(i + 1, j + 1),
{
    let n: usize = trace.len();
    assert(j < n);
    let r = vstd::slice::slice_subrange(trace, i + 1, j + 1);
    proof {
        assert(packets(r@) =~= packets(trace@).subrange(i + 1, j + 1));
    }
    r
}

/// The packets that are plausible and not reached yet.
fn ahead<C: ENFA>(
    store: &mut SPPstore,
    forward: &Reach<State<C::State>>,
    backward: &Reach<State<C::State>>,
    b: usize,
    j: usize,
    n: usize,
) -> (r: SP)
    requires
        old(store).wf(),
        forward.wf(*old(store), n as nat),
        backward.wf(*old(store), n as nat),
        j < n,
    ensures
        final(store).wf(),
        final(store).extends(old(store)),
        final(store).sp.has(r),
        forall|p: Pkt|
            #![trigger final(store).sp.mem(r, p)]
            p.len() == old(store).n() ==> (final(store).sp.mem(r, p) <==> backward.lists(
                *old(store),
                State::<Place<C>>::Outer(b),
                j as int,
                p,
            ) && !forward.lists(*old(store), State::<Place<C>>::Outer(b), j as int, p)),
{
    let ghost o = *store;
    let already = packets_at::<C>(forward, store, b, j, n);
    let plausible = packets_at::<C>(backward, store, b, j, n);
    proof {
        store.lemma_wf();
        store.lemma_sets_n();
    }
    let not_already = store.sp.complement(already);
    let ghost s1 = *store;
    let r = store.sp.intersect(plausible, not_already);
    proof {
        store.lemma_sets(&o);
        let st = *store;
        assert forall|p: Pkt|
            #![trigger st.sp.mem(r, p)]
            p.len() == o.n() implies (st.sp.mem(r, p) <==> backward.lists(
            o,
            State::<Place<C>>::Outer(b),
            j as int,
            p,
        ) && !forward.lists(o, State::<Place<C>>::Outer(b), j as int, p)) by {
            assert(s1.sp.mem(plausible, p) == o.sp.mem(plausible, p));
            assert(s1.sp.mem(not_already, p) == !o.sp.mem(already, p));
        }
    }
    r
}

/// A run is at a hole with a packet that is reached now, and leaves it with one that
/// is plausible and not reached.
pub open spec fn breaks_out<C: ENFA>(
    x: &Instantiate<C>,
    st: SPPstore,
    forward: &Reach<State<C::State>>,
    backward: &Reach<State<C::State>>,
    n: nat,
    a: usize,
    k: int,
    i: int,
    j: int,
    p: Pkt,
    m: Pkt,
) -> bool {
    &&& a < x.graph.states@.len()
    &&& 0 <= k < x.graph.edges@[a as int]@.len()
    &&& 0 <= i <= j
    &&& lands(x, x.graph.edges@[a as int]@[k].1, j) < n
    &&& p.len() == st.n()
    &&& m.len() == st.n()
    &&& forward.lists(st, State::<Place<C>>::Outer(a), i, p)
    &&& backward.lists(
        st,
        State::<Place<C>>::Outer(x.graph.edges@[a as int]@[k].1),
        lands(x, x.graph.edges@[a as int]@[k].1, j),
        m,
    )
    &&& !forward.lists(
        st,
        State::<Place<C>>::Outer(x.graph.edges@[a as int]@[k].1),
        lands(x, x.graph.edges@[a as int]@[k].1, j),
        m,
    )
}

/// The site has both packets.
pub open spec fn site_has(s: HoleSite, st: SPPstore, p: Pkt, m: Pkt) -> bool {
    st.sp.mem(s.in_sp, p) && st.sp.mem(s.out_sp, m)
}

/// A run breaks out from `p` to `m` along edge `k`, whose label is the hole, and
/// records the packets.
pub open spec fn breaks_at<C: ENFA>(
    x: &Instantiate<C>,
    st: SPPstore,
    forward: &Reach<State<C::State>>,
    backward: &Reach<State<C::State>>,
    t: Seq<Pkt>,
    h: Hole,
    ts: Seq<Pkt>,
    a: usize,
    k: int,
    i: int,
    j: int,
    p: Pkt,
    m: Pkt,
) -> bool {
    &&& breaks_out(x, st, forward, backward, t.len(), a, k, i, j, p, m)
    &&& x.graph.edges@[a as int]@[k].0 == EdgeLabel::Abstract(h)
    &&& ts == t.subrange(i + 1, j + 1)
}

/// With the packets of the site a run breaks out at some edge.
pub open spec fn edge_just<C: ENFA>(
    s: HoleSite,
    st: SPPstore,
    x: &Instantiate<C>,
    o: SPPstore,
    forward: &Reach<State<C::State>>,
    backward: &Reach<State<C::State>>,
    t: Seq<Pkt>,
) -> bool {
    forall|p: Pkt, m: Pkt|
        p.len() == o.n() && m.len() == o.n() && #[trigger] site_has(s, st, p, m) ==> exists|
            a: usize,
            k: int,
            i: int,
            j: int,
        | #[trigger]
            breaks_at(x, o, forward, backward, t, s.hole, packets(s.trace@), a, k, i, j, p, m)
}

/// A run ends from `p` in the hole at end `k`, and records the packets.
pub open spec fn ends_at<C: ENFA>(
    x: &Instantiate<C>,
    st: SPPstore,
    forward: &Reach<State<C::State>>,
    t: Seq<Pkt>,
    h: Hole,
    ts: Seq<Pkt>,
    a: usize,
    k: int,
    i: int,
    p: Pkt,
) -> bool {
    &&& runs_out(x, st, forward, t.len(), a, k, i, p)
    &&& x.graph.ends@[a as int]@[k] == EdgeLabel::Abstract(h)
    &&& ts == t.subrange(i + 1, t.len() as int)
}

/// With the packets of the site a run ends, with the output.
pub open spec fn end_just<C: ENFA>(
    s: HoleSite,
    st: SPPstore,
    x: &Instantiate<C>,
    o: SPPstore,
    forward: &Reach<State<C::State>>,
    t: Seq<Pkt>,
    out: Pkt,
) -> bool {
    forall|p: Pkt, m: Pkt|
        p.len() == o.n() && m.len() == o.n() && #[trigger] site_has(s, st, p, m) ==> m == out
            && exists|a: usize, k: int, i: int| #[trigger]
            ends_at(x, o, forward, t, s.hole, packets(s.trace@), a, k, i, p)
}

/// The site of an edge.
proof fn lemma_edge_just<C: ENFA>(
    s: HoleSite,
    st: SPPstore,
    x: &Instantiate<C>,
    o: SPPstore,
    forward: &Reach<State<C::State>>,
    backward: &Reach<State<C::State>>,
    t: Seq<Pkt>,
    a: usize,
    k: int,
    i: int,
    j: int,
)
    requires
        a < x.graph.states@.len(),
        0 <= k < x.graph.edges@[a as int]@.len(),
        x.graph.edges@[a as int]@[k].0 == EdgeLabel::Abstract(s.hole),
        0 <= i <= j,
        lands(x, x.graph.edges@[a as int]@[k].1, j) < t.len(),
        packets(s.trace@) == t.subrange(i + 1, j + 1),
        forall|p: Pkt|
            p.len() == o.n() && #[trigger] st.sp.mem(s.in_sp, p) ==> forward.lists(
                o,
                State::<Place<C>>::Outer(a),
                i,
                p,
            ),
        forall|m: Pkt|
            m.len() == o.n() && #[trigger] st.sp.mem(s.out_sp, m) ==> backward.lists(
                o,
                State::<Place<C>>::Outer(x.graph.edges@[a as int]@[k].1),
                lands(x, x.graph.edges@[a as int]@[k].1, j),
                m,
            ) && !forward.lists(
                o,
                State::<Place<C>>::Outer(x.graph.edges@[a as int]@[k].1),
                lands(x, x.graph.edges@[a as int]@[k].1, j),
                m,
            ),
    ensures
        edge_just(s, st, x, o, forward, backward, t),
{
    let ts = packets(s.trace@);
    assert forall|p: Pkt, m: Pkt|
        p.len() == o.n() && m.len() == o.n() && #[trigger] site_has(s, st, p, m)
        implies exists|a: usize, k: int, i: int, j: int| #[trigger]
        breaks_at(x, o, forward, backward, t, s.hole, ts, a, k, i, j, p, m) by {
        assert(breaks_at(x, o, forward, backward, t, s.hole, ts, a, k, i, j, p, m));
    }
}

/// The site of an end.
proof fn lemma_end_just<C: ENFA>(
    s: HoleSite,
    st: SPPstore,
    x: &Instantiate<C>,
    o: SPPstore,
    forward: &Reach<State<C::State>>,
    t: Seq<Pkt>,
    out: Pkt,
    a: usize,
    k: int,
    i: int,
)
    requires
        a < x.graph.states@.len(),
        0 <= k < x.graph.ends@[a as int]@.len(),
        x.graph.ends@[a as int]@[k] == EdgeLabel::Abstract(s.hole),
        0 <= i < t.len(),
        packets(s.trace@) == t.subrange(i + 1, t.len() as int),
        forall|p: Pkt|
            p.len() == o.n() && #[trigger] st.sp.mem(s.in_sp, p) ==> forward.lists(
                o,
                State::<Place<C>>::Outer(a),
                i,
                p,
            ),
        forall|m: Pkt| m.len() == o.n() && #[trigger] st.sp.mem(s.out_sp, m) ==> m == out,
    ensures
        end_just(s, st, x, o, forward, t, out),
{
    let ts = packets(s.trace@);
    assert forall|p: Pkt, m: Pkt|
        p.len() == o.n() && m.len() == o.n() && #[trigger] site_has(s, st, p, m) implies m == out
        && exists|a: usize, k: int, i: int| #[trigger]
        ends_at(x, o, forward, t, s.hole, ts, a, k, i, p) by {
        assert(ends_at(x, o, forward, t, s.hole, ts, a, k, i, p));
    }
}

/// What a site says is kept when the store grows.
proof fn lemma_just_kept<C: ENFA>(
    s: HoleSite,
    st: SPPstore,
    st0: SPPstore,
    x: &Instantiate<C>,
    o: SPPstore,
    forward: &Reach<State<C::State>>,
    backward: &Reach<State<C::State>>,
    t: Seq<Pkt>,
    out: Pkt,
)
    requires
        st0.wf(),
        st.extends(&st0),
        st0.n() == o.n(),
        site_ok(s, st0),
    ensures
        edge_just(s, st0, x, o, forward, backward, t) ==> edge_just(
            s,
            st,
            x,
            o,
            forward,
            backward,
            t,
        ),
        end_just(s, st0, x, o, forward, t, out) ==> end_just(s, st, x, o, forward, t, out),
{
    st0.lemma_sets_n();
    assert forall|p: Pkt, m: Pkt|
        p.len() == o.n() && m.len() == o.n() && #[trigger] site_has(s, st, p, m)
        implies site_has(s, st0, p, m) by {}
}

/// What a site says of a store holds of the store before.
proof fn lemma_just_before<C: ENFA>(
    s: HoleSite,
    st: SPPstore,
    x: &Instantiate<C>,
    s1: SPPstore,
    o: SPPstore,
    forward: &Reach<State<C::State>>,
    backward: &Reach<State<C::State>>,
    t: Seq<Pkt>,
    out: Pkt,
)
    requires
        o.wf(),
        s1.extends(&o),
        forward.wf(o, t.len()),
        backward.wf(o, t.len()),
    ensures
        edge_just(s, st, x, s1, forward, backward, t) ==> edge_just(
            s,
            st,
            x,
            o,
            forward,
            backward,
            t,
        ),
        end_just(s, st, x, s1, forward, t, out) ==> end_just(s, st, x, o, forward, t, out),
{
    lemma_reach_ext::<C>(forward, s1, o, t.len());
    lemma_reach_ext::<C>(backward, s1, o, t.len());
    let ts = packets(s.trace@);
    if edge_just(s, st, x, s1, forward, backward, t) {
        assert forall|p: Pkt, m: Pkt|
            p.len() == o.n() && m.len() == o.n() && #[trigger] site_has(s, st, p, m)
            implies exists|a: usize, k: int, i: int, j: int| #[trigger]
            breaks_at(x, o, forward, backward, t, s.hole, ts, a, k, i, j, p, m) by {
            let (a, k, i, j) = choose|a: usize, k: int, i: int, j: int| #[trigger]
                breaks_at(x, s1, forward, backward, t, s.hole, ts, a, k, i, j, p, m);
            assert(breaks_at(x, o, forward, backward, t, s.hole, ts, a, k, i, j, p, m));
        }
    }
    if end_just(s, st, x, s1, forward, t, out) {
        assert forall|p: Pkt, m: Pkt|
            p.len() == o.n() && m.len() == o.n() && #[trigger] site_has(s, st, p, m) implies m
            == out && exists|a: usize, k: int, i: int| #[trigger]
            ends_at(x, o, forward, t, s.hole, ts, a, k, i, p) by {
            let (a, k, i) = choose|a: usize, k: int, i: int| #[trigger]
                ends_at(x, s1, forward, t, s.hole, ts, a, k, i, p);
            assert(ends_at(x, o, forward, t, s.hole, ts, a, k, i, p));
        }
    }
}

/// The sites of one hole that is the label of an edge.
fn edge_sites<'t, C: ENFA>(
    store: &mut SPPstore,
    inst: &Instantiate<C>,
    trace: &'t [Vec<bool>],
    forward: &Reach<State<C::State>>,
    backward: &Reach<State<C::State>>,
    a: usize,
    k: usize,
    hole: Hole,
    sites: &mut Vec<HoleSite<'t>>,
)
    requires
        old(store).wf(),
        forall|i: int| 0 <= i < trace@.len() ==> (#[trigger] trace@[i])@.len() == old(store).n(),
        a < inst.graph.states@.len(),
        inst.graph.edges@.len() == inst.graph.states@.len(),
        k < inst.graph.edges@[a as int]@.len(),
        inst.graph.edges@[a as int]@[k as int].0 == EdgeLabel::Abstract(hole),
        inst.graph.edges@[a as int]@[k as int].1 < inst.graph.states@.len(),
        forward.wf(*old(store), trace@.len()),
        backward.wf(*old(store), trace@.len()),
        forall|i: int| 0 <= i < old(sites)@.len() ==> site_ok(#[trigger] old(sites)@[i], *old(store)),
    ensures
        final(store).wf(),
        final(store).extends(old(store)),
        old(sites)@.len() <= final(sites)@.len(),
        forall|i: int| 0 <= i < old(sites)@.len() ==> #[trigger] final(sites)@[i] == old(sites)@[i],
        forall|i: int| 0 <= i < final(sites)@.len() ==> site_ok(#[trigger] final(sites)@[i], *final(store)),
        forall|i: int, j: int, p: Pkt, m: Pkt| #[trigger]
            breaks_out(
                inst,
                *old(store),
                forward,
                backward,
                trace@.len(),
                a,
                k as int,
                i,
                j,
                p,
                m,
            ) ==> site_listed(
                final(sites)@,
                *final(store),
                hole,
                p,
                m,
                packets(trace@).subrange(i + 1, j + 1),
            ),
        forall|i: int|
            old(sites)@.len() <= i < final(sites)@.len() ==> edge_just(
                #[trigger] final(sites)@[i],
                *final(store),
                inst,
                *old(store),
                forward,
                backward,
                packets(trace@),
            ),
{
    let ghost o = *store;
    let ghost sites0 = sites@;
    let ghost t = packets(trace@);
    let n: usize = trace.len();
    let b: usize = inst.graph.edges[a][k].1;
    let shown: bool = inst.graph.states[b].visible;
    let mut i: usize = 0;
    proof {
        lemma_sites_kept(sites0, o, sites0, o);
    }
    while i < n
        invariant
            n == trace@.len(),
            t == packets(trace@),
            o.wf(),
            store.wf(),
            store.extends(&o),
            forall|i: int| 0 <= i < trace@.len() ==> (#[trigger] trace@[i])@.len() == o.n(),
            a < inst.graph.states@.len(),
            k < inst.graph.edges@[a as int]@.len(),
            inst.graph.edges@[a as int]@[k as int].0 == EdgeLabel::Abstract(hole),
            b == inst.graph.edges@[a as int]@[k as int].1,
            shown == inst.graph.states@[b as int].visible,
            forward.wf(o, n as nat),
            backward.wf(o, n as nat),
            i <= n,
            sites0.len() <= sites@.len(),
            forall|i: int| 0 <= i < sites0.len() ==> #[trigger] sites@[i] == sites0[i],
            forall|i: int| 0 <= i < sites@.len() ==> site_ok(#[trigger] sites@[i], *store),
            forall|i: int|
                sites0.len() <= i < sites@.len() ==> edge_just(
                    #[trigger] sites@[i],
                    *store,
                    inst,
                    o,
                    forward,
                    backward,
                    t,
                ),
            forall|y: int, j: int, p: Pkt, m: Pkt| #[trigger]
                breaks_out(inst, o, forward, backward, n as nat, a, k as int, y, j, p, m) && y < i
                    ==> site_listed(sites@, *store, hole, p, m, t.subrange(y + 1, j + 1)),
        decreases n - i,
    {
        proof {
            lemma_reach_ext::<C>(forward, *store, o, n as nat);
        }
        let in_sp = packets_at::<C>(forward, store, a, i, n);
        proof {
            store.lemma_wf();
            store.lemma_sets_n();
        }
        if !store.sp.is_zero(in_sp) {
            let ghost si = *store;
            let mut j: usize = i;
            while j < n
                invariant
                    n == trace@.len(),
                    t == packets(trace@),
                    o.wf(),
                    si.wf(),
                    si.extends(&o),
                    store.wf(),
                    store.extends(&o),
                    store.extends(&si),
                    store.sp.has(in_sp),
                    in_sp != store.sp.zero,
                    si.sp.has(in_sp),
                    forall|p: Pkt|
                        #![trigger si.sp.mem(in_sp, p)]
                        p.len() == o.n() ==> (si.sp.mem(in_sp, p) <==> forward.lists(
                            o,
                            State::<Place<C>>::Outer(a),
                            i as int,
                            p,
                        )),
                    forall|i: int| 0 <= i < trace@.len() ==> (#[trigger] trace@[i])@.len() == o.n(),
                    a < inst.graph.states@.len(),
                    k < inst.graph.edges@[a as int]@.len(),
                    inst.graph.edges@[a as int]@[k as int].0 == EdgeLabel::Abstract(hole),
                    b == inst.graph.edges@[a as int]@[k as int].1,
                    shown == inst.graph.states@[b as int].visible,
                    forward.wf(o, n as nat),
                    backward.wf(o, n as nat),
                    i <= j <= n,
                    i < n,
                    sites0.len() <= sites@.len(),
                    forall|i: int| 0 <= i < sites0.len() ==> #[trigger] sites@[i] == sites0[i],
                    forall|i: int| 0 <= i < sites@.len() ==> site_ok(#[trigger] sites@[i], *store),
                    forall|i: int|
                        sites0.len() <= i < sites@.len() ==> edge_just(
                            #[trigger] sites@[i],
                            *store,
                            inst,
                            o,
                            forward,
                            backward,
                            t,
                        ),
                    forall|y: int, z: int, p: Pkt, m: Pkt| #[trigger]
                        breaks_out(inst, o, forward, backward, n as nat, a, k as int, y, z, p, m)
                            && (y < i || (y == i && z < j)) ==> site_listed(
                            sites@,
                            *store,
                            hole,
                            p,
                            m,
                            t.subrange(y + 1, z + 1),
                        ),
                decreases n - j,
            {
                let ghost sj = *store;
                let ghost before = sites@;
                if shown && j + 1 >= n {
                    proof {
                        assert(n <= j + 1);
                    }
                } else {
                    let jt: usize = if shown {
                        j + 1
                    } else {
                        j
                    };
                    proof {
                        lemma_reach_ext::<C>(forward, *store, o, n as nat);
                        lemma_reach_ext::<C>(backward, *store, o, n as nat);
                    }
                    let out_sp = ahead::<C>(store, forward, backward, b, jt, n);
                    proof {
                        si.lemma_sets_n();
                        si.lemma_wf();
                        sj.lemma_wf();
                        store.lemma_wf();
                        store.lemma_sets_n();
                        sj.sp.lemma_consts();
                        si.sp.lemma_consts();
                    }
                    if !store.sp.is_zero(out_sp) {
                        let part = part_of(trace, i, j);
                        sites.push(HoleSite { hole, in_sp, trace: part, out_sp });
                    }
                    proof {
                        lemma_sites_kept(sites@, *store, before, sj);
                        assert forall|z: int| sites0.len() <= z < sites@.len() implies edge_just(
                            #[trigger] sites@[z],
                            *store,
                            inst,
                            o,
                            forward,
                            backward,
                            t,
                        ) by {
                            if z < before.len() {
                                assert(sites@[z] == before[z]);
                                assert(site_ok(before[z], sj));
                                lemma_just_kept(
                                    before[z],
                                    *store,
                                    sj,
                                    inst,
                                    o,
                                    forward,
                                    backward,
                                    t,
                                    t[0],
                                );
                            } else {
                                assert forall|p: Pkt| p.len() == o.n() && #[trigger] store.sp.mem(
                                    sites@[z].in_sp,
                                    p,
                                ) implies forward.lists(
                                    o,
                                    State::<Place<C>>::Outer(a),
                                    i as int,
                                    p,
                                ) by {
                                    assert(si.sp.mem(in_sp, p));
                                }
                                lemma_edge_just(
                                    sites@[z],
                                    *store,
                                    inst,
                                    o,
                                    forward,
                                    backward,
                                    t,
                                    a,
                                    k as int,
                                    i as int,
                                    j as int,
                                );
                            }
                        }
                        assert forall|y: int, z: int, p: Pkt, m: Pkt| #[trigger]
                            breaks_out(
                                inst,
                                o,
                                forward,
                                backward,
                                n as nat,
                                a,
                                k as int,
                                y,
                                z,
                                p,
                                m,
                            ) && y == i && z == j implies site_listed(
                            sites@,
                            *store,
                            hole,
                            p,
                            m,
                            t.subrange(y + 1, z + 1),
                        ) by {
                            assert(si.sp.mem(in_sp, p));
                            assert(store.sp.mem(in_sp, p));
                            assert(store.sp.mem(out_sp, m));
                            assert(site_is(
                                sites@.last(),
                                *store,
                                hole,
                                p,
                                m,
                                t.subrange(y + 1, z + 1),
                            ));
                            assert(sites@.last() == sites@[sites@.len() - 1]);
                        }
                    }
                }
                j = j + 1;
            }
        } else {
            proof {
                assert forall|z: int, p: Pkt, m: Pkt|
                    !(#[trigger] breaks_out(
                        inst,
                        o,
                        forward,
                        backward,
                        n as nat,
                        a,
                        k as int,
                        i as int,
                        z,
                        p,
                        m,
                    )) by {
                    store.lemma_sets_n();
                    if p.len() == o.n() {
                        assert(!store.sp.mem(in_sp, p));
                    }
                }
            }
        }
        i = i + 1;
    }
}


/// A run is, with a packet that is reached now, at a hole in which it can end.
pub open spec fn runs_out<C: ENFA>(
    x: &Instantiate<C>,
    st: SPPstore,
    forward: &Reach<State<C::State>>,
    n: nat,
    a: usize,
    k: int,
    i: int,
    p: Pkt,
) -> bool {
    &&& a < x.graph.states@.len()
    &&& 0 <= k < x.graph.ends@[a as int]@.len()
    &&& 0 <= i < n
    &&& p.len() == st.n()
    &&& forward.lists(st, State::<Place<C>>::Outer(a), i, p)
}

/// The sites of one hole in which a run can end.
fn end_sites<'t, C: ENFA>(
    store: &mut SPPstore,
    inst: &Instantiate<C>,
    trace: &'t [Vec<bool>],
    output: &[bool],
    forward: &Reach<State<C::State>>,
    a: usize,
    k: usize,
    hole: Hole,
    sites: &mut Vec<HoleSite<'t>>,
)
    requires
        old(store).wf(),
        forall|i: int| 0 <= i < trace@.len() ==> (#[trigger] trace@[i])@.len() == old(store).n(),
        output@.len() == old(store).n(),
        a < inst.graph.states@.len(),
        k < inst.graph.ends@[a as int]@.len(),
        inst.graph.ends@[a as int]@[k as int] == EdgeLabel::Abstract(hole),
        forward.wf(*old(store), trace@.len()),
        forall|i: int| 0 <= i < old(sites)@.len() ==> site_ok(#[trigger] old(sites)@[i], *old(store)),
    ensures
        final(store).wf(),
        final(store).extends(old(store)),
        old(sites)@.len() <= final(sites)@.len(),
        forall|i: int| 0 <= i < old(sites)@.len() ==> #[trigger] final(sites)@[i] == old(sites)@[i],
        forall|i: int| 0 <= i < final(sites)@.len() ==> site_ok(#[trigger] final(sites)@[i], *final(store)),
        forall|i: int, p: Pkt| #[trigger]
            runs_out(inst, *old(store), forward, trace@.len(), a, k as int, i, p) ==> site_listed(
                final(sites)@,
                *final(store),
                hole,
                p,
                output@,
                packets(trace@).subrange(i + 1, trace@.len() as int),
            ),
        forall|i: int|
            old(sites)@.len() <= i < final(sites)@.len() ==> end_just(
                #[trigger] final(sites)@[i],
                *final(store),
                inst,
                *old(store),
                forward,
                packets(trace@),
                output@,
            ),
{
    let ghost o = *store;
    let ghost sites0 = sites@;
    let ghost t = packets(trace@);
    let n: usize = trace.len();
    let out_sp = singleton_sp(store, output);
    let ghost s1 = *store;
    proof {
        lemma_sites_kept(sites0, s1, sites0, o);
        s1.lemma_wf();
        s1.lemma_sets_n();
        assert(s1.sp.mem(out_sp, output@));
        s1.sp.lemma_nonzero(out_sp);
        lemma_reach_ext::<C>(forward, s1, o, n as nat);
    }
    let mut i: usize = 0;
    while i < n
        invariant
            n == trace@.len(),
            t == packets(trace@),
            o.wf(),
            s1.wf(),
            s1.extends(&o),
            *store == s1,
            s1.sp.wf(),
            s1.sp.has(out_sp),
            out_sp != s1.sp.zero,
            forall|p: Pkt|
                #![trigger s1.sp.mem(out_sp, p)]
                p.len() == o.n() ==> (s1.sp.mem(out_sp, p) <==> p == output@),
            a < inst.graph.states@.len(),
            k < inst.graph.ends@[a as int]@.len(),
            inst.graph.ends@[a as int]@[k as int] == EdgeLabel::Abstract(hole),
            output@.len() == o.n(),
            s1.sp.n() == o.n(),
            s1.n() == o.n(),
            forall|i: int| 0 <= i < trace@.len() ==> (#[trigger] trace@[i])@.len() == o.n(),
            forward.wf(s1, n as nat),
            forall|q: State<Place<C>>, i: int, p: Pkt|
                #![trigger forward.lists(s1, q, i, p)]
                0 <= i < n && p.len() == o.n() ==> forward.lists(s1, q, i, p) == forward.lists(
                    o,
                    q,
                    i,
                    p,
                ),
            i <= n,
            sites0.len() <= sites@.len(),
            forall|i: int| 0 <= i < sites0.len() ==> #[trigger] sites@[i] == sites0[i],
            forall|i: int| 0 <= i < sites@.len() ==> site_ok(#[trigger] sites@[i], s1),
            forall|i: int|
                sites0.len() <= i < sites@.len() ==> end_just(
                    #[trigger] sites@[i],
                    s1,
                    inst,
                    o,
                    forward,
                    t,
                    output@,
                ),
            forall|y: int, p: Pkt| #[trigger]
                runs_out(inst, o, forward, n as nat, a, k as int, y, p) && y < i ==> site_listed(
                    sites@,
                    s1,
                    hole,
                    p,
                    output@,
                    t.subrange(y + 1, n as int),
                ),
        decreases n - i,
    {
        let ghost before = sites@;
        let in_sp = packets_at::<C>(forward, store, a, i, n);
        if !store.sp.is_zero(in_sp) {
            let part = part_of(trace, i, n - 1);
            sites.push(HoleSite { hole, in_sp, trace: part, out_sp });
        }
        proof {
            lemma_sites_kept(sites@, s1, before, s1);
            assert forall|z: int| sites0.len() <= z < sites@.len() implies end_just(
                #[trigger] sites@[z],
                s1,
                inst,
                o,
                forward,
                t,
                output@,
            ) by {
                if z < before.len() {
                    assert(sites@[z] == before[z]);
                } else {
                    assert forall|p: Pkt| p.len() == o.n() && #[trigger] s1.sp.mem(
                        sites@[z].in_sp,
                        p,
                    ) implies forward.lists(o, State::<Place<C>>::Outer(a), i as int, p) by {
                        assert(forward.lists(s1, State::<Place<C>>::Outer(a), i as int, p));
                    }
                    lemma_end_just(
                        sites@[z],
                        s1,
                        inst,
                        o,
                        forward,
                        t,
                        output@,
                        a,
                        k as int,
                        i as int,
                    );
                }
            }
            assert forall|y: int, p: Pkt| #[trigger]
                runs_out(inst, o, forward, n as nat, a, k as int, y, p) && y == i
                implies site_listed(
                sites@,
                s1,
                hole,
                p,
                output@,
                t.subrange(y + 1, n as int),
            ) by {
                assert(forward.lists(s1, State::<Place<C>>::Outer(a), i as int, p));
                assert(s1.sp.mem(in_sp, p));
                let z = sites@.len() - 1;
                assert(site_is(
                    sites@[z],
                    s1,
                    hole,
                    p,
                    output@,
                    t.subrange(y + 1, n as int),
                ));
            }
        }
        i = i + 1;
    }
}

/// All edges with a hole among the first `ka` of state `a`, and all of the states
/// before, have their sites.
spec fn edges_sited<C: ENFA>(
    x: &Instantiate<C>,
    o: SPPstore,
    st: SPPstore,
    forward: &Reach<State<C::State>>,
    backward: &Reach<State<C::State>>,
    t: Seq<Pkt>,
    sites: Seq<HoleSite>,
    a: int,
    ka: int,
) -> bool {
    forall|b: usize, k: int, i: int, j: int, p: Pkt, m: Pkt| #[trigger]
        breaks_out(x, o, forward, backward, t.len(), b, k, i, j, p, m) && (b < a || (b == a && k
            < ka)) ==> (x.graph.edges@[b as int]@[k].0 matches EdgeLabel::Abstract(h)
            ==> site_listed(sites, st, h, p, m, t.subrange(i + 1, j + 1)))
}

/// All ends with a hole among the first `ka` of state `a`, and all of the states
/// before, have their sites.
spec fn ends_sited<C: ENFA>(
    x: &Instantiate<C>,
    o: SPPstore,
    st: SPPstore,
    forward: &Reach<State<C::State>>,
    t: Seq<Pkt>,
    output: Pkt,
    sites: Seq<HoleSite>,
    a: int,
    ka: int,
) -> bool {
    forall|b: usize, k: int, i: int, p: Pkt| #[trigger]
        runs_out(x, o, forward, t.len(), b, k, i, p) && (b < a || (b == a && k < ka)) ==> (
        x.graph.ends@[b as int]@[k] matches EdgeLabel::Abstract(h) ==> site_listed(
            sites,
            st,
            h,
            p,
            output,
            t.subrange(i + 1, t.len() as int),
        ))
}

/// Every site is one through which a run on the word could leave what is reached now.
pub open spec fn sites_just<C: ENFA>(
    x: &Instantiate<C>,
    o: SPPstore,
    st: SPPstore,
    forward: &Reach<State<C::State>>,
    backward: &Reach<State<C::State>>,
    t: Seq<Pkt>,
    output: Pkt,
    sites: Seq<HoleSite>,
) -> bool {
    forall|i: int|
        0 <= i < sites.len() ==> edge_just(#[trigger] sites[i], st, x, o, forward, backward, t)
            || end_just(sites[i], st, x, o, forward, t, output)
}

/// Every hole through which a run on the word could leave what is reached now.
pub open spec fn all_sited<C: ENFA>(
    x: &Instantiate<C>,
    o: SPPstore,
    st: SPPstore,
    forward: &Reach<State<C::State>>,
    backward: &Reach<State<C::State>>,
    t: Seq<Pkt>,
    output: Pkt,
    sites: Seq<HoleSite>,
) -> bool {
    &&& forall|b: usize, k: int, i: int, j: int, p: Pkt, m: Pkt| #[trigger]
        breaks_out(x, o, forward, backward, t.len(), b, k, i, j, p, m) ==> (
        x.graph.edges@[b as int]@[k].0 matches EdgeLabel::Abstract(h) ==> site_listed(
            sites,
            st,
            h,
            p,
            m,
            t.subrange(i + 1, j + 1),
        ))
    &&& forall|b: usize, k: int, i: int, p: Pkt| #[trigger]
        runs_out(x, o, forward, t.len(), b, k, i, p) ==> (
        x.graph.ends@[b as int]@[k] matches EdgeLabel::Abstract(h) ==> site_listed(
            sites,
            st,
            h,
            p,
            output,
            t.subrange(i + 1, t.len() as int),
        ))
}

/// More sites, found in a store that grew.
proof fn lemma_sites_just<C: ENFA>(
    x: &Instantiate<C>,
    o: SPPstore,
    st: SPPstore,
    s1: SPPstore,
    forward: &Reach<State<C::State>>,
    backward: &Reach<State<C::State>>,
    t: Seq<Pkt>,
    out: Pkt,
    sites: Seq<HoleSite>,
    before: Seq<HoleSite>,
)
    requires
        o.wf(),
        s1.wf(),
        s1.extends(&o),
        st.extends(&s1),
        forward.wf(o, t.len()),
        backward.wf(o, t.len()),
        sites_just(x, o, s1, forward, backward, t, out, before),
        forall|i: int| 0 <= i < before.len() ==> site_ok(#[trigger] before[i], s1),
        before.len() <= sites.len(),
        forall|i: int| 0 <= i < before.len() ==> #[trigger] sites[i] == before[i],
        forall|i: int|
            before.len() <= i < sites.len() ==> edge_just(
                #[trigger] sites[i],
                st,
                x,
                s1,
                forward,
                backward,
                t,
            ) || end_just(sites[i], st, x, s1, forward, t, out),
    ensures
        sites_just(x, o, st, forward, backward, t, out, sites),
{
    assert forall|i: int| 0 <= i < sites.len() implies edge_just(
        #[trigger] sites[i],
        st,
        x,
        o,
        forward,
        backward,
        t,
    ) || end_just(sites[i], st, x, o, forward, t, out) by {
        if i < before.len() {
            assert(sites[i] == before[i]);
            assert(site_ok(before[i], s1));
            lemma_just_kept(before[i], st, s1, x, o, forward, backward, t, out);
        } else {
            lemma_just_before(sites[i], st, x, s1, o, forward, backward, t, out);
        }
    }
}

/// The sites of all holes of the automaton along a word.
pub fn collect_hole_sites<'t, C: ENFA>(
    inst: &Instantiate<C>,
    trace: &'t [Vec<bool>],
    output: &[bool],
    forward: &Reach<State<C::State>>,
    backward: &Reach<State<C::State>>,
    store: &mut SPPstore,
) -> (sites: Vec<HoleSite<'t>>)
    requires
        old(store).wf(),
        inst.valid(*old(store)),
        forall|i: int| 0 <= i < trace@.len() ==> (#[trigger] trace@[i])@.len() == old(store).n(),
        output@.len() == old(store).n(),
        forward.wf(*old(store), trace@.len()),
        backward.wf(*old(store), trace@.len()),
    ensures
        final(store).wf(),
        final(store).extends(old(store)),
        forall|i: int| 0 <= i < sites@.len() ==> site_ok(#[trigger] sites@[i], *final(store)),
        all_sited(
            inst,
            *old(store),
            *final(store),
            forward,
            backward,
            packets(trace@),
            output@,
            sites@,
        ),
        sites_just(
            inst,
            *old(store),
            *final(store),
            forward,
            backward,
            packets(trace@),
            output@,
            sites@,
        ),
{
    let ghost o = *store;
    let ghost t = packets(trace@);
    let mut sites: Vec<HoleSite<'t>> = Vec::new();
    let mut a: usize = 0;
    while a < inst.graph.states.len()
        invariant
            o.wf(),
            store.wf(),
            store.extends(&o),
            inst.valid(o),
            t == packets(trace@),
            forall|i: int| 0 <= i < trace@.len() ==> (#[trigger] trace@[i])@.len() == o.n(),
            output@.len() == o.n(),
            forward.wf(o, trace@.len()),
            backward.wf(o, trace@.len()),
            a <= inst.graph.states@.len(),
            forall|i: int| 0 <= i < sites@.len() ==> site_ok(#[trigger] sites@[i], *store),
            sites_just(inst, o, *store, forward, backward, t, output@, sites@),
            edges_sited(inst, o, *store, forward, backward, t, sites@, a as int, 0),
            ends_sited(inst, o, *store, forward, t, output@, sites@, a as int, 0),
        decreases inst.graph.states.len() - a,
    {
        proof {
            inst.lemma_row(o, a as int);
        }
        let mut k: usize = 0;
        while k < inst.graph.edges[a].len()
            invariant
                o.wf(),
                store.wf(),
                store.extends(&o),
                inst.valid(o),
                t == packets(trace@),
                forall|i: int| 0 <= i < trace@.len() ==> (#[trigger] trace@[i])@.len() == o.n(),
                output@.len() == o.n(),
                forward.wf(o, trace@.len()),
                backward.wf(o, trace@.len()),
                a < inst.graph.states@.len(),
                inst.graph.edges@.len() == inst.graph.states@.len(),
                inst.graph.ends@.len() == inst.graph.states@.len(),
                k <= inst.graph.edges@[a as int]@.len(),
                forall|k: int|
                    0 <= k < inst.graph.edges@[a as int]@.len() ==> (
                    #[trigger] inst.graph.edges@[a as int]@[k]).1 < inst.graph.states@.len(),
                forall|i: int| 0 <= i < sites@.len() ==> site_ok(#[trigger] sites@[i], *store),
                sites_just(inst, o, *store, forward, backward, t, output@, sites@),
                edges_sited(inst, o, *store, forward, backward, t, sites@, a as int, k as int),
                ends_sited(inst, o, *store, forward, t, output@, sites@, a as int, 0),
            decreases inst.graph.edges@[a as int]@.len() - k,
        {
            match inst.graph.edges[a][k].0 {
                EdgeLabel::Abstract(h) => {
                    let ghost before = sites@;
                    let ghost s1 = *store;
                    proof {
                        lemma_reach_ext::<C>(forward, s1, o, trace@.len());
                        lemma_reach_ext::<C>(backward, s1, o, trace@.len());
                    }
                    edge_sites(store, inst, trace, forward, backward, a, k, h, &mut sites);
                    proof {
                        lemma_sites_kept(sites@, *store, before, s1);
                        lemma_sites_just(
                            inst,
                            o,
                            *store,
                            s1,
                            forward,
                            backward,
                            t,
                            output@,
                            sites@,
                            before,
                        );
                        assert forall|b: usize, z: int, i: int, j: int, p: Pkt, m: Pkt| #[trigger]
                            breaks_out(inst, o, forward, backward, t.len(), b, z, i, j, p, m) && (b
                                < a || (b == a && z < k + 1)) implies (
                        inst.graph.edges@[b as int]@[z].0 matches EdgeLabel::Abstract(g)
                            ==> site_listed(
                            sites@,
                            *store,
                            g,
                            p,
                            m,
                            t.subrange(i + 1, j + 1),
                        )) by {
                            if b == a && z == k {
                                assert(breaks_out(
                                    inst,
                                    s1,
                                    forward,
                                    backward,
                                    t.len(),
                                    b,
                                    z,
                                    i,
                                    j,
                                    p,
                                    m,
                                ));
                            }
                        }
                    }
                },
                EdgeLabel::Concrete(_) => {},
            }
            k = k + 1;
        }
        proof {
            assert forall|b: usize, z: int, i: int, j: int, p: Pkt, m: Pkt| #[trigger]
                breaks_out(inst, o, forward, backward, t.len(), b, z, i, j, p, m) && b < a + 1
                implies (inst.graph.edges@[b as int]@[z].0 matches EdgeLabel::Abstract(g)
                ==> site_listed(sites@, *store, g, p, m, t.subrange(i + 1, j + 1))) by {}
            assert(edges_sited(inst, o, *store, forward, backward, t, sites@, a + 1, 0));
        }
        let mut k: usize = 0;
        while k < inst.graph.ends[a].len()
            invariant
                o.wf(),
                store.wf(),
                store.extends(&o),
                inst.valid(o),
                t == packets(trace@),
                forall|i: int| 0 <= i < trace@.len() ==> (#[trigger] trace@[i])@.len() == o.n(),
                output@.len() == o.n(),
                forward.wf(o, trace@.len()),
                backward.wf(o, trace@.len()),
                a < inst.graph.states@.len(),
                inst.graph.ends@.len() == inst.graph.states@.len(),
                k <= inst.graph.ends@[a as int]@.len(),
                forall|i: int| 0 <= i < sites@.len() ==> site_ok(#[trigger] sites@[i], *store),
                sites_just(inst, o, *store, forward, backward, t, output@, sites@),
                edges_sited(inst, o, *store, forward, backward, t, sites@, a + 1, 0),
                ends_sited(inst, o, *store, forward, t, output@, sites@, a as int, k as int),
            decreases inst.graph.ends@[a as int]@.len() - k,
        {
            match inst.graph.ends[a][k] {
                EdgeLabel::Abstract(h) => {
                    let ghost before = sites@;
                    let ghost s1 = *store;
                    proof {
                        lemma_reach_ext::<C>(forward, s1, o, trace@.len());
                    }
                    end_sites(store, inst, trace, output, forward, a, k, h, &mut sites);
                    proof {
                        lemma_sites_kept(sites@, *store, before, s1);
                        lemma_sites_just(
                            inst,
                            o,
                            *store,
                            s1,
                            forward,
                            backward,
                            t,
                            output@,
                            sites@,
                            before,
                        );
                        assert forall|b: usize, z: int, i: int, p: Pkt| #[trigger]
                            runs_out(inst, o, forward, t.len(), b, z, i, p) && (b < a || (b == a
                                && z < k + 1)) implies (
                        inst.graph.ends@[b as int]@[z] matches EdgeLabel::Abstract(g)
                            ==> site_listed(
                            sites@,
                            *store,
                            g,
                            p,
                            output@,
                            t.subrange(i + 1, t.len() as int),
                        )) by {
                            if b == a && z == k {
                                assert(runs_out(inst, s1, forward, t.len(), b, z, i, p));
                            }
                        }
                        assert(edges_sited(
                            inst,
                            o,
                            *store,
                            forward,
                            backward,
                            t,
                            sites@,
                            a + 1,
                            0,
                        ));
                    }
                },
                EdgeLabel::Concrete(_) => {},
            }
            k = k + 1;
        }
        proof {
            assert(ends_sited(inst, o, *store, forward, t, output@, sites@, a + 1, 0));
        }
        a = a + 1;
    }
    sites
}


// ---- the clause of a word that is missing ------------------------------------------------------

/// A word from the one set to the other is a word, if the recorded packets are
/// packets.
proof fn lemma_span_is_word(n: nat, p: Pkt, t: Seq<Pkt>, q: Pkt)
    requires
        p.len() == n,
        q.len() == n,
        forall|i: int| 0 <= i < t.len() ==> (#[trigger] t[i]).len() == n,
    ensures
        is_word(n, span_word(p, t, q)),
{
    let w = span_word(p, t, q);
    assert forall|i: int| 0 <= i < w.len() implies (#[trigger] w[i]).len() == n by {
        if 0 < i <= t.len() {
            assert(w[i] == t[i - 1]);
        }
    }
}

/// What a slot spans is kept when the store grows.
proof fn lemma_spans_kept<'a, C: Candidate<'a>>(
    v: C::Var,
    st: SPPstore,
    so: SPPstore,
    dfa: &'a ExplicitDFA,
    g: Guess,
    a: SP,
    b: SP,
    t: Seq<Pkt>,
)
    requires
        so.wf(),
        st.wf(),
        st.extends(&so),
        dfa.valid(so),
        forall|i: int| 0 <= i < t.len() ==> (#[trigger] t[i]).len() == so.n(),
    ensures
        spans(C::slot_lang(v, st, dfa, g), st.sp, a, b, t) == spans(
            C::slot_lang(v, so, dfa, g),
            st.sp,
            a,
            b,
            t,
        ),
{
    let l = C::slot_lang(v, st, dfa, g);
    let m = C::slot_lang(v, so, dfa, g);
    C::lemma_slot(v, st, so, dfa, g);
    st.lemma_sets_n();
    assert forall|p: Pkt, q: Pkt| p.len() == so.n() && q.len() == so.n() implies l(
        #[trigger] span_word(p, t, q),
    ) == m(span_word(p, t, q)) by {
        lemma_span_is_word(so.n(), p, t, q);
    }
    if spans(l, st.sp, a, b, t) {
        let (p, q) = choose|p: Pkt, q: Pkt|
            p.len() == st.sp.n() && q.len() == st.sp.n() && st.sp.mem(a, p) && st.sp.mem(b, q)
                && l(#[trigger] span_word(p, t, q));
        assert(m(span_word(p, t, q)));
    }
    if spans(m, st.sp, a, b, t) {
        let (p, q) = choose|p: Pkt, q: Pkt|
            p.len() == st.sp.n() && q.len() == st.sp.n() && st.sp.mem(a, p) && st.sp.mem(b, q)
                && m(#[trigger] span_word(p, t, q));
        assert(l(span_word(p, t, q)));
    }
}

/// The slot has, as the guess has it, the word between the packets.
pub open spec fn slot_has<'a, C: Candidate<'a>>(
    v: C::Var,
    so: SPPstore,
    dfa: &'a ExplicitDFA,
    g: Guess,
    p: Pkt,
    t: Seq<Pkt>,
    q: Pkt,
) -> bool {
    C::slot_lang(v, so, dfa, g)(span_word(p, t, q))
}

/// The slot has, as the guess has it, a word between the sets.
pub open spec fn bridged<'a, C: Candidate<'a>>(
    v: C::Var,
    so: SPPstore,
    dfa: &'a ExplicitDFA,
    g: Guess,
    st: SPstore,
    a: SP,
    b: SP,
    t: Seq<Pkt>,
) -> bool {
    exists|p: Pkt, q: Pkt|
        p.len() == so.n() && q.len() == so.n() && st.mem(a, p) && st.mem(b, q)
            && #[trigger] slot_has::<C>(v, so, dfa, g, p, t, q)
}

/// Makes the literal that a slot has a word between two sets, and keeps it with its
/// claim.  No literal is made if no guess has such a word.
pub(crate) fn bank_span<'a, C: Candidate<'a>, L: SmtLearner<'a>>(
    var: C::Var,
    learner: &mut L,
    store: &mut SPPstore,
    dfa: &'a ExplicitDFA,
    in_sp: SP,
    out_sp: SP,
    part: &[Vec<bool>],
    lits: &mut Vec<Literal>,
    Ghost(o): Ghost<L>,
    Ghost(so): Ghost<SPPstore>,
    Ghost(claims): Ghost<Seq<Claim>>,
) -> (r: (bool, Ghost<Seq<Claim>>))
    requires
        so.wf(),
        dfa.valid(so),
        old(store).wf(),
        old(store).extends(&so),
        so.n() == o.n(),
        banked(*old(learner), o, old(store).sp, old(lits)@, claims),
        C::placed(var, o.slots(), o.automata(), dfa),
        old(store).sp.has(in_sp),
        old(store).sp.has(out_sp),
        in_sp != old(store).sp.zero,
        out_sp != old(store).sp.zero,
        forall|i: int| 0 <= i < part@.len() ==> (#[trigger] part@[i])@.len() == so.n(),
    ensures
        final(store).wf(),
        final(store).extends(old(store)),
        banked(*final(learner), o, final(store).sp, final(lits)@, r.1@),
        if r.0 {
            &&& r.1@.len() == claims.len() + 1
            &&& r.1@.drop_last() == claims
            &&& r.1@.last()(everything())
            &&& forall|g: Guess, p: Pkt, q: Pkt|
                p.len() == so.n() && q.len() == so.n() && old(store).sp.mem(in_sp, p) && old(store).sp.mem(out_sp, q) && #[trigger] slot_has::<C>(
                    var,
                    so,
                    dfa,
                    g,
                    p,
                    packets(part@),
                    q,
                ) ==> r.1@.last()(g)
            &&& forall|g: Guess| #[trigger]
                r.1@.last()(g) ==> bridged::<C>(
                    var,
                    so,
                    dfa,
                    g,
                    old(store).sp,
                    in_sp,
                    out_sp,
                    packets(part@),
                )
        } else {
            &&& r.1@ == claims
            &&& forall|g: Guess, p: Pkt, q: Pkt|
                p.len() == so.n() && q.len() == so.n() && old(store).sp.mem(in_sp, p) && old(store).sp.mem(out_sp, q) ==> !(#[trigger] slot_has::<C>(
                    var,
                    so,
                    dfa,
                    g,
                    p,
                    packets(part@),
                    q,
                ))
        },
{
    let ghost s1 = *store;
    let ghost l1 = *learner;
    let ghost t = packets(part@);
    let ghost lits0 = lits@;
    proof {
        s1.lemma_wf();
        s1.lemma_sets_n();
        assert forall|i: int| 0 <= i < t.len() implies (#[trigger] t[i]).len() == so.n() by {
            assert(t[i] == part@[i]@);
        }
        dfa.lemma_valid(s1, so);
        assert forall|g: Guess, p: Pkt, q: Pkt|
            p.len() == so.n() && q.len() == so.n() && s1.sp.mem(in_sp, p) && s1.sp.mem(out_sp, q)
                && #[trigger] slot_has::<C>(var, so, dfa, g, p, t, q) implies spans(
            C::slot_lang(var, s1, dfa, g),
            s1.sp,
            in_sp,
            out_sp,
            t,
        ) by {
            lemma_spans_kept::<C>(var, s1, so, dfa, g, in_sp, out_sp, t);
            assert(C::slot_lang(var, so, dfa, g)(span_word(p, t, q)));
        }
    }
    match C::accept_literal(var, learner, store, dfa, in_sp, out_sp, part) {
        Some(l) => {
            let ghost mut c2 = claims;
            proof {
                let s2 = *store;
                s2.lemma_wf();
                let claim = choose|claim: spec_fn(Guess) -> bool| #[trigger]
                    gains(*learner, l1, s2.sp, l, claim) && claim(everything()) && forall|
                        g: Guess,
                    | #[trigger]
                        claim(g) == spans(
                            C::slot_lang(var, s1, dfa, g),
                            s1.sp,
                            in_sp,
                            out_sp,
                            packets(part@),
                        );
                lemma_bank_push(*learner, l1, o, s2.sp, s1.sp, lits0, claims, l, claim);
                c2 = claims.push(claim);
                assert(c2.drop_last() =~= claims);
                assert forall|g: Guess| #[trigger] c2.last()(g) implies bridged::<C>(
                    var,
                    so,
                    dfa,
                    g,
                    s1.sp,
                    in_sp,
                    out_sp,
                    t,
                ) by {
                    lemma_spans_kept::<C>(var, s1, so, dfa, g, in_sp, out_sp, t);
                    let l = C::slot_lang(var, so, dfa, g);
                    assert(spans(l, s1.sp, in_sp, out_sp, t));
                    let (p, q) = choose|p: Pkt, q: Pkt|
                        p.len() == s1.sp.n() && q.len() == s1.sp.n() && s1.sp.mem(in_sp, p)
                            && s1.sp.mem(out_sp, q) && l(#[trigger] span_word(p, t, q));
                    assert(slot_has::<C>(var, so, dfa, g, p, t, q));
                }
            }
            lits.push(l);
            (true, Ghost(c2))
        },
        None => {
            proof {
                lemma_bank_store(l1, o, store.sp, s1.sp, lits0, claims);
            }
            (false, Ghost(claims))
        },
    }
}


/// A concrete step from a place that is reached leads to one that is.
pub(crate) proof fn lemma_concrete_step<C: ENFA>(
    x: &Instantiate<C>,
    st: SPPstore,
    t: Seq<Pkt>,
    a: usize,
    i: int,
    p: Pkt,
    k: int,
    m: Pkt,
)
    requires
        a < x.graph.states@.len(),
        0 <= i < t.len(),
        0 <= k < x.graph.edges@[a as int]@.len(),
        x.graph.edges@[a as int]@[k].0 matches EdgeLabel::Concrete(s) && st.rel(s, p, m),
        placed_at(
            x,
            st,
            t,
            x.graph.edges@[a as int]@[k].1,
            lands(x, x.graph.edges@[a as int]@[k].1, i),
            m,
        ),
    ensures
        x.step(
            st,
            State::<Place<C>>::Outer(a),
            p,
            State::<Place<C>>::Outer(x.graph.edges@[a as int]@[k].1),
            m,
        ),
        follows(x, st, t, State::<Place<C>>::Outer(a), i, p) ==> follows(
            x,
            st,
            t,
            State::<Place<C>>::Outer(x.graph.edges@[a as int]@[k].1),
            lands(x, x.graph.edges@[a as int]@[k].1, i),
            m,
        ),
{
    let q = State::<Place<C>>::Outer(a);
    let b = x.graph.edges@[a as int]@[k].1;
    let r = State::<Place<C>>::Outer(b);
    let es = x.graph.edges@[a as int]@;
    assert(x.edge_step(st, es[k], p, r, m));
    assert(x.edges_step(st, es, p, r, m));
    assert(x.step(st, q, p, r, m));
    if follows(x, st, t, q, i, p) {
        assert(next_at(x, r, i) == lands(x, b, i));
        lemma_follows_step(x, st, t, q, i, p, r, m);
    }
}

/// A concrete end of the word: the automaton has the rest of the word from there.
pub(crate) proof fn lemma_concrete_end<C: ENFA>(
    x: &Instantiate<C>,
    st: SPPstore,
    hs: Fill,
    t: Seq<Pkt>,
    out: Pkt,
    a: usize,
    i: int,
    p: Pkt,
    k: int,
)
    requires
        forall|j: int| 0 <= j < t.len() ==> (#[trigger] t[j]).len() == st.n(),
        out.len() == st.n(),
        placed_at(x, st, t, a, i, p),
        0 <= k < x.graph.ends@[a as int]@.len(),
        x.graph.ends@[a as int]@[k] is Concrete,
        label_lang(st, hs, x.graph.ends@[a as int]@[k])(word_from(t, out, i, p)),
    ensures
        accepts_from(x, st, State::<Place<C>>::Outer(a), word_from(t, out, i, p)),
{
    let w = word_from(t, out, i, p);
    lemma_word_from(st.n(), t, out, i, p);
    let ls = x.graph.ends@[a as int]@;
    let q = State::<Place<C>>::Outer(a);
    assert(x.label_out(st, ls[k], w[0], w[1]));
    assert(x.labels_out(st, ls, w[0], w[1]));
    lemma_first(x, st, q, w);
}

/// The word is not one of the automaton: nothing that is reached has the rest.
pub(crate) proof fn lemma_not_both<C: ENFA>(
    x: &Instantiate<C>,
    st: SPPstore,
    t: Seq<Pkt>,
    out: Pkt,
    a: usize,
    i: int,
    p: Pkt,
)
    requires
        forall|j: int| 0 <= j < t.len() ==> (#[trigger] t[j]).len() == st.n(),
        out.len() == st.n(),
        0 <= i < t.len(),
        !enfa_lang(x, st)(t.push(out)),
        follows(x, st, t, State::<Place<C>>::Outer(a), i, p),
    ensures
        !accepts_from(x, st, State::<Place<C>>::Outer(a), word_from(t, out, i, p)),
{
    let q = State::<Place<C>>::Outer(a);
    if accepts_from(x, st, q, word_from(t, out, i, p)) {
        let path = choose|path: Seq<(Place<Instantiate<C>>, Pkt)>| #[trigger]
            is_path(x, st, path) && path[0].0 == x.init() && path.last() == (q, p) && trace_of(
                x,
                path,
            ) == t.take(i + 1);
        lemma_meet(x, st, t, out, q, i, p, path);
    }
}

/// The word at the end of which a run is in a hole.
pub(crate) proof fn lemma_end_word(n: nat, t: Seq<Pkt>, out: Pkt, i: int, p: Pkt)
    requires
        0 <= i < t.len(),
    ensures
        word_from(t, out, i, p) == span_word(p, t.subrange(i + 1, t.len() as int), out),
{
    assert(word_from(t, out, i, p) =~= span_word(p, t.subrange(i + 1, t.len() as int), out));
}

/// The label of a concrete edge takes one step.
pub(crate) proof fn lemma_one_step(t: Seq<Pkt>, st: SPPstore, s: SPP, hs: Fill, i: int, j: int, p: Pkt, m: Pkt)
    requires
        0 <= i <= j < t.len(),
        label_lang(st, hs, EdgeLabel::Concrete(s))(span_word(p, t.subrange(i + 1, j + 1), m)),
    ensures
        i == j,
        st.rel(s, p, m),
{
    let w = span_word(p, t.subrange(i + 1, j + 1), m);
    assert(w.len() == j - i + 2);
    assert(w[0] == p && w.last() == m);
}

/// The sites cover every filling with which the automaton has the word: a run on it
/// goes through one of them.
proof fn lemma_frontier<C: ENFA>(
    x: &Instantiate<C>,
    top: &Instantiate<C>,
    s0: SPPstore,
    s2: SPPstore,
    s3: SPPstore,
    s4: SPPstore,
    forward: &Reach<State<C::State>>,
    backward: &Reach<State<C::State>>,
    t: Seq<Pkt>,
    out: Pkt,
    sites: Seq<HoleSite>,
    hs: Fill,
    goal: bool,
)
    requires
        s0.wf(),
        s2.wf(),
        s2.extends(&s0),
        s3.wf(),
        s3.extends(&s0),
        x.valid(s0),
        top.valid(s2),
        top.aut == x.aut,
        top.graph == x.graph,
        below_fill(x, s2, hs, top.fill(s2)),
        t.len() > 0,
        x.graph.states@[0].visible,
        forall|j: int| 0 <= j < t.len() ==> (#[trigger] t[j]).len() == s0.n(),
        out.len() == s0.n(),
        !enfa_lang(x, s0)(t.push(out)),
        forall|q: State<Place<C>>, i: int, p: Pkt|
            0 <= i < t.len() && p.len() == s0.n() ==> (#[trigger] forward.lists(s3, q, i, p)
                <==> follows(x, s0, t, q, i, p)),
        forall|b: usize, i: int, p: Pkt|
            b < x.graph.states@.len() && 0 <= i < t.len() && p.len() == s0.n() ==> (
            #[trigger] backward.lists(s3, State::<Place<C>>::Outer(b), i, p) <==> completes(
                top,
                s2,
                t,
                out,
                State::<Place<C>>::Outer(b),
                i,
                p,
            )),
        all_sited(x, s3, s4, forward, backward, t, out, sites),
        forall|h: Hole, p: Pkt, m: Pkt, ts: Seq<Pkt>| #[trigger]
            site_listed(sites, s4, h, p, m, ts) && x.aut.uses(h) && p.len() == s0.n() && m.len()
                == s0.n() && hs(h)(span_word(p, ts, m)) ==> goal,
        x.aut.accepts(s0, hs, x.graph.states@[0].aexpr, t.push(out)),
    ensures
        goal,
{
    let n = s0.n();
    let ins: Places = |a: usize, i: int, p: Pkt|
        follows(x, s0, t, State::<Place<C>>::Outer(a), i, p);
    x.aut.lemma_wf_ext(s2, s0);
    assert forall|a: usize, i: int, p: Pkt| #[trigger]
        ins(a, i, p) && placed_at(x, s0, t, a, i, p) implies stays(
        x,
        s0,
        hs,
        t,
        out,
        ins,
        goal,
        a,
        i,
        p,
    ) by {
        x.lemma_row(s0, a as int);
        assert(graph_row(x.aut, s0, x.graph, a as int));
        let es = x.graph.edges@[a as int]@;
        let ls = x.graph.ends@[a as int]@;
        let ts0 = targets(x.graph.states@, es);
        assert(forward.lists(s3, State::<Place<C>>::Outer(a), i, p));
        assert forall|k: int, j: int, m: Pkt, c: nat| #[trigger]
            goes(x, s0, hs, t, out, a, i, p, k, j, m, c) implies goal || ins(
            es[k].1,
            lands(x, es[k].1, j),
            m,
        ) by {
            let b = es[k].1;
            let jt = lands(x, b, j);
            assert(label_ok(x.aut, s0, ts0[k].0));
            match es[k].0 {
                EdgeLabel::Concrete(s) => {
                    lemma_one_step(t, s0, s, hs, i, j, p, m);
                    lemma_concrete_step(x, s0, t, a, i, p, k, m);
                },
                EdgeLabel::Abstract(h) => {
                    if !ins(b, jt, m) {
                        let w = word_from(t, out, jt, m);
                        lemma_word_from(n, t, out, jt, m);
                        let e = x.graph.states@[b as int].aexpr;
                        assert(x.aut.has(e)) by {
                            assert(ts0[k].1 == x.graph.states@[b as int]);
                        }
                        assert(x.aut.takes(s2, hs, e, w, c));
                        lemma_more(top, s2, hs, top.fill(s2), b, w, c);
                        let d = choose|d: nat| #[trigger] top.aut.takes(s2, top.fill(s2), e, w, d);
                        top.lemma_complete(s2, b, w, d);
                        assert(completes(
                            top,
                            s2,
                            t,
                            out,
                            State::<Place<C>>::Outer(b),
                            jt,
                            m,
                        ));
                        assert(backward.lists(s3, State::<Place<C>>::Outer(b), jt, m));
                        assert(!forward.lists(s3, State::<Place<C>>::Outer(b), jt, m));
                        assert(breaks_out(
                            x,
                            s3,
                            forward,
                            backward,
                            t.len(),
                            a,
                            k,
                            i,
                            j,
                            p,
                            m,
                        ));
                        assert(site_listed(sites, s4, h, p, m, t.subrange(i + 1, j + 1)));
                    }
                },
            }
        }
        assert forall|k: int|
            0 <= k < ls.len() && label_lang(s0, hs, #[trigger] ls[k])(word_from(t, out, i, p))
            implies goal by {
            assert(label_ok(x.aut, s0, ls[k]));
            match ls[k] {
                EdgeLabel::Concrete(s) => {
                    lemma_concrete_end(x, s0, hs, t, out, a, i, p, k);
                    lemma_not_both(x, s0, t, out, a, i, p);
                },
                EdgeLabel::Abstract(h) => {
                    lemma_end_word(n, t, out, i, p);
                    assert(runs_out(x, s3, forward, t.len(), a, k, i, p));
                    assert(site_listed(
                        sites,
                        s4,
                        h,
                        p,
                        out,
                        t.subrange(i + 1, t.len() as int),
                    ));
                },
            }
        }
    }
    lemma_start(x, s0, t, out);
    assert(ins(0usize, 0, t[0]));
    let c = choose|c: nat| #[trigger]
        x.aut.takes(s0, hs, x.graph.states@[0].aexpr, t.push(out), c);
    lemma_escape(x, s0, hs, t, out, ins, goal, 0usize, 0, t[0], c);
}

/// A run begins at the start.
pub(crate) proof fn lemma_start<C: ENFA>(x: &Instantiate<C>, st: SPPstore, t: Seq<Pkt>, out: Pkt)
    requires
        t.len() > 0,
        t[0].len() == st.n(),
    ensures
        follows(x, st, t, State::<Place<C>>::Outer(0usize), 0, t[0]),
        word_from(t, out, 0, t[0]) == t.push(out),
{
    let path = seq![(State::<Place<C>>::Outer(0usize), t[0])];
    assert(path.skip(1) =~= Seq::<(State<Place<C>>, Pkt)>::empty());
    assert(trace_of(x, path) =~= t.take(1));
    assert(is_path(x, st, path));
    assert(word_from(t, out, 0, t[0]) =~= t.push(out));
}


/// The automaton has the word, with what the guess puts in its holes.
pub open spec fn has_word<'a, C: Candidate<'a>>(
    x: Instantiate<C>,
    vars: Filling<C::Var>,
    st: SPPstore,
    dfa: &'a ExplicitDFA,
    w: Word,
) -> Claim {
    |g: Guess| x.aut.accepts(st, guess_fill::<C>(vars, st, dfa, g), x.graph.states@[0].aexpr, w)
}

/// What is given for the clause of a word that is missing.
pub open spec fn missing_word<'a, C: Candidate<'a>, L: SmtLearner<'a>>(
    x: Instantiate<C>,
    vars: Filling<C::Var>,
    l: L,
    st: SPPstore,
    dfa: &'a ExplicitDFA,
    t: Seq<Pkt>,
    out: Pkt,
) -> bool {
    &&& l.wf()
    &&& st.wf()
    &&& st.n() == l.n()
    &&& dfa.valid(st)
    &&& x.valid(st)
    &&& x.graph.states@[0].visible
    &&& filled_by(x, vars, dfa)
    &&& vars_ok::<C, L>(vars, l, dfa)
    &&& t.len() >= 1
    &&& forall|i: int| 0 <= i < t.len() ==> (#[trigger] t[i]).len() == st.n()
    &&& out.len() == st.n()
    &&& !enfa_lang(&x, st)(t.push(out))
}

/// The same in every hole.
fn fill_all<'a, C: Candidate<'a>>(
    vars: &Filling<C::Var>,
    c: &C,
    Ghost(st): Ghost<SPPstore>,
) -> (r: Filling<C>)
    requires
        c.valid(st),
    ensures
        r.wf(),
        forall|h: Hole| #[trigger] r.has(h) <==> vars.has(h),
        forall|h: Hole| #[trigger] r.has(h) ==> r.val(h).valid(st),
        forall|h: Hole, w: Word|
            #![trigger enfa_lang(&r.val(h), st)(w)]
            r.has(h) && st.wf() && is_word(st.n(), w) ==> enfa_lang(&r.val(h), st)(w) == enfa_lang(
                c,
                st,
            )(w),
{
    let mut r: Filling<C> = Filling::new();
    let mut i: usize = 0;
    while i < vars.entries.len()
        invariant
            c.valid(st),
            i <= vars.entries@.len(),
            r.wf(),
            forall|j: int| 0 <= j < i ==> r.has((#[trigger] vars.entries@[j]).0),
            forall|h: Hole| #[trigger] r.has(h) ==> vars.has(h),
            forall|h: Hole| #[trigger] r.has(h) ==> r.val(h).valid(st),
            forall|h: Hole, w: Word|
                #![trigger enfa_lang(&r.val(h), st)(w)]
                r.has(h) && st.wf() && is_word(st.n(), w) ==> enfa_lang(&r.val(h), st)(w)
                    == enfa_lang(c, st)(w),
        decreases vars.entries.len() - i,
    {
        let h: Hole = vars.entries[i].0;
        let ghost r0 = r;
        let d = c.again();
        assert(vars.is_at(h, i as int));
        assert(d.valid(st));
        r.insert(h, d);
        proof {
            assert forall|g: Hole| #[trigger] r.has(g) implies r.val(g).valid(st) by {
                if g != h {
                    assert(r0.has(g));
                    assert(r.val(g) == r0.val(g));
                }
            }
            assert forall|g: Hole, w: Word|
                #![trigger enfa_lang(&r.val(g), st)(w)]
                r.has(g) && st.wf() && is_word(st.n(), w) implies enfa_lang(&r.val(g), st)(w)
                == enfa_lang(c, st)(w) by {
                if g != h {
                    assert(r0.has(g));
                    assert(r.val(g) == r0.val(g));
                    assert(enfa_lang(&r0.val(g), st)(w) == enfa_lang(c, st)(w));
                } else {
                    assert(enfa_lang(&d, st)(w) == enfa_lang(c, st)(w));
                }
            }
        }
        i = i + 1;
    }
    proof {
        assert forall|h: Hole| #[trigger] vars.has(h) implies r.has(h) by {
            let j = choose|j: int| #[trigger] vars.is_at(h, j);
            assert(r.has(vars.entries@[j].0));
        }
    }
    r
}

/// The slot of some site has a word between the packets of the site.
pub open spec fn site_bridged<'a, 't, C: Candidate<'a>>(
    sites: Seq<HoleSite<'t>>,
    vars: Filling<C::Var>,
    so: SPPstore,
    dfa: &'a ExplicitDFA,
    g: Guess,
    st: SPPstore,
) -> bool {
    exists|k: int, p: Pkt, q: Pkt| #[trigger]
        site_has(sites[k], st, p, q) && 0 <= k < sites.len() && vars.has(sites[k].hole) && p.len()
            == so.n() && q.len() == so.n() && slot_has::<C>(
            vars.val(sites[k].hole),
            so,
            dfa,
            g,
            p,
            packets(sites[k].trace@),
            q,
        )
}

/// Makes a literal for each site.
fn site_literals<'a, 't, C: Candidate<'a>, L: SmtLearner<'a>>(
    sites: &Vec<HoleSite<'t>>,
    vars: &Filling<C::Var>,
    learner: &mut L,
    store: &mut SPPstore,
    dfa: &'a ExplicitDFA,
    lits: &mut Vec<Literal>,
    Ghost(so): Ghost<SPPstore>,
) -> (r: Ghost<Seq<Claim>>)
    requires
        so.wf(),
        dfa.valid(so),
        old(learner).wf(),
        old(store).wf(),
        old(store).extends(&so),
        so.n() == old(learner).n(),
        old(lits)@.len() == 0,
        vars_ok::<C, L>(*vars, *old(learner), dfa),
        forall|i: int| 0 <= i < sites@.len() ==> site_ok(#[trigger] sites@[i], *old(store)),
    ensures
        final(store).wf(),
        final(store).extends(old(store)),
        banked(*final(learner), *old(learner), final(store).sp, final(lits)@, r@),
        forall|h: Hole, p: Pkt, m: Pkt, ts: Seq<Pkt>, g: Guess|
            #![trigger site_listed(sites@, *old(store), h, p, m, ts), any_claim(r@, g)]
            site_listed(sites@, *old(store), h, p, m, ts) && vars.has(h) && p.len() == so.n()
                && m.len() == so.n() && slot_has::<C>(vars.val(h), so, dfa, g, p, ts, m)
                ==> any_claim(r@, g),
        forall|g: Guess| #[trigger]
            any_claim(r@, g) ==> site_bridged::<C>(sites@, *vars, so, dfa, g, *old(store)),
{
    let ghost o = *learner;
    let ghost s4 = *store;
    let ghost mut claims = Seq::<Claim>::empty();
    proof {
        lemma_bank_empty(o, s4.sp);
        assert(lits@ =~= Seq::<Literal>::empty());
    }
    let mut i: usize = 0;
    while i < sites.len()
        invariant
            so.wf(),
            dfa.valid(so),
            s4.wf(),
            s4.extends(&so),
            store.wf(),
            store.extends(&s4),
            so.n() == o.n(),
            vars_ok::<C, L>(*vars, o, dfa),
            forall|i: int| 0 <= i < sites@.len() ==> site_ok(#[trigger] sites@[i], s4),
            banked(*learner, o, store.sp, lits@, claims),
            forall|g: Guess| #[trigger]
                any_claim(claims, g) ==> site_bridged::<C>(sites@, *vars, so, dfa, g, s4),
            i <= sites@.len(),
            forall|k: int, h: Hole, p: Pkt, m: Pkt, ts: Seq<Pkt>, g: Guess|
                #![trigger site_is(sites@[k], s4, h, p, m, ts), any_claim(claims, g)]
                0 <= k < i && site_is(sites@[k], s4, h, p, m, ts) && vars.has(h) && p.len()
                    == so.n() && m.len() == so.n() && slot_has::<C>(
                    vars.val(h),
                    so,
                    dfa,
                    g,
                    p,
                    ts,
                    m,
                ) ==> any_claim(claims, g),
        decreases sites.len() - i,
    {
        let site = &sites[i];
        let ghost site0 = sites@[i as int];
        let ghost c0 = claims;
        assert(site_ok(sites@[i as int], s4));
        match vars.get(&site.hole) {
            Some(v) => {
                let v = *v;
                let ghost s5 = *store;
                proof {
                    s4.lemma_wf();
                    s4.lemma_sets_n();
                    s5.lemma_wf();
                    assert(C::placed(vars.val(site.hole), o.slots(), o.automata(), dfa));
                }
                let (_, c2) = bank_span::<C, L>(
                    v,
                    learner,
                    store,
                    dfa,
                    site.in_sp,
                    site.out_sp,
                    site.trace,
                    lits,
                    Ghost(o),
                    Ghost(so),
                    Ghost(claims),
                );
                proof {
                    claims = c2@;
                    assert forall|g: Guess| #[trigger] any_claim(claims, g) implies site_bridged::<
                        C,
                    >(sites@, *vars, so, dfa, g, s4) by {
                        let k = choose|k: int| 0 <= k < claims.len() && (#[trigger] claims[k])(g);
                        if k < c0.len() {
                            assert(claims[k] == c0[k]) by {
                                if claims.len() > c0.len() {
                                    assert(claims.drop_last()[k] == c0[k]);
                                }
                            }
                            assert(any_claim(c0, g));
                        } else {
                            let ts = packets(site0.trace@);
                            assert(claims.last()(g));
                            assert(bridged::<C>(
                                v,
                                so,
                                dfa,
                                g,
                                s5.sp,
                                site0.in_sp,
                                site0.out_sp,
                                ts,
                            ));
                            let (p, q) = choose|p: Pkt, q: Pkt|
                                p.len() == so.n() && q.len() == so.n() && s5.sp.mem(
                                    site0.in_sp,
                                    p,
                                ) && s5.sp.mem(site0.out_sp, q) && #[trigger] slot_has::<C>(
                                    v,
                                    so,
                                    dfa,
                                    g,
                                    p,
                                    ts,
                                    q,
                                );
                            assert(site_has(sites@[i as int], s4, p, q));
                        }
                    }
                    assert forall|g: Guess| any_claim(c0, g) implies #[trigger] any_claim(
                        claims,
                        g,
                    ) by {
                        let k = choose|k: int| 0 <= k < c0.len() && (#[trigger] c0[k])(g);
                        assert(claims[k] == c0[k]) by {
                            if claims.len() > c0.len() {
                                assert(claims.drop_last()[k] == c0[k]);
                            }
                        }
                    }
                    assert forall|h: Hole, p: Pkt, m: Pkt, ts: Seq<Pkt>, g: Guess|
                        #![trigger site_is(site0, s4, h, p, m, ts), any_claim(claims, g)]
                        site_is(site0, s4, h, p, m, ts) && vars.has(h) && p.len() == so.n()
                            && m.len() == so.n() && slot_has::<C>(
                            vars.val(h),
                            so,
                            dfa,
                            g,
                            p,
                            ts,
                            m,
                        ) implies any_claim(claims, g) by {
                        assert(s5.sp.mem(site0.in_sp, p));
                        assert(s5.sp.mem(site0.out_sp, m));
                        assert(slot_has::<C>(v, so, dfa, g, p, packets(site0.trace@), m));
                        assert(claims.last()(g));
                        assert(claims[claims.len() - 1](g));
                    }
                }
            },
            None => {},
        }
        proof {
            assert forall|k: int, h: Hole, p: Pkt, m: Pkt, ts: Seq<Pkt>, g: Guess|
                #![trigger site_is(sites@[k], s4, h, p, m, ts), any_claim(claims, g)]
                0 <= k < i + 1 && site_is(sites@[k], s4, h, p, m, ts) && vars.has(h) && p.len()
                    == so.n() && m.len() == so.n() && slot_has::<C>(
                    vars.val(h),
                    so,
                    dfa,
                    g,
                    p,
                    ts,
                    m,
                ) implies any_claim(claims, g) by {
                if k < i {
                    assert(any_claim(c0, g));
                } else {
                    assert(site_is(site0, s4, h, p, m, ts));
                }
            }
        }
        i = i + 1;
    }
    proof {
        assert forall|h: Hole, p: Pkt, m: Pkt, ts: Seq<Pkt>, g: Guess|
            #![trigger site_listed(sites@, s4, h, p, m, ts), any_claim(claims, g)]
            site_listed(sites@, s4, h, p, m, ts) && vars.has(h) && p.len() == so.n() && m.len()
                == so.n() && slot_has::<C>(vars.val(h), so, dfa, g, p, ts, m) implies any_claim(
            claims,
            g,
        ) by {
            let k = choose|k: int| 0 <= k < sites@.len() && #[trigger] site_is(
                sites@[k],
                s4,
                h,
                p,
                m,
                ts,
            );
        }
    }
    Ghost(claims)
}

/// Some hole leads from a place of `ins` to one of `outs`, or has the rest of the word
/// from a place of `ins`, with what the guess puts in the holes.
pub open spec fn leaves_by<'a, C: Candidate<'a>>(
    x: Instantiate<C>,
    vars: Filling<C::Var>,
    st: SPPstore,
    dfa: &'a ExplicitDFA,
    t: Seq<Pkt>,
    out: Pkt,
    ins: Places,
    outs: Places,
) -> Claim {
    |g: Guess| breaches(&x, st, guess_fill::<C>(vars, st, dfa, g), t, out, ins, outs)
}

/// The learner goes on from `o` to `l` by the clause that some hole leads from a place
/// of `ins` to one of `outs`, or has the rest of the word from a place of `ins`.
pub open spec fn hole_clause<'a, C: Candidate<'a>, L: SmtLearner<'a>>(
    l: L,
    o: L,
    x: Instantiate<C>,
    vars: Filling<C::Var>,
    st: SPPstore,
    dfa: &'a ExplicitDFA,
    t: Seq<Pkt>,
    out: Pkt,
    ins: Places,
    outs: Places,
) -> bool {
    &&& refines(l, o, leaves_by::<C>(x, vars, st, dfa, t, out, ins, outs))
    &&& demands(l, leaves_by::<C>(x, vars, st, dfa, t, out, ins, outs))
}

/// The places are not reached now, and the word goes on from them with some filling;
/// all from which it goes on with what a guess puts in the holes are among them.
pub open spec fn is_frontier<'a, C: Candidate<'a>>(
    x: Instantiate<C>,
    vars: Filling<C::Var>,
    st: SPPstore,
    dfa: &'a ExplicitDFA,
    t: Seq<Pkt>,
    out: Pkt,
    outs: Places,
) -> bool {
    &&& forall|a: usize, i: int, p: Pkt|
        a < x.graph.states@.len() && 0 <= i < t.len() && p.len() == st.n() && #[trigger] outs(
            a,
            i,
            p,
        ) ==> !reached(&x, st, t)(a, i, p) && plausible(&x, st, t, out, a, i, p)
    &&& forall|a: usize, i: int, p: Pkt, g: Guess|
        #![trigger outs(a, i, p), guess_fill::<C>(vars, st, dfa, g)]
        placed_at(&x, st, t, a, i, p) && !reached(&x, st, t)(a, i, p) && x.aut.accepts(
            st,
            guess_fill::<C>(vars, st, dfa, g),
            x.graph.states@[a as int].aexpr,
            word_from(t, out, i, p),
        ) ==> outs(a, i, p)
}

/// The learner goes on by the clause that some hole leads from what is reached now to
/// the frontier.
pub open spec fn frontier_clause<'a, C: Candidate<'a>, L: SmtLearner<'a>>(
    l: L,
    o: L,
    x: Instantiate<C>,
    vars: Filling<C::Var>,
    st: SPPstore,
    dfa: &'a ExplicitDFA,
    t: Seq<Pkt>,
    out: Pkt,
) -> bool {
    exists|outs: Places| #[trigger]
        is_frontier::<C>(x, vars, st, dfa, t, out, outs) && hole_clause::<C, L>(
            l,
            o,
            x,
            vars,
            st,
            dfa,
            t,
            out,
            reached(&x, st, t),
            outs,
        )
}

/// A site whose slot has a word between its packets leads out of what is reached.
proof fn lemma_sites_leave<'a, C: Candidate<'a>>(
    x: &Instantiate<C>,
    top: &Instantiate<C>,
    s0: SPPstore,
    s2: SPPstore,
    s3: SPPstore,
    s4: SPPstore,
    forward: &Reach<State<C::State>>,
    backward: &Reach<State<C::State>>,
    t: Seq<Pkt>,
    out: Pkt,
    sites: Seq<HoleSite>,
    vars: Filling<C::Var>,
    dfa: &'a ExplicitDFA,
    g: Guess,
)
    requires
        x.valid(s0),
        s3.n() == s0.n(),
        out.len() == s0.n(),
        forall|q: State<Place<C>>, i: int, p: Pkt|
            0 <= i < t.len() && p.len() == s0.n() ==> (#[trigger] forward.lists(s3, q, i, p)
                <==> follows(x, s0, t, q, i, p)),
        forall|b: usize, i: int, p: Pkt|
            b < x.graph.states@.len() && 0 <= i < t.len() && p.len() == s0.n() ==> (
            #[trigger] backward.lists(s3, State::<Place<C>>::Outer(b), i, p) <==> completes(
                top,
                s2,
                t,
                out,
                State::<Place<C>>::Outer(b),
                i,
                p,
            )),
        sites_just(x, s3, s4, forward, backward, t, out, sites),
        site_bridged::<C>(sites, vars, s0, dfa, g, s4),
    ensures
        breaches(
            x,
            s0,
            guess_fill::<C>(vars, s0, dfa, g),
            t,
            out,
            reached(x, s0, t),
            |b: usize, j: int, m: Pkt|
                completes(top, s2, t, out, State::<Place<C>>::Outer(b), j, m) && !reached(
                    x,
                    s0,
                    t,
                )(b, j, m),
        ),
{
    let hs = guess_fill::<C>(vars, s0, dfa, g);
    let ins = reached(x, s0, t);
    let outs: Places = |b: usize, j: int, m: Pkt|
        completes(top, s2, t, out, State::<Place<C>>::Outer(b), j, m) && !reached(x, s0, t)(
            b,
            j,
            m,
        );
    let (z, p, m) = choose|z: int, p: Pkt, m: Pkt| #[trigger]
        site_has(sites[z], s4, p, m) && 0 <= z < sites.len() && vars.has(sites[z].hole) && p.len()
            == s0.n() && m.len() == s0.n() && slot_has::<C>(
            vars.val(sites[z].hole),
            s0,
            dfa,
            g,
            p,
            packets(sites[z].trace@),
            m,
        );
    let site = sites[z];
    let ts = packets(site.trace@);
    if edge_just(sites[z], s4, x, s3, forward, backward, t) {
        let (a, k, i, j) = choose|a: usize, k: int, i: int, j: int| #[trigger]
            breaks_at(x, s3, forward, backward, t, site.hole, ts, a, k, i, j, p, m);
        x.lemma_row(s0, a as int);
        assert(x.graph.edges@[a as int]@[k].1 < x.graph.states@.len());
        assert(breach(x, s0, hs, t, ins, outs, a, k, i, j, p, m));
    } else {
        assert(end_just(sites[z], s4, x, s3, forward, t, out));
        let (a, k, i) = choose|a: usize, k: int, i: int| #[trigger]
            ends_at(x, s3, forward, t, site.hole, ts, a, k, i, p);
        assert(breach_end(x, s0, hs, t, out, ins, a, k, i, p));
    }
}

/// What leads out of what is reached through a hole is a site whose slot has a word
/// between its packets.
proof fn lemma_leave_sites<'a, C: Candidate<'a>>(
    x: &Instantiate<C>,
    top: &Instantiate<C>,
    s0: SPPstore,
    s2: SPPstore,
    s3: SPPstore,
    s4: SPPstore,
    forward: &Reach<State<C::State>>,
    backward: &Reach<State<C::State>>,
    t: Seq<Pkt>,
    out: Pkt,
    sites: Seq<HoleSite>,
    vars: Filling<C::Var>,
    dfa: &'a ExplicitDFA,
    g: Guess,
    goal: bool,
)
    requires
        x.valid(s0),
        s3.n() == s0.n(),
        out.len() == s0.n(),
        forall|h: Hole| #[trigger] x.holes.has(h) ==> vars.has(h),
        forall|q: State<Place<C>>, i: int, p: Pkt|
            0 <= i < t.len() && p.len() == s0.n() ==> (#[trigger] forward.lists(s3, q, i, p)
                <==> follows(x, s0, t, q, i, p)),
        forall|b: usize, i: int, p: Pkt|
            b < x.graph.states@.len() && 0 <= i < t.len() && p.len() == s0.n() ==> (
            #[trigger] backward.lists(s3, State::<Place<C>>::Outer(b), i, p) <==> completes(
                top,
                s2,
                t,
                out,
                State::<Place<C>>::Outer(b),
                i,
                p,
            )),
        all_sited(x, s3, s4, forward, backward, t, out, sites),
        forall|h: Hole, p: Pkt, m: Pkt, ts: Seq<Pkt>|
            #![trigger site_listed(sites, s4, h, p, m, ts)]
            site_listed(sites, s4, h, p, m, ts) && vars.has(h) && p.len() == s0.n() && m.len()
                == s0.n() && slot_has::<C>(vars.val(h), s0, dfa, g, p, ts, m) ==> goal,
        breaches(
            x,
            s0,
            guess_fill::<C>(vars, s0, dfa, g),
            t,
            out,
            reached(x, s0, t),
            |b: usize, j: int, m: Pkt|
                completes(top, s2, t, out, State::<Place<C>>::Outer(b), j, m) && !reached(
                    x,
                    s0,
                    t,
                )(b, j, m),
        ),
    ensures
        goal,
{
    let hs = guess_fill::<C>(vars, s0, dfa, g);
    let ins = reached(x, s0, t);
    let outs: Places = |b: usize, j: int, m: Pkt|
        completes(top, s2, t, out, State::<Place<C>>::Outer(b), j, m) && !reached(x, s0, t)(
            b,
            j,
            m,
        );
    if exists|a: usize, k: int, i: int, j: int, p: Pkt, m: Pkt| #[trigger]
        breach(x, s0, hs, t, ins, outs, a, k, i, j, p, m) {
        let (a, k, i, j, p, m) = choose|a: usize, k: int, i: int, j: int, p: Pkt, m: Pkt| #[trigger]
            breach(x, s0, hs, t, ins, outs, a, k, i, j, p, m);
        x.lemma_row(s0, a as int);
        let e = x.graph.edges@[a as int]@[k];
        let ts = t.subrange(i + 1, j + 1);
        assert(x.label_known(s0, e.0));
        match e.0 {
            EdgeLabel::Abstract(h) => {
                assert(x.holes.has(h));
                assert(breaks_out(x, s3, forward, backward, t.len(), a, k, i, j, p, m));
                assert(site_listed(sites, s4, h, p, m, ts));
                assert(slot_has::<C>(vars.val(h), s0, dfa, g, p, ts, m));
            },
            EdgeLabel::Concrete(_) => {},
        }
    } else {
        let (a, k, i, p) = choose|a: usize, k: int, i: int, p: Pkt| #[trigger]
            breach_end(x, s0, hs, t, out, ins, a, k, i, p);
        x.lemma_row(s0, a as int);
        let l = x.graph.ends@[a as int]@[k];
        let ts = t.subrange(i + 1, t.len() as int);
        assert(x.label_known(s0, l));
        match l {
            EdgeLabel::Abstract(h) => {
                assert(x.holes.has(h));
                assert(runs_out(x, s3, forward, t.len(), a, k, i, p));
                assert(site_listed(sites, s4, h, p, out, ts));
                assert(slot_has::<C>(vars.val(h), s0, dfa, g, p, ts, out));
            },
            EdgeLabel::Concrete(_) => {},
        }
    }
}

/// What is not reached and goes on with the most in the holes is the frontier.
proof fn lemma_is_frontier<'a, C: Candidate<'a>>(
    x: &Instantiate<C>,
    top: &Instantiate<C>,
    s0: SPPstore,
    s2: SPPstore,
    t: Seq<Pkt>,
    out: Pkt,
    vars: Filling<C::Var>,
    dfa: &'a ExplicitDFA,
    outs: Places,
)
    requires
        s0.wf(),
        s2.wf(),
        s2.extends(&s0),
        x.valid(s0),
        top.valid(s2),
        top.aut == x.aut,
        top.graph == x.graph,
        forall|g: Guess| #[trigger]
            below_fill(x, s2, guess_fill::<C>(vars, s0, dfa, g), top.fill(s2)),
        forall|j: int| 0 <= j < t.len() ==> (#[trigger] t[j]).len() == s0.n(),
        out.len() == s0.n(),
        outs == (|b: usize, j: int, m: Pkt|
            completes(top, s2, t, out, State::<Place<C>>::Outer(b), j, m) && !reached(x, s0, t)(
                b,
                j,
                m,
            )),
    ensures
        is_frontier::<C>(*x, vars, s0, dfa, t, out, outs),
{
    x.aut.lemma_wf_ext(s2, s0);
    assert(graph_of(x.aut, s0, x.graph));
    assert forall|a: usize, i: int, p: Pkt|
        a < x.graph.states@.len() && 0 <= i < t.len() && p.len() == s0.n() && #[trigger] outs(
            a,
            i,
            p,
        ) implies !reached(x, s0, t)(a, i, p) && plausible(x, s0, t, out, a, i, p) by {
        let w = word_from(t, out, i, p);
        lemma_word_from(s0.n(), t, out, i, p);
        top.lemma_outer_sound(s2, a, w);
        let e = x.graph.states@[a as int].aexpr;
        assert(x.aut.has(x.graph.states@[a as int].aexpr));
        assert(x.aut.accepts(s0, top.fill(s2), e, w));
    }
    assert forall|a: usize, i: int, p: Pkt, g: Guess|
        #![trigger outs(a, i, p), guess_fill::<C>(vars, s0, dfa, g)]
        placed_at(x, s0, t, a, i, p) && !reached(x, s0, t)(a, i, p) && x.aut.accepts(
            s0,
            guess_fill::<C>(vars, s0, dfa, g),
            x.graph.states@[a as int].aexpr,
            word_from(t, out, i, p),
        ) implies outs(a, i, p) by {
        let hs = guess_fill::<C>(vars, s0, dfa, g);
        let w = word_from(t, out, i, p);
        lemma_word_from(s0.n(), t, out, i, p);
        let e = x.graph.states@[a as int].aexpr;
        assert(x.aut.has(x.graph.states@[a as int].aexpr));
        assert(x.aut.accepts(s2, hs, e, w));
        let c = choose|c: nat| #[trigger] x.aut.takes(s2, hs, e, w, c);
        assert(below_fill(x, s2, hs, top.fill(s2)));
        lemma_more(top, s2, hs, top.fill(s2), a, w, c);
        let d = choose|d: nat| #[trigger] top.aut.takes(s2, top.fill(s2), e, w, d);
        top.lemma_complete(s2, a, w, d);
    }
}

/// The clause that some hole, entered with a packet that reaches it now, is left
/// with one that does not come out of it now and from which the word goes on if the
/// holes have all that they can; or that it has the rest of the word.  Whatever gives
/// the automaton the word satisfies it.
pub fn add_lower_bound_clause_frontier<'a, C: Candidate<'a>, L: SmtLearner<'a>>(
    cex: &LowerBoundCounterexample,
    inst: &mut Instantiate<C>,
    vars: &Filling<C::Var>,
    learner: &mut L,
    store: &mut SPPstore,
    dfa: &'a ExplicitDFA,
)
    requires
        missing_word::<C, L>(
            *old(inst),
            *vars,
            *old(learner),
            *old(store),
            dfa,
            packets(cex.trace@),
            cex.output@,
        ),
    ensures
        *final(inst) == *old(inst),
        final(store).wf(),
        final(store).extends(old(store)),
        refines(
            *final(learner),
            *old(learner),
            has_word::<C>(
                *old(inst),
                *vars,
                *old(store),
                dfa,
                packets(cex.trace@).push(cex.output@),
            ),
        ),
        frontier_clause::<C, L>(
            *final(learner),
            *old(learner),
            *old(inst),
            *vars,
            *old(store),
            dfa,
            packets(cex.trace@),
            cex.output@,
        ),
{
    let ghost x0 = *inst;
    let ghost o = *learner;
    let ghost s0 = *store;
    let ghost t = packets(cex.trace@);
    let ghost out = cex.output@;
    let ghost n = t.len();
    proof {
        assert forall|i: int| 0 <= i < cex.trace@.len() implies (#[trigger] cex.trace@[i])@.len()
            == s0.n() by {
            assert(t[i] == cex.trace@[i]@);
        }
    }
    let trace = cex.trace.as_slice();
    let output = cex.output.as_slice();
    let forward = forward_reachable(&*inst, store, trace);
    let ghost s1 = *store;
    proof {
        dfa.lemma_valid(s1, s0);
    }
    let top = C::top(store, dfa);
    let ghost s2 = *store;
    let mut tops = fill_all::<C>(vars, &top, Ghost(s2));
    proof {
        x0.lemma_valid(s2, s0);
    }
    core::mem::swap(&mut inst.holes, &mut tops);
    let ghost xt = *inst;
    proof {
        assert(xt.aut == x0.aut && xt.graph == x0.graph);
        assert(xt.valid(s2)) by {
            assert forall|h: Hole| #[trigger] xt.aut.uses(h) implies xt.holes.has(h) by {
                assert(x0.holes.has(h));
            }
        }
    }
    let roots = outer_states(&*inst);
    let backward = backward_reachable(&*inst, store, trace, output, &roots);
    let ghost s3 = *store;
    core::mem::swap(&mut inst.holes, &mut tops);
    proof {
        assert(*inst == x0);
        x0.lemma_valid(s3, s0);
        lemma_reach_ext::<C>(&forward, s3, s1, n);
    }
    let sites = collect_hole_sites(&*inst, trace, output, &forward, &backward, store);
    let ghost s4 = *store;
    let mut lits: Vec<Literal> = Vec::new();
    let claims = site_literals::<C, L>(&sites, vars, learner, store, dfa, &mut lits, Ghost(s0));
    let ghost ins = reached(&x0, s0, t);
    let ghost outs: Places = |b: usize, j: int, m: Pkt|
        completes(&xt, s2, t, out, State::<Place<C>>::Outer(b), j, m) && !ins(b, j, m);
    let ghost demand = leaves_by::<C>(x0, *vars, s0, dfa, t, out, ins, outs);
    let ghost wanted = has_word::<C>(x0, *vars, s0, dfa, t.push(out));
    proof {
        assert forall|b: usize, i: int, p: Pkt|
            b < x0.graph.states@.len() && 0 <= i < t.len() && p.len() == s0.n() implies (
        #[trigger] backward.lists(s3, State::<Place<C>>::Outer(b), i, p) <==> completes(
            &xt,
            s2,
            t,
            out,
            State::<Place<C>>::Outer(b),
            i,
            p,
        )) by {
            assert(among(roots@, State::<Place<C>>::Outer(b)));
            assert(among(backward.states@, State::<Place<C>>::Outer(b)));
        }
        assert forall|g: Guess| #[trigger] below_fill(
            &x0,
            s2,
            guess_fill::<C>(*vars, s0, dfa, g),
            xt.fill(s2),
        ) by {
            let hs = guess_fill::<C>(*vars, s0, dfa, g);
            assert forall|h: Hole, w: Word|
                #![trigger hs(h)(w)]
                #![trigger xt.fill(s2)(h)(w)]
                x0.aut.uses(h) && is_word(s2.n(), w) && hs(h)(w) implies xt.fill(s2)(h)(w) by {
                assert(xt.holes.has(h));
                C::lemma_slot(vars.val(h), s2, s0, dfa, g);
                assert(C::slot_lang(vars.val(h), s2, dfa, g)(w));
                assert(enfa_lang(&top, s2)(w));
                assert(enfa_lang(&xt.holes.val(h), s2)(w));
            }
        }
        assert forall|g: Guess| #[trigger] any_claim(claims@, g) implies demand(g) by {
            lemma_sites_leave::<C>(
                &x0, &xt, s0, s2, s3, s4, &forward, &backward, t, out, sites@, *vars, dfa, g,
            );
        }
        assert forall|g: Guess| demand(g) implies #[trigger] any_claim(claims@, g) by {
            lemma_leave_sites::<C>(
                &x0, &xt, s0, s2, s3, s4, &forward, &backward, t, out, sites@, *vars, dfa, g,
                any_claim(claims@, g),
            );
        }
        assert forall|g: Guess| #[trigger] wanted(g) implies demand(g) by {
            let hs = guess_fill::<C>(*vars, s0, dfa, g);
            assert(below_fill(&x0, s2, hs, xt.fill(s2)));
            assert forall|h: Hole, p: Pkt, m: Pkt, ts: Seq<Pkt>| #[trigger]
                site_listed(sites@, s4, h, p, m, ts) && x0.aut.uses(h) && p.len() == s0.n()
                    && m.len() == s0.n() && hs(h)(span_word(p, ts, m)) implies any_claim(
                claims@,
                g,
            ) by {
                assert(x0.holes.has(h));
                assert(vars.has(h));
                assert(slot_has::<C>(vars.val(h), s0, dfa, g, p, ts, m));
            }
            lemma_frontier(
                &x0,
                &xt,
                s0,
                s2,
                s3,
                s4,
                &forward,
                &backward,
                t,
                out,
                sites@,
                hs,
                any_claim(claims@, g),
            );
        }
        lemma_is_frontier::<C>(&x0, &xt, s0, s2, t, out, *vars, dfa, outs);
    }
    assert_some(learner, store, lits, Ghost(o), Ghost(claims@), Ghost(demand));
    proof {
        lemma_refines_less(*learner, o, demand, wanted);
        assert(hole_clause::<C, L>(*learner, o, x0, *vars, s0, dfa, t, out, ins, outs));
    }
}

// ---- checking a constraint ---------------------------------------------------------------------

/// What holds for fewer guesses may be asked for.
pub(crate) proof fn lemma_refines_less<'a, L: SmtLearner<'a>>(l: L, o: L, d: Claim, e: Claim)
    requires
        refines(l, o, d),
        forall|g: Guess| #[trigger] e(g) ==> d(g),
    ensures
        refines(l, o, e),
{
    assert forall|g: Guess| #[trigger] admitted(o, g) && e(g) implies admitted(l, g) by {
        assert(d(g));
    }
}

/// Two steps of refinement are one.
proof fn lemma_refines_twice<'a, L: SmtLearner<'a>>(l: L, k: L, o: L, d: Claim)
    requires
        refines(l, k, d),
        refines(k, o, d),
    ensures
        refines(l, o, d),
{
    assert forall|g: Guess, e: Bits| #[trigger] l.allows(g, e) implies o.allows(g, e) by {
        assert(k.allows(g, e));
    }
    assert forall|g: Guess| #[trigger] admitted(o, g) && d(g) implies admitted(l, g) by {
        assert(admitted(k, g));
    }
}

/// What a guess puts in the holes is kept when the store grows.
proof fn lemma_fill_kept<'a, C: Candidate<'a>>(
    x: &Instantiate<C>,
    vars: Filling<C::Var>,
    st: SPPstore,
    o: SPPstore,
    dfa: &'a ExplicitDFA,
    g: Guess,
)
    requires
        o.wf(),
        st.wf(),
        st.extends(&o),
        dfa.valid(o),
    ensures
        forall|h: Hole, w: Word|
            is_word(o.n(), w) ==> #[trigger] guess_fill::<C>(vars, st, dfa, g)(h)(w) == guess_fill::<
                C,
            >(vars, o, dfa, g)(h)(w),
        below_fill(x, o, guess_fill::<C>(vars, st, dfa, g), guess_fill::<C>(vars, o, dfa, g)),
        below_fill(x, o, guess_fill::<C>(vars, o, dfa, g), guess_fill::<C>(vars, st, dfa, g)),
{
    assert forall|h: Hole, w: Word| is_word(o.n(), w) implies #[trigger] guess_fill::<C>(
        vars,
        st,
        dfa,
        g,
    )(h)(w) == guess_fill::<C>(vars, o, dfa, g)(h)(w) by {
        if vars.has(h) {
            C::lemma_slot(vars.val(h), st, o, dfa, g);
        }
    }
}

/// An automaton has the same words with holes that have the same words.
proof fn lemma_accepts_same<C: ENFA>(
    x: &Instantiate<C>,
    st: SPPstore,
    hs: Fill,
    gs: Fill,
    w: Word,
)
    requires
        st.wf(),
        x.valid(st),
        is_word(st.n(), w),
        below_fill(x, st, hs, gs),
        below_fill(x, st, gs, hs),
    ensures
        x.aut.accepts(st, hs, x.graph.states@[0].aexpr, w) == x.aut.accepts(
            st,
            gs,
            x.graph.states@[0].aexpr,
            w,
        ),
{
    let s = x.graph.states@[0].aexpr;
    if x.aut.accepts(st, hs, s, w) {
        let c = choose|c: nat| #[trigger] x.aut.takes(st, hs, s, w, c);
        lemma_more(x, st, hs, gs, 0usize, w, c);
    }
    if x.aut.accepts(st, gs, s, w) {
        let c = choose|c: nat| #[trigger] x.aut.takes(st, gs, s, w, c);
        lemma_more(x, st, gs, hs, 0usize, w, c);
    }
}

/// Which guesses give the word does not change when the store grows.
proof fn lemma_has_word_kept<'a, C: Candidate<'a>>(
    x: &Instantiate<C>,
    vars: Filling<C::Var>,
    st: SPPstore,
    o: SPPstore,
    dfa: &'a ExplicitDFA,
    w: Word,
    g: Guess,
)
    requires
        o.wf(),
        st.wf(),
        st.extends(&o),
        dfa.valid(o),
        x.valid(o),
        is_word(o.n(), w),
    ensures
        has_word::<C>(*x, vars, st, dfa, w)(g) == has_word::<C>(*x, vars, o, dfa, w)(g),
{
    let hs = guess_fill::<C>(vars, st, dfa, g);
    let s = x.graph.states@[0].aexpr;
    x.aut.lemma_wf_ext(st, o);
    lemma_fill_kept::<C>(x, vars, st, o, dfa, g);
    lemma_accepts_same(x, o, hs, guess_fill::<C>(vars, o, dfa, g), w);
    assert(graph_of(x.aut, o, x.graph));
    assert(x.aut.has(x.graph.states@[0].aexpr));
    assert(x.aut.accepts(st, hs, s, w) == x.aut.accepts(o, hs, s, w));
}

/// The clause of the frontier in a store that grew is that in the store before.
proof fn lemma_frontier_kept<'a, C: Candidate<'a>, L: SmtLearner<'a>>(
    l: L,
    l1: L,
    o: L,
    x: Instantiate<C>,
    vars: Filling<C::Var>,
    s1: SPPstore,
    s0: SPPstore,
    dfa: &'a ExplicitDFA,
    t: Seq<Pkt>,
    out: Pkt,
)
    requires
        s0.wf(),
        s1.wf(),
        s1.extends(&s0),
        dfa.valid(s0),
        x.valid(s0),
        x.valid(s1),
        forall|i: int| 0 <= i < t.len() ==> (#[trigger] t[i]).len() == s0.n(),
        out.len() == s0.n(),
        frontier_clause::<C, L>(l, l1, x, vars, s1, dfa, t, out),
        refines(l1, o, |g: Guess| true),
    ensures
        frontier_clause::<C, L>(l, o, x, vars, s0, dfa, t, out),
{
    let outs = choose|outs: Places| #[trigger]
        is_frontier::<C>(x, vars, s1, dfa, t, out, outs) && hole_clause::<C, L>(
            l,
            l1,
            x,
            vars,
            s1,
            dfa,
            t,
            out,
            reached(&x, s1, t),
            outs,
        );
    let in1 = reached(&x, s1, t);
    let in0 = reached(&x, s0, t);
    let d1 = leaves_by::<C>(x, vars, s1, dfa, t, out, in1, outs);
    let d0 = leaves_by::<C>(x, vars, s0, dfa, t, out, in0, outs);
    assert forall|a: usize, i: int, p: Pkt| #[trigger] in1(a, i, p) == in0(a, i, p) by {
        lemma_reached_kept(&x, s1, s0, t, a, i, p);
    }
    assert forall|g: Guess| #[trigger] d0(g) == d1(g) by {
        let hs = guess_fill::<C>(vars, s1, dfa, g);
        let gs = guess_fill::<C>(vars, s0, dfa, g);
        lemma_fill_kept::<C>(&x, vars, s1, s0, dfa, g);
        assert forall|h: Hole, w: Word| is_word(s0.n(), w) implies #[trigger] gs(h)(w) == hs(h)(
            w,
        ) by {
            assert(hs(h)(w) == gs(h)(w));
        }
        assert forall|a: usize, i: int, p: Pkt| #[trigger] in0(a, i, p) == in1(a, i, p) by {
            assert(in1(a, i, p) == in0(a, i, p));
        }
        lemma_breaches(&x, s1, s0, hs, gs, t, out, in1, in0, outs);
        lemma_breaches(&x, s0, s1, gs, hs, t, out, in0, in1, outs);
    }
    lemma_refines_less(l, l1, d1, d0);
    lemma_refines_less(l1, o, |g: Guess| true, d0);
    lemma_refines_twice(l, l1, o, d0);
    assert forall|g: Guess, e: Bits| #[trigger] l.allows(g, e) implies d0(g) by {
        assert(d1(g));
    }
    x.aut.lemma_wf_ext(s1, s0);
    assert(graph_of(x.aut, s0, x.graph));
    assert forall|a: usize, i: int, p: Pkt|
        a < x.graph.states@.len() && 0 <= i < t.len() && p.len() == s0.n() && #[trigger] outs(
            a,
            i,
            p,
        ) implies !in0(a, i, p) && plausible(&x, s0, t, out, a, i, p) by {
        assert(in1(a, i, p) == in0(a, i, p));
        let e = x.graph.states@[a as int].aexpr;
        let w = word_from(t, out, i, p);
        lemma_word_from(s0.n(), t, out, i, p);
        assert(plausible(&x, s1, t, out, a, i, p));
        let hs = choose|hs: Fill| #[trigger] x.aut.accepts(s1, hs, e, w);
        assert(x.aut.has(x.graph.states@[a as int].aexpr));
        assert(x.aut.accepts(s0, hs, e, w));
    }
    assert forall|a: usize, i: int, p: Pkt, g: Guess|
        #![trigger outs(a, i, p), guess_fill::<C>(vars, s0, dfa, g)]
        placed_at(&x, s0, t, a, i, p) && !in0(a, i, p) && x.aut.accepts(
            s0,
            guess_fill::<C>(vars, s0, dfa, g),
            x.graph.states@[a as int].aexpr,
            word_from(t, out, i, p),
        ) implies outs(a, i, p) by {
        assert(in1(a, i, p) == in0(a, i, p));
        let hs = guess_fill::<C>(vars, s1, dfa, g);
        let gs = guess_fill::<C>(vars, s0, dfa, g);
        lemma_fill_kept::<C>(&x, vars, s1, s0, dfa, g);
        let e = x.graph.states@[a as int].aexpr;
        let w = word_from(t, out, i, p);
        lemma_word_from(s0.n(), t, out, i, p);
        assert(x.aut.has(x.graph.states@[a as int].aexpr));
        let c = choose|c: nat| #[trigger] x.aut.takes(s0, gs, e, w, c);
        lemma_more(&x, s0, gs, hs, a, w, c);
        assert(x.aut.accepts(s0, hs, e, w) == x.aut.accepts(s1, hs, e, w));
    }
    assert(is_frontier::<C>(x, vars, s0, dfa, t, out, outs));
    assert(hole_clause::<C, L>(l, o, x, vars, s0, dfa, t, out, in0, outs));
}

/// The clause of a word that the automaton should have and has not: by a minimum cut,
/// if that is asked for and the network is not too large, else by the frontier.
pub fn add_lower_bound_clause<'a, C: Candidate<'a>, L: SmtLearner<'a>>(
    cex: &LowerBoundCounterexample,
    inst: &mut Instantiate<C>,
    vars: &Filling<C::Var>,
    learner: &mut L,
    store: &mut SPPstore,
    dfa: &'a ExplicitDFA,
    flags: Flags,
)
    requires
        missing_word::<C, L>(
            *old(inst),
            *vars,
            *old(learner),
            *old(store),
            dfa,
            packets(cex.trace@),
            cex.output@,
        ),
    ensures
        *final(inst) == *old(inst),
        final(store).wf(),
        final(store).extends(old(store)),
        refines(
            *final(learner),
            *old(learner),
            has_word::<C>(
                *old(inst),
                *vars,
                *old(store),
                dfa,
                packets(cex.trace@).push(cex.output@),
            ),
        ),
        !flags.mincut() ==> frontier_clause::<C, L>(
            *final(learner),
            *old(learner),
            *old(inst),
            *vars,
            *old(store),
            dfa,
            packets(cex.trace@),
            cex.output@,
        ),
        flags.mincut() && !too_large(&*old(inst), cex.trace@.len()) ==> cut_clause::<C, L>(
            *final(learner),
            *old(learner),
            *old(inst),
            *vars,
            *old(store),
            dfa,
            packets(cex.trace@),
            cex.output@,
        ),
        cut_clause::<C, L>(
            *final(learner),
            *old(learner),
            *old(inst),
            *vars,
            *old(store),
            dfa,
            packets(cex.trace@),
            cex.output@,
        ) || frontier_clause::<C, L>(
            *final(learner),
            *old(learner),
            *old(inst),
            *vars,
            *old(store),
            dfa,
            packets(cex.trace@),
            cex.output@,
        ),
{
    if !flags.lb_mincut() {
        add_lower_bound_clause_frontier(cex, inst, vars, learner, store, dfa);
        return;
    }
    let ghost o = *learner;
    let ghost s0 = *store;
    let ghost x0 = *inst;
    let ghost t = packets(cex.trace@);
    let ghost w = t.push(cex.output@);
    if add_lower_bound_clause_mincut(cex, &*inst, vars, learner, store, dfa) {
        return;
    }
    let ghost l1 = *learner;
    let ghost s1 = *store;
    proof {
        assert(is_word(s0.n(), w)) by {
            assert forall|i: int| 0 <= i < w.len() implies (#[trigger] w[i]).len() == s0.n() by {
                if i < t.len() {
                    assert(w[i] == t[i]);
                }
            }
        }
        dfa.lemma_valid(s1, s0);
        x0.lemma_valid(s1, s0);
        x0.lemma_states(s0);
        lemma_lang_valid(&x0, s1, s0, x0.init(), w);
        assert(vars_ok::<C, L>(*vars, l1, dfa));
    }
    add_lower_bound_clause_frontier(cex, inst, vars, learner, store, dfa);
    proof {
        let d0 = has_word::<C>(x0, *vars, s0, dfa, w);
        let d1 = has_word::<C>(x0, *vars, s1, dfa, w);
        assert forall|g: Guess| #[trigger] d0(g) implies d1(g) by {
            lemma_has_word_kept::<C>(&x0, *vars, s1, s0, dfa, w, g);
        }
        lemma_refines_less(*learner, l1, d1, d0);
        lemma_refines_twice(*learner, l1, o, d0);
        lemma_frontier_kept::<C, L>(*learner, l1, o, x0, *vars, s1, s0, dfa, t, cex.output@);
    }
}

/// The automaton is that of the constraint.
pub open spec fn fits<C: ENFA>(x: &Instantiate<C>, c: Constraint, st: SPPstore) -> bool {
    &&& c.ok(st)
    &&& x.valid(st)
    &&& x.graph.states@[0] == c.the_start()
    &&& forall|hs: Fill, w: Word|
        is_word(st.n(), w) ==> (#[trigger] x.aut.accepts(st, hs, c.the_start().aexpr, w) <==> c.lang(
            st,
            hs,
        )(w))
}

/// The constraint holds with what the guess puts in the holes.
pub open spec fn met_by<'a, C: Candidate<'a>>(
    c: Constraint,
    vars: Filling<C::Var>,
    st: SPPstore,
    dfa: &'a ExplicitDFA,
) -> Claim {
    |g: Guess| c.met(st, guess_fill::<C>(vars, st, dfa, g))
}

/// The word of a way through a hole is a word.
proof fn lemma_witness_word<C: ENFA>(x: &Instantiate<C>, st: SPPstore, u: Witness<C::State>)
    requires
        x.is_witness(st, u),
    ensures
        is_word(st.n(), witness_word(u)),
{
    let c = x.holes.val(u.0);
    let path = seq![(c.init(), u.1.0@)] + path_of(u.1.1@);
    let w = witness_word(u);
    assert forall|i: int| 0 <= i < w.len() implies (#[trigger] w[i]).len() == st.n() by {
        if i < path.len() {
            assert(path[i].1.len() == st.n());
            if i > 0 {
                assert(path[i] == path_of(u.1.1@)[i - 1]);
            }
        }
    }
}

/// A way through a hole stays one when the store grows.
proof fn lemma_witness_kept<C: ENFA>(
    x: &Instantiate<C>,
    st: SPPstore,
    o: SPPstore,
    u: Witness<C::State>,
)
    requires
        o.wf(),
        st.wf(),
        st.extends(&o),
        x.valid(o),
        x.is_witness(o, u),
    ensures
        x.is_witness(st, u),
{
    let c = x.holes.val(u.0);
    let path = seq![(c.init(), u.1.0@)] + path_of(u.1.1@);
    assert(x.holes.has(u.0));
    c.lemma_states(o);
    c.lemma_valid(st, o);
    crate::holes::inst::lemma_path_store(&c, st, o, path);
    let k = path.len() - 1;
    crate::holes::aut::lemma_path_states(&c, o, path, k);
    assert(path[k].1.len() == o.n());
}

/// A guess that meets an upper bound does not admit the ways through the holes that
/// make a word outside the bound.
proof fn lemma_upper<'a, C: Candidate<'a>>(
    c: Constraint,
    x: &Instantiate<C>,
    vars: Filling<C::Var>,
    s0: SPPstore,
    s1: SPPstore,
    dfa: &'a ExplicitDFA,
    us: Seq<Witness<C::State>>,
    w: Word,
    g: Guess,
)
    requires
        s0.wf(),
        s1.wf(),
        s1.extends(&s0),
        dfa.valid(s0),
        fits(x, c, s0),
        c.is_upper(),
        separates(s0.n(), enfa_lang(x, s0), enfa_lang(&c.the_dfa(), s0), w),
        x.accounts(s0, 0, us, w),
        met_by::<C>(c, vars, s0, dfa)(g),
    ensures
        !admits(guess_fill::<C>(vars, s1, dfa, g), us),
{
    let hs = guess_fill::<C>(vars, s1, dfa, g);
    let gs = guess_fill::<C>(vars, s0, dfa, g);
    if admits(hs, us) {
        lemma_fill_kept::<C>(x, vars, s1, s0, dfa, g);
        assert(admits(gs, us)) by {
            assert forall|k: int| 0 <= k < us.len() implies gs((#[trigger] us[k]).0)(
                witness_word(us[k]),
            ) by {
                lemma_witness_word(x, s0, us[k]);
                assert(hs(us[k].0)(witness_word(us[k])));
            }
        }
        assert(x.aut.accepts(s0, gs, c.the_start().aexpr, w));
        assert(c.lang(s0, gs)(w));
        assert(contained(s0.n(), c.lang(s0, gs), enfa_lang(&c.the_dfa(), s0)));
    }
}

/// The learner goes on from `o` to `l` by the clause that not all ways through the holes
/// are admitted that give the automaton a word outside the bound.
pub open spec fn upper_clause<'a, C: Candidate<'a>, L: SmtLearner<'a>>(
    l: L,
    o: L,
    c: Constraint,
    x: Instantiate<C>,
    vars: Filling<C::Var>,
    st: SPPstore,
    dfa: &'a ExplicitDFA,
) -> bool {
    exists|us: Seq<Witness<C::State>>, w: Word| #[trigger]
        x.accounts(st, 0, us, w) && separates(
            st.n(),
            enfa_lang(&x, st),
            enfa_lang(&c.the_dfa(), st),
            w,
        ) && refines(l, o, |g: Guess| !admits(guess_fill::<C>(vars, st, dfa, g), us)) && demands(
            l,
            |g: Guess| !admits(guess_fill::<C>(vars, st, dfa, g), us),
        )
}

/// The bound has a word that the automaton has not.  The store has grown to `s` since.
pub open spec fn lacks<C: ENFA>(
    c: Constraint,
    x: Instantiate<C>,
    st: SPPstore,
    s: SPPstore,
    t: Seq<Pkt>,
    out: Pkt,
) -> bool {
    &&& s.wf()
    &&& s.extends(&st)
    &&& separates(st.n(), enfa_lang(&c.the_dfa(), st), enfa_lang(&x, st), t.push(out))
}

/// The learner goes on from `o` to `l` by the clause of a word that the bound has and
/// the automaton has not: by a minimum cut, if that is asked for and the network is not too
/// large, else by the frontier.
pub open spec fn lower_clause<'a, C: Candidate<'a>, L: SmtLearner<'a>>(
    l: L,
    o: L,
    c: Constraint,
    x: Instantiate<C>,
    vars: Filling<C::Var>,
    st: SPPstore,
    dfa: &'a ExplicitDFA,
    flags: Flags,
) -> bool {
    exists|s: SPPstore, t: Seq<Pkt>, out: Pkt| #[trigger]
        lacks(c, x, st, s, t, out) && (if !flags.mincut() {
            frontier_clause::<C, L>(l, o, x, vars, s, dfa, t, out)
        } else if !too_large(&x, t.len()) {
            cut_clause::<C, L>(l, o, x, vars, s, dfa, t, out)
        } else {
            cut_clause::<C, L>(l, o, x, vars, s, dfa, t, out) || frontier_clause::<C, L>(
                l,
                o,
                x,
                vars,
                s,
                dfa,
                t,
                out,
            )
        })
}

/// Which ways through the holes a guess admits does not change when the store grows.
proof fn lemma_admits_kept<'a, C: Candidate<'a>>(
    x: &Instantiate<C>,
    vars: Filling<C::Var>,
    s0: SPPstore,
    s1: SPPstore,
    dfa: &'a ExplicitDFA,
    us: Seq<Witness<C::State>>,
    g: Guess,
)
    requires
        s0.wf(),
        s1.wf(),
        s1.extends(&s0),
        dfa.valid(s0),
        x.valid(s0),
        forall|k: int| 0 <= k < us.len() ==> x.is_witness(s0, #[trigger] us[k]),
    ensures
        admits(guess_fill::<C>(vars, s1, dfa, g), us) == admits(
            guess_fill::<C>(vars, s0, dfa, g),
            us,
        ),
{
    let hs = guess_fill::<C>(vars, s1, dfa, g);
    let gs = guess_fill::<C>(vars, s0, dfa, g);
    lemma_fill_kept::<C>(x, vars, s1, s0, dfa, g);
    assert forall|k: int| 0 <= k < us.len() implies #[trigger] hs(us[k].0)(witness_word(us[k]))
        == gs(us[k].0)(witness_word(us[k])) by {
        lemma_witness_word(x, s0, us[k]);
    }
    if admits(gs, us) {
        assert forall|k: int| 0 <= k < us.len() implies hs((#[trigger] us[k]).0)(
            witness_word(us[k]),
        ) by {
            assert(gs(us[k].0)(witness_word(us[k])));
            assert(hs(us[k].0)(witness_word(us[k])) == gs(us[k].0)(witness_word(us[k])));
        }
    }
    if admits(hs, us) {
        assert forall|k: int| 0 <= k < us.len() implies gs((#[trigger] us[k]).0)(
            witness_word(us[k]),
        ) by {
            assert(hs(us[k].0)(witness_word(us[k])) == gs(us[k].0)(witness_word(us[k])));
        }
    }
}

impl Constraint {
    /// Whether the constraint holds with what the holes are filled with.  If not,
    /// a clause is asserted that every guess that meets the constraint satisfies: one
    /// against a word outside an upper bound if there is such a word, else one for a
    /// word of the lower bound.
    pub fn check<'a, C: Candidate<'a>, L: SmtLearner<'a>>(
        &self,
        inst: &mut Instantiate<C>,
        vars: &Filling<C::Var>,
        learner: &mut L,
        store: &mut SPPstore,
        dfa: &'a ExplicitDFA,
        flags: Flags,
    ) -> (r: bool)
        requires
            old(learner).wf(),
            old(store).wf(),
            old(store).n() == old(learner).n(),
            dfa.valid(*old(store)),
            fits(&*old(inst), *self, *old(store)),
            filled_by(*old(inst), *vars, dfa),
            vars_ok::<C, L>(*vars, *old(learner), dfa),
        ensures
            *final(inst) == *old(inst),
            final(store).wf(),
            final(store).extends(old(store)),
            r <==> self.met(*old(store), old(inst).fill(*old(store))),
            r ==> *final(learner) == *old(learner),
            !r ==> refines(
                *final(learner),
                *old(learner),
                met_by::<C>(*self, *vars, *old(store), dfa),
            ),
            !r ==> if self.is_upper() && !contained(
                old(store).n(),
                self.lang(*old(store), old(inst).fill(*old(store))),
                enfa_lang(&self.the_dfa(), *old(store)),
            ) {
                upper_clause::<C, L>(
                    *final(learner),
                    *old(learner),
                    *self,
                    *old(inst),
                    *vars,
                    *old(store),
                    dfa,
                )
            } else {
                lower_clause::<C, L>(
                    *final(learner),
                    *old(learner),
                    *self,
                    *old(inst),
                    *vars,
                    *old(store),
                    dfa,
                    flags,
                )
            },
    {
        let ghost o = *learner;
        let ghost s0 = *store;
        let ghost x0 = *inst;
        let ghost n = s0.n();
        let ghost hs = x0.fill(s0);
        let ghost bound = self.the_dfa();
        let ghost demand = met_by::<C>(*self, *vars, s0, dfa);
        proof {
            assert forall|w: Word| is_word(n, w) implies (#[trigger] enfa_lang(&x0, s0)(w)
                <==> self.lang(s0, hs)(w)) by {
                x0.law_instantiate(s0, w);
            }
        }
        if self.upper() {
            match inst.check_less_than(store, self.dfa()) {
                Err(us) => {
                    let ghost s1 = *store;
                    let ghost w = choose|w: Word| #[trigger]
                        separates(n, enfa_lang(&x0, s0), enfa_lang(&bound, s0), w) && x0.accounts(
                            s0,
                            0,
                            us@,
                            w,
                        );
                    proof {
                        dfa.lemma_valid(s1, s0);
                        x0.lemma_valid(s1, s0);
                        assert forall|k: int| 0 <= k < us@.len() implies x0.is_witness(
                            s1,
                            #[trigger] us@[k],
                        ) by {
                            lemma_witness_kept(&x0, s1, s0, us@[k]);
                        }
                        assert(self.lang(s0, hs)(w));
                        assert(!self.met(s0, hs));
                    }
                    add_upper_bound_clause(&us, &*inst, vars, learner, store, dfa);
                    proof {
                        let d1 = |g: Guess| !admits(guess_fill::<C>(*vars, s1, dfa, g), us@);
                        assert forall|g: Guess| #[trigger] demand(g) implies d1(g) by {
                            lemma_upper::<C>(*self, &x0, *vars, s0, s1, dfa, us@, w, g);
                        }
                        lemma_refines_less(*learner, o, d1, demand);
                        let d0 = |g: Guess| !admits(guess_fill::<C>(*vars, s0, dfa, g), us@);
                        assert forall|g: Guess| #[trigger] d0(g) == d1(g) by {
                            lemma_admits_kept::<C>(&x0, *vars, s0, s1, dfa, us@, g);
                        }
                        lemma_refines_less(*learner, o, d1, d0);
                        assert forall|g: Guess, e: Bits| #[trigger]
                            learner.allows(g, e) implies d0(g) by {
                            assert(d1(g));
                            assert(d0(g) == d1(g));
                        }
                        assert(demands(*learner, d0));
                        assert(x0.accounts(s0, 0, us@, w));
                    }
                    return false;
                },
                Ok(_) => {
                    proof {
                        assert(contained(n, self.lang(s0, hs), enfa_lang(&bound, s0))) by {
                            assert forall|w: Word|
                                is_word(n, w) && #[trigger] self.lang(s0, hs)(w) implies enfa_lang(
                                &bound,
                                s0,
                            )(w) by {
                                assert(enfa_lang(&x0, s0)(w));
                            }
                        }
                    }
                },
            }
        }
        let ghost s1 = *store;
        proof {
            dfa.lemma_valid(s1, s0);
            x0.lemma_valid(s1, s0);
            x0.lemma_states(s0);
            self.lemma_ok(s1, s0);
            assert forall|w: Word| is_word(n, w) implies #[trigger] enfa_lang(&x0, s1)(w)
                == enfa_lang(&x0, s0)(w) by {
                lemma_lang_valid(&x0, s1, s0, x0.init(), w);
            }
        }
        if self.lower() {
            match inst.check_greater_than(store, self.dfa()) {
                Err(cex) => {
                    let ghost s2 = *store;
                    let ghost t = packets(cex.trace@);
                    let ghost w = t.push(cex.output@);
                    proof {
                        dfa.lemma_valid(s2, s1);
                        x0.lemma_valid(s2, s1);
                        x0.lemma_states(s1);
                        lemma_lang_valid(&x0, s2, s1, x0.init(), w);
                        assert forall|i: int| 0 <= i < t.len() implies (#[trigger] t[i]).len()
                            == n by {
                            assert(w[i] == t[i]);
                        }
                        assert(w[w.len() - 1] == cex.output@);
                        assert(enfa_lang(&bound, s0)(w));
                        assert(!self.lang(s0, hs)(w));
                        assert(!self.met(s0, hs));
                    }
                    add_lower_bound_clause(&cex, inst, vars, learner, store, dfa, flags);
                    proof {
                        let d2 = has_word::<C>(x0, *vars, s2, dfa, w);
                        assert forall|g: Guess| #[trigger] demand(g) implies d2(g) by {
                            let gs = guess_fill::<C>(*vars, s0, dfa, g);
                            assert(contained(n, enfa_lang(&bound, s0), self.lang(s0, gs)));
                            assert(self.lang(s0, gs)(w));
                            assert(x0.aut.accepts(s0, gs, self.the_start().aexpr, w));
                            lemma_has_word_kept::<C>(&x0, *vars, s2, s0, dfa, w, g);
                        }
                        lemma_refines_less(*learner, o, d2, demand);
                        assert(lacks(*self, x0, s0, s2, t, cex.output@));
                    }
                    return false;
                },
                Ok(_) => {
                    proof {
                        assert(contained(n, enfa_lang(&bound, s0), self.lang(s0, hs))) by {
                            assert forall|w: Word|
                                is_word(n, w) && #[trigger] enfa_lang(&bound, s0)(w)
                                implies self.lang(s0, hs)(w) by {
                                assert(enfa_lang(&bound, s1)(w));
                                assert(enfa_lang(&x0, s1)(w));
                                assert(enfa_lang(&x0, s0)(w));
                            }
                        }
                    }
                },
            }
        }
        true
    }
}


// ---- the loop ----------------------------------------------------------------------------------

/// Why no filling was found.
#[derive(Debug, Clone, PartialEq, Eq)]
pub enum CegisError {
    /// There is none.
    Infeasible,
    /// The rounds that were allowed did not suffice; there may be one.
    IterationLimit,
    /// The solver gave no answer.
    Unknown,
    /// The solver cannot number as many bits and states as the problem has.
    TooLarge,
}

/// What fills the holes.
pub open spec fn fill_of<C: ENFA>(f: Filling<C>, st: SPPstore) -> Fill {
    |h: Hole| if f.has(h) {
        enfa_lang(&f.val(h), st)
    } else {
        |w: Word| false
    }
}

/// The fillings have the same words.
pub open spec fn same_words(n: nat, hs: Fill, gs: Fill) -> bool {
    forall|h: Hole, w: Word| is_word(n, w) ==> #[trigger] hs(h)(w) == gs(h)(w)
}

/// All constraints hold with the holes filled.
pub open spec fn all_met(cs: Seq<Constraint>, st: SPPstore, hs: Fill) -> bool {
    forall|i: int| 0 <= i < cs.len() ==> (#[trigger] cs[i]).met(st, hs)
}

/// A slot for each of the holes, and no slot for two.
pub open spec fn slots_for<'a, C: Candidate<'a>>(vars: Filling<C::Var>, holes: Seq<Hole>) -> bool {
    &&& vars.wf()
    &&& forall|h: Hole| #[trigger] vars.has(h) <==> holes.contains(h)
    &&& forall|h: Hole, k: Hole|
        #![trigger vars.val(h), vars.val(k)]
        vars.has(h) && vars.has(k) && h != k ==> C::apart(vars.val(h), vars.val(k)) || C::apart(
            vars.val(k),
            vars.val(h),
        )
}

/// No values of the slots meet all constraints.
pub open spec fn infeasible<'a, C: Candidate<'a>>(
    cs: Seq<Constraint>,
    vars: Filling<C::Var>,
    st: SPPstore,
    dfa: &'a ExplicitDFA,
) -> bool {
    forall|g: Guess, hs: Fill|
        #![trigger guess_fill::<C>(vars, st, dfa, g), all_met(cs, st, hs)]
        same_words(st.n(), hs, guess_fill::<C>(vars, st, dfa, g)) ==> !all_met(cs, st, hs)
}

/// The guesses are such that with each of them some constraint does not hold.
pub open spec fn all_fail<'a, C: Candidate<'a>>(
    cs: Seq<Constraint>,
    vars: Filling<C::Var>,
    st: SPPstore,
    dfa: &'a ExplicitDFA,
    gs: Seq<Guess>,
) -> bool {
    forall|k: int, hs: Fill|
        #![trigger gs[k], all_met(cs, st, hs)]
        0 <= k < gs.len() && same_words(st.n(), hs, guess_fill::<C>(vars, st, dfa, gs[k]))
            ==> !all_met(cs, st, hs)
}

/// As many values of the slots as there can be rounds were tried, and none meets all
/// constraints.
pub open spec fn exhausted<'a, C: Candidate<'a>>(
    limit: Option<usize>,
    cs: Seq<Constraint>,
    holes: Seq<Hole>,
    st: SPPstore,
    dfa: &'a ExplicitDFA,
) -> bool {
    limit matches Some(n) && (n > 0 ==> exists|vars: Filling<C::Var>, gs: Seq<Guess>|
        slots_for::<C>(vars, holes) && gs.len() == n && #[trigger] all_fail::<C>(
            cs,
            vars,
            st,
            dfa,
            gs,
        ))
}

/// The learner has slots for the holes, and what was asserted of them shuts out no filling
/// that is wanted.
pub open spec fn fair<'a, C: Candidate<'a>, L: SmtLearner<'a>>(
    l: L,
    vars: Filling<C::Var>,
    st: SPPstore,
    dfa: &'a ExplicitDFA,
    wanted: spec_fn(Fill) -> bool,
) -> bool {
    &&& l.wf()
    &&& l.n() == st.n()
    &&& vars_ok::<C, L>(vars, l, dfa)
    &&& forall|g: Guess|
        wanted(#[trigger] guess_fill::<C>(vars, st, dfa, g)) ==> admitted(l, g)
}

/// The questions were put to fair learners, and all but the last were answered by values.
pub open spec fn conducted<'a, C: Candidate<'a>, L: SmtLearner<'a>>(
    t: Transcript<L>,
    vars: Filling<C::Var>,
    st: SPPstore,
    dfa: &'a ExplicitDFA,
    wanted: spec_fn(Fill) -> bool,
) -> bool {
    &&& t.asked().len() > 0
    &&& forall|k: int|
        0 <= k < t.asked().len() ==> fair::<C, L>((#[trigger] t.asked()[k]).0, vars, st, dfa, wanted)
    &&& forall|k: int|
        0 <= k < t.asked().len() - 1 ==> (#[trigger] t.asked()[k]).1 is Values
}

/// The learner was asked for the wanted fillings and could not tell whether there is one.
/// Without a limit there is an end to the rounds all the same: the largest number.
pub open spec fn unsettled<'a, C: Candidate<'a>, L: SmtLearner<'a>>(
    limit: Option<usize>,
    holes: Seq<Hole>,
    st: SPPstore,
    dfa: &'a ExplicitDFA,
    wanted: spec_fn(Fill) -> bool,
) -> bool {
    &&& limit != Some(0usize)
    &&& exists|t: Transcript<L>, vars: Filling<C::Var>| #[trigger]
        conducted::<C, L>(t, vars, st, dfa, wanted) && slots_for::<C>(vars, holes) && (
        t.asked().last().1 is Unknown || limit is None && t.asked().len() > usize::MAX)
}

/// The learner was asked for the wanted fillings as often as the limit allows, and answered
/// by values every time.
pub open spec fn used_up<'a, C: Candidate<'a>, L: SmtLearner<'a>>(
    limit: Option<usize>,
    holes: Seq<Hole>,
    st: SPPstore,
    dfa: &'a ExplicitDFA,
    wanted: spec_fn(Fill) -> bool,
) -> bool {
    limit matches Some(n) && (n > 0 ==> exists|t: Transcript<L>, vars: Filling<C::Var>| #[trigger]
        conducted::<C, L>(t, vars, st, dfa, wanted) && slots_for::<C>(vars, holes)
            && t.asked().len() == n + 1 && t.asked().last().1 is Values)
}

/// The fillings that meet all constraints.
pub open spec fn meeting(cs: Seq<Constraint>, st: SPPstore) -> spec_fn(Fill) -> bool {
    |hs: Fill| all_met(cs, st, hs)
}

/// Under a limit, what stays unsettled was left so by the learner: it answered by values as
/// long as it was asked, then that it cannot tell, and it had ruled out no wanted filling.
pub proof fn law_unsettled<'a, C: Candidate<'a>, L: SmtLearner<'a>>(
    limit: usize,
    holes: Seq<Hole>,
    st: SPPstore,
    dfa: &'a ExplicitDFA,
    wanted: spec_fn(Fill) -> bool,
) -> (r: (Transcript<L>, Filling<C::Var>))
    requires
        unsettled::<C, L>(Some(limit), holes, st, dfa, wanted),
    ensures
        limit > 0,
        slots_for::<C>(r.1, holes),
        r.0.asked().len() > 0,
        r.0.asked().last().1 is Unknown,
        forall|k: int|
            0 <= k < r.0.asked().len() - 1 ==> (#[trigger] r.0.asked()[k]).1 is Values,
        forall|g: Guess|
            wanted(#[trigger] guess_fill::<C>(r.1, st, dfa, g)) ==> admitted(
                r.0.asked().last().0,
                g,
            ),
{
    let (t, vars) = choose|t: Transcript<L>, vars: Filling<C::Var>| #[trigger]
        conducted::<C, L>(t, vars, st, dfa, wanted) && slots_for::<C>(vars, holes)
            && t.asked().last().1 is Unknown;
    let last = t.asked()[t.asked().len() - 1];
    assert(fair::<C, L>(last.0, vars, st, dfa, wanted));
    (t, vars)
}

/// A limit is used up by answers: the learner was asked once more than the limit says, it
/// answered by values every time, and it had ruled out no wanted filling.
pub proof fn law_used_up<'a, C: Candidate<'a>, L: SmtLearner<'a>>(
    limit: usize,
    holes: Seq<Hole>,
    st: SPPstore,
    dfa: &'a ExplicitDFA,
    wanted: spec_fn(Fill) -> bool,
) -> (r: (Transcript<L>, Filling<C::Var>))
    requires
        used_up::<C, L>(Some(limit), holes, st, dfa, wanted),
        limit > 0,
    ensures
        slots_for::<C>(r.1, holes),
        r.0.asked().len() == limit + 1,
        forall|k: int| 0 <= k <= limit ==> (#[trigger] r.0.asked()[k]).1 is Values,
        forall|k: int, g: Guess|
            0 <= k <= limit && wanted(#[trigger] guess_fill::<C>(r.1, st, dfa, g)) ==> admitted(
                (#[trigger] r.0.asked()[k]).0,
                g,
            ),
{
    let (t, vars) = choose|t: Transcript<L>, vars: Filling<C::Var>| #[trigger]
        conducted::<C, L>(t, vars, st, dfa, wanted) && slots_for::<C>(vars, holes)
            && t.asked().len() == limit + 1 && t.asked().last().1 is Values;
    assert forall|k: int| 0 <= k <= limit implies (#[trigger] t.asked()[k]).1 is Values by {
        if k == limit {
            assert(t.asked().last() == t.asked()[k]);
        }
    }
    assert forall|k: int, g: Guess|
        0 <= k <= limit && wanted(#[trigger] guess_fill::<C>(vars, st, dfa, g)) implies admitted(
        (#[trigger] t.asked()[k]).0,
        g,
    ) by {
        assert(fair::<C, L>(t.asked()[k].0, vars, st, dfa, wanted));
    }
    (t, vars)
}

/// Questions that were put for some fillings were put for fewer.
pub proof fn lemma_conducted<'a, C: Candidate<'a>, L: SmtLearner<'a>>(
    t: Transcript<L>,
    vars: Filling<C::Var>,
    st: SPPstore,
    o: SPPstore,
    dfa: &'a ExplicitDFA,
    wanted: spec_fn(Fill) -> bool,
    fewer: spec_fn(Fill) -> bool,
)
    requires
        conducted::<C, L>(t, vars, st, dfa, wanted),
        st.n() == o.n(),
        forall|g: Guess|
            fewer(#[trigger] guess_fill::<C>(vars, o, dfa, g)) ==> wanted(
                guess_fill::<C>(vars, st, dfa, g),
            ),
    ensures
        conducted::<C, L>(t, vars, o, dfa, fewer),
{
    assert forall|k: int| 0 <= k < t.asked().len() implies fair::<C, L>(
        (#[trigger] t.asked()[k]).0,
        vars,
        o,
        dfa,
        fewer,
    ) by {
        let l = t.asked()[k].0;
        assert(fair::<C, L>(l, vars, st, dfa, wanted));
        assert forall|g: Guess|
            fewer(#[trigger] guess_fill::<C>(vars, o, dfa, g)) implies admitted(l, g) by {
            assert(wanted(guess_fill::<C>(vars, st, dfa, g)));
        }
    }
}

/// One more question, to a fair learner, after values.
proof fn lemma_asked<'a, C: Candidate<'a>, L: SmtLearner<'a>>(
    t: Transcript<L>,
    o: Transcript<L>,
    l: L,
    r: Reply,
    vars: Filling<C::Var>,
    st: SPPstore,
    dfa: &'a ExplicitDFA,
    wanted: spec_fn(Fill) -> bool,
)
    requires
        t.asked() == o.asked().push((l, r)),
        o.asked().len() == 0 || conducted::<C, L>(o, vars, st, dfa, wanted)
            && o.asked().last().1 is Values,
        fair::<C, L>(l, vars, st, dfa, wanted),
    ensures
        conducted::<C, L>(t, vars, st, dfa, wanted),
        t.asked().last().1 == r,
{
    let a = t.asked();
    let b = o.asked();
    assert forall|k: int| 0 <= k < a.len() implies fair::<C, L>(
        (#[trigger] a[k]).0,
        vars,
        st,
        dfa,
        wanted,
    ) by {
        if k < b.len() {
            assert(a[k] == b[k]);
        }
    }
    assert forall|k: int| 0 <= k < a.len() - 1 implies (#[trigger] a[k]).1 is Values by {
        assert(a[k] == b[k]);
        if k == b.len() - 1 {
            assert(b.last() == b[k]);
        }
    }
}

/// The same words in every hole.
pub open spec fn same_fill<C: ENFA>(x: Filling<C>, y: Filling<C>, st: SPPstore) -> bool {
    &&& forall|h: Hole| #[trigger] x.has(h) <==> y.has(h)
    &&& forall|h: Hole, w: Word|
        #![trigger enfa_lang(&x.val(h), st)(w)]
        #![trigger enfa_lang(&y.val(h), st)(w)]
        x.has(h) && is_word(st.n(), w) ==> enfa_lang(&x.val(h), st)(w) == enfa_lang(&y.val(h), st)(
            w,
        )
}

/// Candidates over the automaton, one for each slot.
pub open spec fn filling_ok<'a, C: Candidate<'a>>(
    f: Filling<C>,
    vars: Filling<C::Var>,
    st: SPPstore,
    dfa: &'a ExplicitDFA,
) -> bool {
    &&& f.wf()
    &&& forall|h: Hole| #[trigger] f.has(h) <==> vars.has(h)
    &&& forall|h: Hole| #[trigger] f.has(h) ==> f.val(h).valid(st) && f.val(h).over(dfa)
}

proof fn lemma_filling_kept<'a, C: Candidate<'a>>(
    f: Filling<C>,
    vars: Filling<C::Var>,
    st: SPPstore,
    o: SPPstore,
    dfa: &'a ExplicitDFA,
)
    requires
        o.wf(),
        st.wf(),
        st.extends(&o),
        filling_ok::<C>(f, vars, o, dfa),
    ensures
        filling_ok::<C>(f, vars, st, dfa),
{
    assert forall|h: Hole| #[trigger] f.has(h) implies f.val(h).valid(st) && f.val(h).over(dfa) by {
        f.val(h).lemma_valid(st, o);
    }
}

/// Copies of the candidates.
fn again_all<'a, C: Candidate<'a>>(
    f: &Filling<C>,
    Ghost(vars): Ghost<Filling<C::Var>>,
    Ghost(st): Ghost<SPPstore>,
    Ghost(dfa): Ghost<&'a ExplicitDFA>,
) -> (r: Filling<C>)
    requires
        st.wf(),
        filling_ok::<C>(*f, vars, st, dfa),
    ensures
        filling_ok::<C>(r, vars, st, dfa),
        same_fill(r, *f, st),
{
    let mut r: Filling<C> = Filling::new();
    let mut i: usize = 0;
    while i < f.entries.len()
        invariant
            st.wf(),
            filling_ok::<C>(*f, vars, st, dfa),
            i <= f.entries@.len(),
            r.wf(),
            forall|j: int| 0 <= j < i ==> r.has((#[trigger] f.entries@[j]).0),
            forall|h: Hole| #[trigger] r.has(h) ==> f.has(h) && r.val(h).valid(st) && r.val(h).over(
                dfa,
            ),
            forall|h: Hole, w: Word|
                #![trigger enfa_lang(&r.val(h), st)(w)]
                r.has(h) && is_word(st.n(), w) ==> enfa_lang(&r.val(h), st)(w) == enfa_lang(
                    &f.val(h),
                    st,
                )(w),
        decreases f.entries.len() - i,
    {
        let h: Hole = f.entries[i].0;
        let ghost r0 = r;
        let c = f.entries[i].1.again();
        proof {
            f.lemma_val(i as int);
            assert(f.has(h));
            assert(f.val(h).valid(st) && f.val(h).over(dfa));
            assert(c.valid(st) && c.over(dfa));
        }
        r.insert(h, c);
        proof {
            assert forall|k: Hole| #[trigger] r.has(k) implies f.has(k) && r.val(k).valid(st)
                && r.val(k).over(dfa) by {
                if k != h {
                    assert(r0.has(k));
                    assert(r.val(k) == r0.val(k));
                }
            }
            assert forall|k: Hole, w: Word|
                #![trigger enfa_lang(&r.val(k), st)(w)]
                r.has(k) && is_word(st.n(), w) implies enfa_lang(&r.val(k), st)(w) == enfa_lang(
                &f.val(k),
                st,
            )(w) by {
                if k != h {
                    assert(r0.has(k));
                    assert(r.val(k) == r0.val(k));
                    assert(enfa_lang(&r0.val(k), st)(w) == enfa_lang(&f.val(k), st)(w));
                } else {
                    assert(enfa_lang(&c, st)(w) == enfa_lang(&f.val(k), st)(w));
                }
            }
        }
        i = i + 1;
    }
    proof {
        assert forall|h: Hole| #[trigger] f.has(h) implies r.has(h) by {
            let j = choose|j: int| #[trigger] f.is_at(h, j);
            assert(r.has(f.entries@[j].0));
        }
        assert forall|h: Hole| #[trigger] r.has(h) <==> vars.has(h) by {
            assert(f.has(h) <==> vars.has(h));
        }
        assert forall|h: Hole, w: Word|
            #![trigger enfa_lang(&f.val(h), st)(w)]
            r.has(h) && is_word(st.n(), w) implies enfa_lang(&r.val(h), st)(w) == enfa_lang(
            &f.val(h),
            st,
        )(w) by {}
    }
    r
}

/// The automata of a solution are those it was asked for.
proof fn lemma_automata<'a>(
    st: SPPstore,
    sol: Solution<'a>,
    slots: nat,
    automata: Seq<&'a ExplicitDFA>,
)
    requires
        solution_ok(st, sol, slots, automata),
    ensures
        sol.spps@.len() == slots,
        automata_of(sol) == automata,
        solution_ok(st, sol, sol.spps@.len(), automata_of(sol)),
{
    assert(automata_of(sol) =~= automata) by {
        assert forall|j: int| 0 <= j < automata.len() implies automata_of(sol)[j]
            == automata[j] by {
            assert(sol.cands@[j].dfa == automata[j]);
        }
    }
}

/// The values of the slots.
fn read_off<'a, C: Candidate<'a>>(
    sol: &Solution<'a>,
    vars: &Filling<C::Var>,
    store: &SPPstore,
    dfa: &'a ExplicitDFA,
) -> (r: Filling<C>)
    requires
        store.wf(),
        dfa.valid(*store),
        solution_ok(*store, *sol, sol.spps@.len(), automata_of(*sol)),
        vars.wf(),
        forall|h: Hole| #[trigger]
            vars.has(h) ==> C::placed(vars.val(h), sol.spps@.len(), automata_of(*sol), dfa),
    ensures
        filling_ok::<C>(r, *vars, *store, dfa),
        forall|h: Hole|
            #![trigger r.val(h)]
            r.has(h) ==> same(
                store.n(),
                enfa_lang(&r.val(h), *store),
                C::slot_lang(vars.val(h), *store, dfa, guess_by(*store, *sol)),
            ),
{
    let mut r: Filling<C> = Filling::new();
    let mut i: usize = 0;
    while i < vars.entries.len()
        invariant
            store.wf(),
            dfa.valid(*store),
            solution_ok(*store, *sol, sol.spps@.len(), automata_of(*sol)),
            vars.wf(),
            forall|h: Hole| #[trigger] vars.has(h) ==> C::placed(
                vars.val(h),
                sol.spps@.len(),
                automata_of(*sol),
                dfa,
            ),
            i <= vars.entries@.len(),
            r.wf(),
            forall|j: int| 0 <= j < i ==> r.has((#[trigger] vars.entries@[j]).0),
            forall|h: Hole| #[trigger] r.has(h) ==> vars.has(h) && r.val(h).valid(*store)
                && r.val(h).over(dfa),
            forall|h: Hole|
                #![trigger r.val(h)]
                r.has(h) ==> same(
                    store.n(),
                    enfa_lang(&r.val(h), *store),
                    C::slot_lang(vars.val(h), *store, dfa, guess_by(*store, *sol)),
                ),
        decreases vars.entries.len() - i,
    {
        let h: Hole = vars.entries[i].0;
        let v: C::Var = vars.entries[i].1;
        let ghost r0 = r;
        proof {
            vars.lemma_val(i as int);
            assert(C::placed(vars.val(h), sol.spps@.len(), automata_of(*sol), dfa));
        }
        let c = C::from_solution(sol, v, store, dfa);
        r.insert(h, c);
        proof {
            assert forall|k: Hole| #[trigger] r.has(k) implies vars.has(k) && r.val(k).valid(
                *store,
            ) && r.val(k).over(dfa) by {
                if k != h {
                    assert(r0.has(k));
                    assert(r.val(k) == r0.val(k));
                }
            }
            assert forall|k: Hole|
                #![trigger r.val(k)]
                r.has(k) implies same(
                store.n(),
                enfa_lang(&r.val(k), *store),
                C::slot_lang(vars.val(k), *store, dfa, guess_by(*store, *sol)),
            ) by {
                if k != h {
                    assert(r0.has(k));
                    assert(r.val(k) == r0.val(k));
                }
            }
        }
        i = i + 1;
    }
    proof {
        assert forall|h: Hole| #[trigger] vars.has(h) implies r.has(h) by {
            let j = choose|j: int| #[trigger] vars.is_at(h, j);
            assert(r.has(vars.entries@[j].0));
        }
    }
    r
}

/// An automaton for the constraint, with the candidates in its holes.
pub open spec fn stands<'a, C: Candidate<'a>>(
    x: Instantiate<C>,
    c: Constraint,
    f: Filling<C>,
    vars: Filling<C::Var>,
    st: SPPstore,
    dfa: &'a ExplicitDFA,
) -> bool {
    &&& fits(&x, c, st)
    &&& forall|h: Hole| #[trigger] x.aut.uses(h) ==> vars.has(h)
    &&& filling_ok::<C>(x.holes, vars, st, dfa)
    &&& same_fill(x.holes, f, st)
}

/// An automaton for the constraint stays one when the store grows.
proof fn lemma_stands_kept<'a, C: Candidate<'a>>(
    x: Instantiate<C>,
    c: Constraint,
    f: Filling<C>,
    vars: Filling<C::Var>,
    st: SPPstore,
    o: SPPstore,
    dfa: &'a ExplicitDFA,
)
    requires
        o.wf(),
        st.wf(),
        st.extends(&o),
        filling_ok::<C>(f, vars, o, dfa),
        stands::<C>(x, c, f, vars, o, dfa),
    ensures
        stands::<C>(x, c, f, vars, st, dfa),
{
    c.lemma_ok(st, o);
    x.lemma_valid(st, o);
    x.aut.lemma_wf_ext(st, o);
    lemma_filling_kept::<C>(x.holes, vars, st, o, dfa);
    assert(graph_of(x.aut, o, x.graph));
    assert(x.aut.has(x.graph.states@[0].aexpr));
    assert forall|hs: Fill, w: Word| is_word(st.n(), w) implies (#[trigger] x.aut.accepts(
        st,
        hs,
        c.the_start().aexpr,
        w,
    ) <==> c.lang(st, hs)(w)) by {
        assert(x.aut.accepts(st, hs, c.the_start().aexpr, w) == x.aut.accepts(
            o,
            hs,
            c.the_start().aexpr,
            w,
        ));
        assert(c.lang(st, hs)(w) == c.lang(o, hs)(w));
    }
    lemma_same_kept::<C>(x.holes, f, vars, st, o, dfa);
}

proof fn lemma_same_kept<'a, C: Candidate<'a>>(
    x: Filling<C>,
    f: Filling<C>,
    vars: Filling<C::Var>,
    st: SPPstore,
    o: SPPstore,
    dfa: &'a ExplicitDFA,
)
    requires
        o.wf(),
        st.wf(),
        st.extends(&o),
        filling_ok::<C>(f, vars, o, dfa),
        filling_ok::<C>(x, vars, o, dfa),
        same_fill(x, f, o),
    ensures
        same_fill(x, f, st),
{
    assert forall|h: Hole, w: Word|
        #![trigger enfa_lang(&x.val(h), st)(w)]
        #![trigger enfa_lang(&f.val(h), st)(w)]
        x.has(h) && is_word(st.n(), w) implies enfa_lang(&x.val(h), st)(w) == enfa_lang(
        &f.val(h),
        st,
    )(w) by {
        assert(f.has(h));
        x.val(h).lemma_states(o);
        f.val(h).lemma_states(o);
        lemma_lang_valid(&x.val(h), st, o, x.val(h).init(), w);
        lemma_lang_valid(&f.val(h), st, o, f.val(h).init(), w);
        assert(enfa_lang(&x.val(h), o)(w) == enfa_lang(&f.val(h), o)(w));
    }
}

/// Whether the constraint holds depends on the words in the holes alone.
proof fn lemma_met_fill<'a, C: Candidate<'a>>(
    x: Instantiate<C>,
    c: Constraint,
    f: Filling<C>,
    vars: Filling<C::Var>,
    st: SPPstore,
    dfa: &'a ExplicitDFA,
)
    requires
        st.wf(),
        stands::<C>(x, c, f, vars, st, dfa),
    ensures
        c.met(st, x.fill(st)) == c.met(st, fill_of(f, st)),
{
    let hs = x.fill(st);
    let gs = fill_of(f, st);
    assert forall|h: Hole, w: Word| x.aut.uses(h) && is_word(st.n(), w) implies #[trigger] hs(h)(w)
        == gs(h)(w) by {
        assert(x.holes.has(h));
        assert(f.has(h));
        assert(enfa_lang(&x.holes.val(h), st)(w) == enfa_lang(&f.val(h), st)(w));
    }
    assert(below_fill(&x, st, hs, gs));
    assert(below_fill(&x, st, gs, hs)) by {
        assert forall|h: Hole, w: Word|
            #![trigger hs(h)(w)]
            #![trigger gs(h)(w)]
            x.aut.uses(h) && is_word(st.n(), w) && gs(h)(w) implies hs(h)(w) by {
            assert(hs(h)(w) == gs(h)(w));
        }
    }
    assert forall|w: Word| is_word(st.n(), w) implies #[trigger] c.lang(st, hs)(w) == c.lang(
        st,
        gs,
    )(w) by {
        lemma_accepts_same(&x, st, hs, gs, w);
        assert(x.aut.accepts(st, hs, c.the_start().aexpr, w) <==> c.lang(st, hs)(w));
        assert(x.aut.accepts(st, gs, c.the_start().aexpr, w) <==> c.lang(st, gs)(w));
    }
    c.lemma_met_same(st, hs, gs);
}


/// A slot for each of the holes.
fn allocate<'a, C: Candidate<'a>, L: SmtLearner<'a>>(
    learner: &mut L,
    holes: &[Hole],
    dfa: &'a ExplicitDFA,
) -> (vars: Filling<C::Var>)
    requires
        old(learner).wf(),
        4 * old(learner).n() + dfa.transitions@.len() <= u32::MAX,
    ensures
        final(learner).wf(),
        final(learner).n() == old(learner).n(),
        forall|g: Guess, e: Bits| #[trigger] final(learner).allows(g, e) == old(learner).allows(g, e),
        slots_for::<C>(vars, holes@),
        vars_ok::<C, L>(vars, *final(learner), dfa),
{
    let ghost o = *learner;
    let mut vars: Filling<C::Var> = Filling::new();
    let mut i: usize = 0;
    while i < holes.len()
        invariant
            learner.wf(),
            learner.n() == o.n(),
            4 * o.n() + dfa.transitions@.len() <= u32::MAX,
            forall|g: Guess, e: Bits| #[trigger] learner.allows(g, e) == o.allows(g, e),
            i <= holes@.len(),
            vars.wf(),
            forall|h: Hole| #[trigger] vars.has(h) <==> holes@.take(i as int).contains(h),
            forall|h: Hole, k: Hole|
                #![trigger vars.val(h), vars.val(k)]
                vars.has(h) && vars.has(k) && h != k ==> C::apart(vars.val(h), vars.val(k))
                    || C::apart(vars.val(k), vars.val(h)),
            vars_ok::<C, L>(vars, *learner, dfa),
        decreases holes.len() - i,
    {
        let ghost l0 = *learner;
        let ghost v0 = vars;
        let h: Hole = holes[i];
        let v = C::fresh_var(learner, dfa);
        vars.insert(h, v);
        proof {
            let l1 = *learner;
            assert forall|g: Guess, e: Bits| #[trigger] l1.allows(g, e) == o.allows(g, e) by {
                assert(l0.allows(g, e) == o.allows(g, e));
            }
            assert forall|k: Hole| #[trigger] vars.has(k) <==> holes@.take(i + 1).contains(k) by {
                let t0 = holes@.take(i as int);
                let t1 = holes@.take(i + 1);
                assert(t1 =~= t0.push(h));
                assert(v0.has(k) <==> t0.contains(k));
                if t0.contains(k) {
                    let j = choose|j: int| 0 <= j < t0.len() && t0[j] == k;
                    assert(t1[j] == k);
                }
                if k == h {
                    assert(t1[i as int] == k);
                }
                if t1.contains(k) && k != h {
                    let j = choose|j: int| 0 <= j < t1.len() && t1[j] == k;
                    assert(t0[j] == k);
                }
            }
            assert forall|k: Hole| #[trigger] vars.has(k) implies C::placed(
                vars.val(k),
                l1.slots(),
                l1.automata(),
                dfa,
            ) by {
                if k != h {
                    assert(v0.has(k));
                    assert(vars.val(k) == v0.val(k));
                    C::lemma_placed(
                        v0.val(k),
                        l0.slots(),
                        l0.automata(),
                        l1.slots(),
                        l1.automata(),
                        dfa,
                    );
                }
            }
            assert forall|j: Hole, k: Hole|
                #![trigger vars.val(j), vars.val(k)]
                vars.has(j) && vars.has(k) && j != k implies C::apart(vars.val(j), vars.val(k))
                || C::apart(vars.val(k), vars.val(j)) by {
                if j == h {
                    assert(v0.has(k));
                    assert(vars.val(k) == v0.val(k));
                    assert(C::placed(v0.val(k), l0.slots(), l0.automata(), dfa));
                } else if k == h {
                    assert(v0.has(j));
                    assert(vars.val(j) == v0.val(j));
                    assert(C::placed(v0.val(j), l0.slots(), l0.automata(), dfa));
                } else {
                    assert(v0.has(j) && v0.has(k));
                    assert(vars.val(j) == v0.val(j) && vars.val(k) == v0.val(k));
                }
            }
        }
        i = i + 1;
    }
    proof {
        assert(holes@.take(holes@.len() as int) =~= holes@);
    }
    vars
}

/// The automata of the constraints, in order, with the candidates in their holes.
pub open spec fn all_stand<'a, C: Candidate<'a>>(
    xs: Seq<Instantiate<C>>,
    cs: Seq<Constraint>,
    f: Filling<C>,
    vars: Filling<C::Var>,
    st: SPPstore,
    dfa: &'a ExplicitDFA,
) -> bool {
    &&& xs.len() <= cs.len()
    &&& filling_ok::<C>(f, vars, st, dfa)
    &&& forall|i: int|
        0 <= i < xs.len() ==> #[trigger] stands::<C>(xs[i], cs[i], f, vars, st, dfa)
}

proof fn lemma_all_kept<'a, C: Candidate<'a>>(
    xs: Seq<Instantiate<C>>,
    cs: Seq<Constraint>,
    f: Filling<C>,
    vars: Filling<C::Var>,
    st: SPPstore,
    o: SPPstore,
    dfa: &'a ExplicitDFA,
)
    requires
        o.wf(),
        st.wf(),
        st.extends(&o),
        all_stand::<C>(xs, cs, f, vars, o, dfa),
    ensures
        all_stand::<C>(xs, cs, f, vars, st, dfa),
{
    lemma_filling_kept::<C>(f, vars, st, o, dfa);
    assert forall|i: int| 0 <= i < xs.len() implies #[trigger] stands::<C>(
        xs[i],
        cs[i],
        f,
        vars,
        st,
        dfa,
    ) by {
        assert(stands::<C>(xs[i], cs[i], f, vars, o, dfa));
        lemma_stands_kept::<C>(xs[i], cs[i], f, vars, st, o, dfa);
    }
}

/// The automata of the constraints, with the candidates in their holes.
fn instantiate_all<'a, C: Candidate<'a>>(
    store: &mut SPPstore,
    constraints: &Vec<Constraint>,
    f: &Filling<C>,
    Ghost(vars): Ghost<Filling<C::Var>>,
    Ghost(dfa): Ghost<&'a ExplicitDFA>,
) -> (xs: Vec<Instantiate<C>>)
    requires
        old(store).wf(),
        filling_ok::<C>(*f, vars, *old(store), dfa),
        forall|i: int| 0 <= i < constraints@.len() ==> (#[trigger] constraints@[i]).ok(*old(store)),
        forall|i: int, h: Hole|
            #![trigger constraints@[i].the_aut().uses(h)]
            0 <= i < constraints@.len() && constraints@[i].the_aut().uses(h) ==> vars.has(h),
    ensures
        final(store).wf(),
        final(store).extends(old(store)),
        xs@.len() == constraints@.len(),
        all_stand::<C>(xs@, constraints@, *f, vars, *final(store), dfa),
{
    let ghost o = *store;
    let mut xs: Vec<Instantiate<C>> = Vec::new();
    let mut i: usize = 0;
    while i < constraints.len()
        invariant
            o.wf(),
            store.wf(),
            store.extends(&o),
            forall|i: int| 0 <= i < constraints@.len() ==> (#[trigger] constraints@[i]).ok(o),
            forall|i: int, h: Hole|
                #![trigger constraints@[i].the_aut().uses(h)]
                0 <= i < constraints@.len() && constraints@[i].the_aut().uses(h) ==> vars.has(h),
            i <= constraints@.len(),
            xs@.len() == i,
            all_stand::<C>(xs@, constraints@, *f, vars, *store, dfa),
        decreases constraints.len() - i,
    {
        let c = &constraints[i];
        let ghost s0 = *store;
        let ghost xs0 = xs@;
        proof {
            assert(constraints@[i as int].ok(o));
            c.lemma_ok(s0, o);
        }
        let holes = again_all::<C>(f, Ghost(vars), Ghost(s0), Ghost(dfa));
        let aut = c.aut().copy();
        proof {
            assert forall|h: Hole| #[trigger] aut.uses(h) implies holes.has(h) by {
                assert(constraints@[i as int].the_aut().uses(h));
                assert(holes.has(h) <==> vars.has(h));
            }
        }
        let x = Instantiate::new(store, aut, c.start(), holes);
        proof {
            let st = *store;
            lemma_all_kept::<C>(xs0, constraints@, *f, vars, st, s0, dfa);
            c.lemma_ok(st, s0);
            lemma_filling_kept::<C>(holes, vars, st, s0, dfa);
            lemma_same_kept::<C>(holes, *f, vars, st, s0, dfa);
            assert forall|hs: Fill, w: Word| is_word(st.n(), w) implies (#[trigger] x.aut.accepts(
                st,
                hs,
                c.the_start().aexpr,
                w,
            ) <==> c.lang(st, hs)(w)) by {
                let s = c.the_start().aexpr;
                let d = c.the_aut();
                assert(aut.has(s));
                assert(aut.accepts(s0, hs, s, w) == x.aut.accepts(st, hs, s, w));
                assert(aut.accepts(s0, hs, s, w) == d.accepts(s0, hs, s, w)) by {
                    assert forall|z: nat| #[trigger] aut.takes(s0, hs, s, w, z) == d.takes(
                        s0,
                        hs,
                        s,
                        w,
                        z,
                    ) by {}
                    if d.accepts(s0, hs, s, w) {
                        let z = choose|z: nat| #[trigger] d.takes(s0, hs, s, w, z);
                        assert(aut.takes(s0, hs, s, w, z));
                    }
                }
                assert(c.lang(st, hs)(w) == c.lang(s0, hs)(w));
            }
            assert forall|h: Hole| #[trigger] x.aut.uses(h) implies vars.has(h) by {
                assert(aut.uses(h));
                assert(constraints@[i as int].the_aut().uses(h));
            }
            assert(stands::<C>(x, constraints@[i as int], *f, vars, st, dfa));
        }
        xs.push(x);
        proof {
            assert forall|j: int| 0 <= j < xs@.len() implies #[trigger] stands::<C>(
                xs@[j],
                constraints@[j],
                *f,
                vars,
                *store,
                dfa,
            ) by {
                if j < i {
                    assert(xs@[j] == xs0[j]);
                    assert(stands::<C>(xs0[j], constraints@[j], *f, vars, *store, dfa));
                }
            }
        }
        i = i + 1;
    }
    xs
}

/// Fills the holes anew.
fn refill<'a, C: Candidate<'a>>(
    xs: Vec<Instantiate<C>>,
    f: &Filling<C>,
    g: &Filling<C>,
    Ghost(constraints): Ghost<Seq<Constraint>>,
    Ghost(vars): Ghost<Filling<C::Var>>,
    Ghost(st): Ghost<SPPstore>,
    Ghost(dfa): Ghost<&'a ExplicitDFA>,
) -> (ys: Vec<Instantiate<C>>)
    requires
        st.wf(),
        all_stand::<C>(xs@, constraints, *f, vars, st, dfa),
        filling_ok::<C>(*g, vars, st, dfa),
    ensures
        ys@.len() == xs@.len(),
        all_stand::<C>(ys@, constraints, *g, vars, st, dfa),
{
    let ghost xs0 = xs@;
    let mut xs = xs;
    let mut i: usize = 0;
    while i < xs.len()
        invariant
            st.wf(),
            all_stand::<C>(xs0, constraints, *f, vars, st, dfa),
            filling_ok::<C>(*g, vars, st, dfa),
            i <= xs@.len(),
            xs@.len() == xs0.len(),
            forall|j: int| i <= j < xs@.len() ==> #[trigger] xs@[j] == xs0[j],
            forall|j: int|
                0 <= j < i ==> #[trigger] stands::<C>(
                    xs@[j],
                    constraints[j],
                    *g,
                    vars,
                    st,
                    dfa,
                ),
        decreases xs.len() - i,
    {
        let ghost before = xs@;
        let mut x = xs.remove(i);
        let ghost x0 = x;
        proof {
            assert(x0 == xs0[i as int]);
            assert(stands::<C>(xs0[i as int], constraints[i as int], *f, vars, st, dfa));
        }
        set_holes::<C>(&mut x, g, Ghost(vars), Ghost(st), Ghost(dfa));
        proof {
            assert(stands::<C>(x, constraints[i as int], *g, vars, st, dfa));
        }
        xs.insert(i, x);
        proof {
            assert forall|j: int| 0 <= j < xs@.len() && j != i implies #[trigger] xs@[j]
                == before[j] by {}
            assert forall|j: int| 0 <= j < i + 1 implies #[trigger] stands::<C>(
                xs@[j],
                constraints[j],
                *g,
                vars,
                st,
                dfa,
            ) by {
                if j < i {
                    assert(stands::<C>(before[j], constraints[j], *g, vars, st, dfa));
                }
            }
        }
        i = i + 1;
    }
    xs
}

/// Puts the candidates in the holes.
fn set_holes<'a, C: Candidate<'a>>(
    x: &mut Instantiate<C>,
    g: &Filling<C>,
    Ghost(vars): Ghost<Filling<C::Var>>,
    Ghost(st): Ghost<SPPstore>,
    Ghost(dfa): Ghost<&'a ExplicitDFA>,
)
    requires
        st.wf(),
        old(x).valid(st),
        filling_ok::<C>(old(x).holes, vars, st, dfa),
        filling_ok::<C>(*g, vars, st, dfa),
    ensures
        final(x).aut == old(x).aut,
        final(x).graph == old(x).graph,
        final(x).valid(st),
        filling_ok::<C>(final(x).holes, vars, st, dfa),
        same_fill(final(x).holes, *g, st),
{
    let ghost x0 = *x;
    let mut i: usize = 0;
    while i < g.entries.len()
        invariant
            st.wf(),
            x.aut == x0.aut,
            x.graph == x0.graph,
            x.valid(st),
            filling_ok::<C>(x.holes, vars, st, dfa),
            filling_ok::<C>(*g, vars, st, dfa),
            i <= g.entries@.len(),
            forall|j: int, w: Word|
                #![trigger enfa_lang(&g.entries@[j].1, st)(w)]
                0 <= j < i && is_word(st.n(), w) ==> enfa_lang(
                    &x.holes.val(g.entries@[j].0),
                    st,
                )(w) == enfa_lang(&g.entries@[j].1, st)(w),
        decreases g.entries.len() - i,
    {
        let h: Hole = g.entries[i].0;
        let c = g.entries[i].1.again();
        let ghost x1 = *x;
        proof {
            g.lemma_val(i as int);
            assert(g.has(h));
            assert(g.val(h).valid(st) && g.val(h).over(dfa));
            assert(c.valid(st) && c.over(dfa));
            assert(x1.holes.has(h) <==> vars.has(h));
            assert(g.has(h) <==> vars.has(h));
        }
        x.set_hole(h, c);
        proof {
            assert(x.valid(st));
            assert forall|k: Hole| #[trigger] x.holes.has(k) <==> vars.has(k) by {
                assert(x1.holes.has(k) <==> vars.has(k));
            }
            assert forall|k: Hole| #[trigger] x.holes.has(k) implies x.holes.val(k).valid(st)
                && x.holes.val(k).over(dfa) by {
                if k != h {
                    assert(x1.holes.has(k));
                    assert(x.holes.val(k) == x1.holes.val(k));
                }
            }
            assert forall|j: int, w: Word|
                #![trigger enfa_lang(&g.entries@[j].1, st)(w)]
                0 <= j < i + 1 && is_word(st.n(), w) implies enfa_lang(
                &x.holes.val(g.entries@[j].0),
                st,
            )(w) == enfa_lang(&g.entries@[j].1, st)(w) by {
                if j < i {
                    let k = g.entries@[j].0;
                    assert(k != h) by {
                        assert(g.entries@[j].0 != g.entries@[i as int].0);
                    }
                    g.lemma_val(j);
                    assert(x1.holes.has(k) <==> vars.has(k));
                    assert(g.has(k) <==> vars.has(k));
                    assert(x.holes.val(k) == x1.holes.val(k));
                } else {
                    assert(enfa_lang(&c, st)(w) == enfa_lang(&g.entries@[i as int].1, st)(w));
                }
            }
        }
        i = i + 1;
    }
    proof {
        assert forall|h: Hole, w: Word|
            #![trigger enfa_lang(&x.holes.val(h), st)(w)]
            #![trigger enfa_lang(&g.val(h), st)(w)]
            x.holes.has(h) && is_word(st.n(), w) implies enfa_lang(&x.holes.val(h), st)(w)
            == enfa_lang(&g.val(h), st)(w) by {
            assert(g.has(h) <==> vars.has(h));
            let j = choose|j: int| #[trigger] g.is_at(h, j);
            g.lemma_val(j);
            assert(enfa_lang(&g.entries@[j].1, st)(w) == enfa_lang(
                &x.holes.val(g.entries@[j].0),
                st,
            )(w));
        }
        assert forall|h: Hole| #[trigger] x.holes.has(h) <==> g.has(h) by {
            assert(g.has(h) <==> vars.has(h));
        }
    }
}


/// The first constraint that does not hold gives a clause; whether all hold.
fn check_all<'a, C: Candidate<'a>, L: SmtLearner<'a>>(
    constraints: &Vec<Constraint>,
    xs: &mut Vec<Instantiate<C>>,
    f: &Filling<C>,
    vars: &Filling<C::Var>,
    learner: &mut L,
    store: &mut SPPstore,
    dfa: &'a ExplicitDFA,
    flags: Flags,
    Ghost(s0): Ghost<SPPstore>,
) -> (r: bool)
    requires
        s0.wf(),
        dfa.valid(s0),
        old(learner).wf(),
        old(store).wf(),
        old(store).extends(&s0),
        old(store).n() == old(learner).n(),
        vars_ok::<C, L>(*vars, *old(learner), dfa),
        old(xs)@.len() == constraints@.len(),
        all_stand::<C>(old(xs)@, constraints@, *f, *vars, *old(store), dfa),
        forall|i: int| 0 <= i < constraints@.len() ==> (#[trigger] constraints@[i]).ok(s0),
    ensures
        final(store).wf(),
        final(store).extends(old(store)),
        final(xs)@.len() == constraints@.len(),
        all_stand::<C>(final(xs)@, constraints@, *f, *vars, *final(store), dfa),
        r ==> *final(learner) == *old(learner) && all_met(
            constraints@,
            *final(store),
            fill_of(*f, *final(store)),
        ),
        !r ==> refines(
            *final(learner),
            *old(learner),
            |g: Guess| all_met(constraints@, s0, guess_fill::<C>(*vars, s0, dfa, g)),
        ),
        !r ==> !all_met(constraints@, *final(store), fill_of(*f, *final(store))),
{
    let ghost o = *learner;
    let ghost so = *store;
    let ghost cs = constraints@;
    let ghost demand = |g: Guess| all_met(cs, s0, guess_fill::<C>(*vars, s0, dfa, g));
    let mut i: usize = 0;
    while i < constraints.len()
        invariant
            cs == constraints@,
            o == *old(learner),
            so == *old(store),
            demand == (|g: Guess| all_met(cs, s0, guess_fill::<C>(*vars, s0, dfa, g))),
            s0.wf(),
            so.wf(),
            so.extends(&s0),
            dfa.valid(s0),
            o.wf(),
            *learner == o,
            store.wf(),
            store.extends(&so),
            so.n() == o.n(),
            vars_ok::<C, L>(*vars, o, dfa),
            xs@.len() == cs.len(),
            all_stand::<C>(xs@, cs, *f, *vars, *store, dfa),
            forall|i: int| 0 <= i < cs.len() ==> (#[trigger] cs[i]).ok(s0),
            i <= cs.len(),
            forall|j: int| 0 <= j < i ==> (#[trigger] cs[j]).met(*store, fill_of(*f, *store)),
        decreases constraints.len() - i,
    {
        let ghost before = xs@;
        let ghost s1 = *store;
        let c = &constraints[i];
        let mut x = xs.remove(i);
        let ghost x0 = x;
        proof {
            assert(x0 == before[i as int]);
            assert(stands::<C>(before[i as int], cs[i as int], *f, *vars, s1, dfa));
            dfa.lemma_valid(s1, s0);
            assert(filled_by(x0, *vars, dfa));
        }
        let good = c.check(&mut x, vars, learner, store, dfa, flags);
        xs.insert(i, x);
        proof {
            let s2 = *store;
            assert(x == x0);
            assert(xs@ =~= before);
            lemma_met_fill::<C>(x0, cs[i as int], *f, *vars, s1, dfa);
            lemma_all_kept::<C>(before, cs, *f, *vars, s2, s1, dfa);
            assert forall|j: int| 0 <= j < cs.len() implies (#[trigger] cs[j]).met(
                s2,
                fill_of(*f, s2),
            ) == cs[j].met(s1, fill_of(*f, s1)) by {
                assert(stands::<C>(before[j], cs[j], *f, *vars, s1, dfa));
                lemma_met_store::<C>(before[j], cs[j], *f, *vars, s2, s1, dfa);
            }
            if !good {
                let d1 = met_by::<C>(*c, *vars, s1, dfa);
                assert forall|g: Guess| #[trigger] demand(g) implies d1(g) by {
                    assert(cs[i as int].ok(s0));
                    assert(cs[i as int].met(s0, guess_fill::<C>(*vars, s0, dfa, g)));
                    lemma_met_guess::<C>(x0, cs[i as int], *vars, s1, s0, dfa, g);
                }
                lemma_refines_less(*learner, o, d1, demand);
                assert(!cs[i as int].met(s2, fill_of(*f, s2)));
            }
        }
        if !good {
            return false;
        }
        i = i + 1;
    }
    true
}

/// Whether a constraint holds does not change when the store grows.
proof fn lemma_met_store<'a, C: Candidate<'a>>(
    x: Instantiate<C>,
    c: Constraint,
    f: Filling<C>,
    vars: Filling<C::Var>,
    st: SPPstore,
    o: SPPstore,
    dfa: &'a ExplicitDFA,
)
    requires
        o.wf(),
        st.wf(),
        st.extends(&o),
        filling_ok::<C>(f, vars, o, dfa),
        stands::<C>(x, c, f, vars, o, dfa),
    ensures
        c.met(st, fill_of(f, st)) == c.met(o, fill_of(f, o)),
{
    let hs = fill_of(f, st);
    let gs = fill_of(f, o);
    assert forall|h: Hole, w: Word| is_word(o.n(), w) implies #[trigger] hs(h)(w) == gs(h)(w) by {
        if f.has(h) {
            f.val(h).lemma_states(o);
            lemma_lang_valid(&f.val(h), st, o, f.val(h).init(), w);
        }
    }
    lemma_met_other(x, c, o, hs, gs);
    c.lemma_ok(st, o);
    assert(c.met(st, hs) == c.met(o, hs));
}

/// A constraint holds or not with fillings that have the same words.
proof fn lemma_met_other<C: ENFA>(
    x: Instantiate<C>,
    c: Constraint,
    st: SPPstore,
    hs: Fill,
    gs: Fill,
)
    requires
        st.wf(),
        fits(&x, c, st),
        forall|h: Hole, w: Word| is_word(st.n(), w) ==> #[trigger] hs(h)(w) == gs(h)(w),
    ensures
        c.met(st, hs) == c.met(st, gs),
{
    assert(below_fill(&x, st, gs, hs)) by {
        assert forall|h: Hole, w: Word|
            #![trigger hs(h)(w)]
            #![trigger gs(h)(w)]
            x.aut.uses(h) && is_word(st.n(), w) && gs(h)(w) implies hs(h)(w) by {
            assert(hs(h)(w) == gs(h)(w));
        }
    }
    assert(below_fill(&x, st, hs, gs)) by {
        assert forall|h: Hole, w: Word|
            #![trigger hs(h)(w)]
            #![trigger gs(h)(w)]
            x.aut.uses(h) && is_word(st.n(), w) && hs(h)(w) implies gs(h)(w) by {
            assert(hs(h)(w) == gs(h)(w));
        }
    }
    assert forall|w: Word| is_word(st.n(), w) implies #[trigger] c.lang(st, hs)(w) == c.lang(
        st,
        gs,
    )(w) by {
        lemma_accepts_same(&x, st, hs, gs, w);
        assert(x.aut.accepts(st, hs, c.the_start().aexpr, w) <==> c.lang(st, hs)(w));
        assert(x.aut.accepts(st, gs, c.the_start().aexpr, w) <==> c.lang(st, gs)(w));
    }
    c.lemma_met_same(st, hs, gs);
}

/// Which guesses meet a constraint does not change when the store grows.
proof fn lemma_met_guess<'a, C: Candidate<'a>>(
    x: Instantiate<C>,
    c: Constraint,
    vars: Filling<C::Var>,
    st: SPPstore,
    o: SPPstore,
    dfa: &'a ExplicitDFA,
    g: Guess,
)
    requires
        o.wf(),
        st.wf(),
        st.extends(&o),
        dfa.valid(o),
        c.ok(o),
        fits(&x, c, st),
    ensures
        c.met(st, guess_fill::<C>(vars, st, dfa, g)) == c.met(
            o,
            guess_fill::<C>(vars, o, dfa, g),
        ),
{
    let hs = guess_fill::<C>(vars, st, dfa, g);
    let gs = guess_fill::<C>(vars, o, dfa, g);
    lemma_fill_kept::<C>(&x, vars, st, o, dfa, g);
    lemma_met_other(x, c, st, hs, gs);
    c.lemma_ok(st, o);
    assert(c.met(st, gs) == c.met(o, gs));
}

/// The candidates of the next round, from what the learner gave: those of a solution.
/// Without one there is no filling, or none is known.
pub fn next_candidates<'a, C: Candidate<'a>>(
    outcome: &Result<Solution<'a>, LearnError>,
    vars: &Filling<C::Var>,
    store: &SPPstore,
    dfa: &'a ExplicitDFA,
) -> (r: Result<Filling<C>, CegisError>)
    requires
        store.wf(),
        dfa.valid(*store),
        vars.wf(),
        *outcome matches Ok(sol) ==> solution_ok(*store, sol, sol.spps@.len(), automata_of(sol))
            && forall|h: Hole| #[trigger]
                vars.has(h) ==> C::placed(vars.val(h), sol.spps@.len(), automata_of(sol), dfa),
    ensures
        match *outcome {
            Ok(sol) => r matches Ok(f) && filling_ok::<C>(f, *vars, *store, dfa) && forall|h: Hole|
                #![trigger f.val(h)]
                f.has(h) ==> same(
                    store.n(),
                    enfa_lang(&f.val(h), *store),
                    C::slot_lang(vars.val(h), *store, dfa, guess_by(*store, sol)),
                ),
            Err(LearnError::Unknown) => r == Err::<Filling<C>, CegisError>(CegisError::Unknown),
            Err(LearnError::Inconsistent(_)) => r == Err::<Filling<C>, CegisError>(
                CegisError::Infeasible,
            ),
        },
{
    match outcome {
        Ok(sol) => Ok(read_off::<C>(sol, vars, store, dfa)),
        Err(LearnError::Unknown) => Err(CegisError::Unknown),
        Err(LearnError::Inconsistent(_)) => Err(CegisError::Infeasible),
    }
}

/// Candidates that were read off a guess are what the guess puts in the holes.
proof fn lemma_proposed<'a, C: Candidate<'a>>(
    f: Filling<C>,
    vars: Filling<C::Var>,
    st: SPPstore,
    o: SPPstore,
    dfa: &'a ExplicitDFA,
    g: Guess,
)
    requires
        o.wf(),
        st.wf(),
        st.extends(&o),
        dfa.valid(o),
        filling_ok::<C>(f, vars, st, dfa),
        forall|h: Hole|
            #![trigger f.val(h)]
            f.has(h) ==> same(
                st.n(),
                enfa_lang(&f.val(h), st),
                C::slot_lang(vars.val(h), st, dfa, g),
            ),
    ensures
        same_words(o.n(), fill_of(f, st), guess_fill::<C>(vars, o, dfa, g)),
{
    let hs = fill_of(f, st);
    let gs = guess_fill::<C>(vars, o, dfa, g);
    assert forall|h: Hole, w: Word| is_word(o.n(), w) implies #[trigger] hs(h)(w) == gs(h)(w) by {
        assert(f.has(h) <==> vars.has(h));
        if f.has(h) {
            C::lemma_slot(vars.val(h), st, o, dfa, g);
            assert(same(
                st.n(),
                enfa_lang(&f.val(h), st),
                C::slot_lang(vars.val(h), st, dfa, g),
            ));
        }
    }
}

/// Candidates keep their words when the store grows.
proof fn lemma_fill_grows<'a, C: Candidate<'a>>(
    f: Filling<C>,
    vars: Filling<C::Var>,
    st: SPPstore,
    o: SPPstore,
    dfa: &'a ExplicitDFA,
    n: nat,
    gs: Fill,
)
    requires
        o.wf(),
        st.wf(),
        st.extends(&o),
        n == o.n(),
        filling_ok::<C>(f, vars, o, dfa),
        same_words(n, fill_of(f, o), gs),
    ensures
        same_words(n, fill_of(f, st), gs),
{
    let hs = fill_of(f, st);
    let os = fill_of(f, o);
    assert forall|h: Hole, w: Word| is_word(n, w) implies #[trigger] hs(h)(w) == gs(h)(w) by {
        assert(os(h)(w) == gs(h)(w));
        if f.has(h) {
            f.val(h).lemma_states(o);
            lemma_lang_valid(&f.val(h), st, o, f.val(h).init(), w);
        }
    }
}

/// A guess fails where the candidates that were read off it do.
proof fn lemma_guess_fails<'a, C: Candidate<'a>>(
    xs: Seq<Instantiate<C>>,
    cs: Seq<Constraint>,
    f: Filling<C>,
    vars: Filling<C::Var>,
    st: SPPstore,
    o: SPPstore,
    dfa: &'a ExplicitDFA,
    gs: Fill,
    ks: Fill,
)
    requires
        o.wf(),
        st.wf(),
        st.extends(&o),
        xs.len() == cs.len(),
        all_stand::<C>(xs, cs, f, vars, st, dfa),
        forall|i: int| 0 <= i < cs.len() ==> (#[trigger] cs[i]).ok(o),
        same_words(o.n(), fill_of(f, st), gs),
        !all_met(cs, st, fill_of(f, st)),
        same_words(o.n(), ks, gs),
    ensures
        !all_met(cs, o, ks),
{
    let hs = fill_of(f, st);
    let i = choose|i: int| 0 <= i < cs.len() && !(#[trigger] cs[i]).met(st, hs);
    assert(stands::<C>(xs[i], cs[i], f, vars, st, dfa));
    assert forall|h: Hole, w: Word| is_word(st.n(), w) implies #[trigger] hs(h)(w) == ks(h)(w) by {
        assert(hs(h)(w) == gs(h)(w));
        assert(ks(h)(w) == gs(h)(w));
    }
    lemma_met_other(xs[i], cs[i], st, hs, ks);
    assert(cs[i].ok(o));
    cs[i].lemma_ok(st, o);
    assert(cs[i].met(st, ks) == cs[i].met(o, ks));
}

/// Looks for candidates, one for each hole, with which all constraints hold.  The
/// holes of the constraints have to be listed.  `reference_dfa` is the automaton
/// that candidates draw on.  The number of rounds can be limited.
///
/// Candidates that are returned meet all constraints.  `Infeasible` means that no
/// values of the slots do.  `IterationLimit` comes only of a limit, after as many values
/// that do not, and always of one that allows no round.
pub fn run<'a, C: Candidate<'a>, L: SmtLearner<'a>>(
    constraints: &Vec<Constraint>,
    holes: &[Hole],
    reference_dfa: &'a ExplicitDFA,
    store: &mut SPPstore,
    max_iters: Option<usize>,
    flags: Flags,
) -> (r: Result<Filling<C>, CegisError>)
    requires
        old(store).wf(),
        reference_dfa.valid(*old(store)),
        4 * old(store).n() + reference_dfa.transitions@.len() <= u32::MAX,
        forall|i: int| 0 <= i < constraints@.len() ==> (#[trigger] constraints@[i]).ok(*old(store)),
        forall|i: int, h: Hole|
            #![trigger constraints@[i].the_aut().uses(h)]
            0 <= i < constraints@.len() && constraints@[i].the_aut().uses(h) ==> holes@.contains(h),
    ensures
        final(store).wf(),
        final(store).extends(old(store)),
        match r {
            Ok(f) => {
                &&& f.wf()
                &&& forall|h: Hole| #[trigger] f.has(h) <==> holes@.contains(h)
                &&& forall|h: Hole| #[trigger] f.has(h) ==> f.val(h).valid(*final(store))
                    && f.val(h).over(reference_dfa)
                &&& all_met(constraints@, *final(store), fill_of(f, *final(store)))
                &&& forall|hs: Fill|
                    same_words(old(store).n(), hs, fill_of(f, *final(store))) ==> #[trigger] all_met(
                        constraints@,
                        *final(store),
                        hs,
                    )
            },
            Err(CegisError::Infeasible) => exists|vars: Filling<C::Var>| #[trigger]
                slots_for::<C>(vars, holes@) && infeasible::<C>(
                    constraints@,
                    vars,
                    *old(store),
                    reference_dfa,
                ),
            Err(CegisError::IterationLimit) => exhausted::<C>(
                max_iters,
                constraints@,
                holes@,
                *old(store),
                reference_dfa,
            ) && used_up::<C, L>(
                max_iters,
                holes@,
                *old(store),
                reference_dfa,
                meeting(constraints@, *old(store)),
            ),
            Err(CegisError::Unknown) => max_iters != Some(0usize) && unsettled::<C, L>(
                max_iters,
                holes@,
                *old(store),
                reference_dfa,
                meeting(constraints@, *old(store)),
            ),
            Err(CegisError::TooLarge) => false,
        },
        max_iters == Some(0usize) ==> r == Err::<Filling<C>, CegisError>(
            CegisError::IterationLimit,
        ),
{
    match max_iters {
        Some(0) => {
            return Err(CegisError::IterationLimit);
        },
        _ => {},
    }
    let ghost s0 = *store;
    let ghost n = s0.n();
    let ghost cs = constraints@;
    let dfa = reference_dfa;
    let mut learner = L::new(store.num_vars(), flags);
    let vars = allocate::<C, L>(&mut learner, holes, dfa);
    let ghost slots = learner.slots();
    let ghost automata = learner.automata();
    let ghost l0 = learner;
    let ghost wanted = meeting(cs, s0);
    let ghost mut log = Transcript::<L>::blank();
    let (outcome, Ghost(asked)) = ask(&mut learner, store, Ghost(log));
    let ghost s1 = *store;
    proof {
        assert(fair::<C, L>(l0, vars, s0, dfa, wanted)) by {
            assert forall|g: Guess|
                wanted(#[trigger] guess_fill::<C>(vars, s0, dfa, g)) implies admitted(l0, g) by {
                let e: Bits = |i: usize| true;
                assert(l0.allows(g, e));
            }
        }
        lemma_asked::<C, L>(asked, log, l0, reply_of(outcome), vars, s0, dfa, wanted);
        log = asked;
    }
    proof {
        dfa.lemma_valid(s1, s0);
        assert forall|i: int| 0 <= i < cs.len() implies (#[trigger] cs[i]).ok(s1) by {
            cs[i].lemma_ok(s1, s0);
        }
    }
    proof {
        if outcome is Ok {
            lemma_automata(*store, outcome->Ok_0, slots, automata);
        }
    }
    let mut candidates: Filling<C> = match next_candidates::<C>(&outcome, &vars, store, dfa) {
        Ok(f) => f,
        Err(e) => {
            proof {
                if e is Infeasible {
                    let g = Guess { spps: |k: usize, p: Pkt, q: Pkt| true, cands: |
                        k: usize,
                        p: Pkt,
                        q: Pkt,
                        v: Seq<usize>,
                        r: Pkt,
                        s: Pkt,
                    | true };
                    let b: Bits = |i: usize| true;
                    assert(l0.allows(g, b));
                }
            }
            return Err(e);
        },
    };
    let ghost mut now = guess_by(s1, outcome->Ok_0);
    let ghost mut tried = Seq::<Guess>::empty();
    proof {
        lemma_proposed::<C>(candidates, vars, s1, s0, dfa, now);
    }
    let mut insts = instantiate_all::<C>(
        store,
        constraints,
        &candidates,
        Ghost(vars),
        Ghost(dfa),
    );
    let cap: usize = match max_iters {
        Some(c) => c,
        None => usize::MAX,
    };
    let ghost demand = |g: Guess| all_met(cs, s0, guess_fill::<C>(vars, s0, dfa, g));
    proof {
        lemma_fill_grows::<C>(
            candidates,
            vars,
            *store,
            s1,
            dfa,
            n,
            guess_fill::<C>(vars, s0, dfa, now),
        );
    }
    let mut iters: usize = 0;
    proof {
        assert forall|g: Guess| #[trigger] demand(g) implies admitted(learner, g) by {
            let e: Bits = |i: usize| true;
            assert(learner.allows(g, e));
        }
    }
    while iters < cap
        invariant
            s0 == *old(store),
            n == s0.n(),
            cs == constraints@,
            dfa == reference_dfa,
            s0.wf(),
            dfa.valid(s0),
            store.wf(),
            store.extends(&s0),
            forall|i: int| 0 <= i < cs.len() ==> (#[trigger] cs[i]).ok(s0),
            demand == (|g: Guess| all_met(cs, s0, guess_fill::<C>(vars, s0, dfa, g))),
            learner.wf(),
            learner.n() == n,
            learner.slots() == slots,
            learner.automata() == automata,
            slots_for::<C>(vars, holes@),
            vars_ok::<C, L>(vars, learner, dfa),
            insts@.len() == cs.len(),
            all_stand::<C>(insts@, cs, candidates, vars, *store, dfa),
            forall|g: Guess| #[trigger] demand(g) ==> admitted(learner, g),
            iters <= cap,
            same_words(n, fill_of(candidates, *store), guess_fill::<C>(vars, s0, dfa, now)),
            tried.len() == iters,
            wanted == meeting(cs, s0),
            conducted::<C, L>(log, vars, s0, dfa, wanted),
            log.asked().len() == iters + 1,
            log.asked().last().1 is Values,
            all_fail::<C>(cs, vars, s0, dfa, tried),
            max_iters == Some(cap) || max_iters is None && cap == usize::MAX,
        decreases cap - iters,
    {
        iters = iters + 1;
        let ghost l0 = learner;
        let ghost before = *store;
        let satisfied = check_all::<C, L>(
            constraints, &mut insts, &candidates, &vars, &mut learner, store, dfa, flags,
            Ghost(s0),
        );
        if satisfied {
            proof {
                assert forall|h: Hole| #[trigger] candidates.has(h) <==> holes@.contains(h) by {
                    assert(vars.has(h) <==> holes@.contains(h));
                }
                let st = *store;
                assert forall|hs: Fill| same_words(n, hs, fill_of(candidates, st)) implies
                    #[trigger] all_met(cs, st, hs) by {
                    assert forall|i: int| 0 <= i < cs.len() implies (#[trigger] cs[i]).met(
                        st,
                        hs,
                    ) by {
                        assert(stands::<C>(insts@[i], cs[i], candidates, vars, st, dfa));
                        lemma_met_other(insts@[i], cs[i], st, hs, fill_of(candidates, st));
                        assert(cs[i].met(st, fill_of(candidates, st)));
                    }
                }
            }
            return Ok(candidates);
        }
        let ghost l1 = learner;
        proof {
            let gs = guess_fill::<C>(vars, s0, dfa, now);
            lemma_fill_grows::<C>(candidates, vars, *store, before, dfa, n, gs);
            let before_tried = tried;
            tried = tried.push(now);
            assert(all_fail::<C>(cs, vars, s0, dfa, tried)) by {
                assert forall|k: int, hs: Fill|
                    #![trigger tried[k], all_met(cs, s0, hs)]
                    0 <= k < tried.len() && same_words(
                        n,
                        hs,
                        guess_fill::<C>(vars, s0, dfa, tried[k]),
                    ) implies !all_met(cs, s0, hs) by {
                    if k < before_tried.len() {
                        assert(tried[k] == before_tried[k]);
                    } else {
                        lemma_guess_fails::<C>(
                            insts@,
                            cs,
                            candidates,
                            vars,
                            *store,
                            s0,
                            dfa,
                            gs,
                            hs,
                        );
                    }
                }
            }
            assert forall|g: Guess| #[trigger] demand(g) implies admitted(l1, g) by {
                assert(admitted(l0, g));
            }
        }
        let ghost s2 = *store;
        let (outcome, Ghost(asked)) = ask(&mut learner, store, Ghost(log));
        let ghost s3 = *store;
        proof {
            assert(fair::<C, L>(l1, vars, s0, dfa, wanted)) by {
                assert forall|g: Guess|
                    wanted(#[trigger] guess_fill::<C>(vars, s0, dfa, g)) implies admitted(
                    l1,
                    g,
                ) by {
                    assert(demand(g));
                }
            }
            lemma_asked::<C, L>(asked, log, l1, reply_of(outcome), vars, s0, dfa, wanted);
            log = asked;
            dfa.lemma_valid(s3, s0);
            lemma_all_kept::<C>(insts@, cs, candidates, vars, s3, s2, dfa);
        }
        proof {
            if outcome is Ok {
                lemma_automata(s3, outcome->Ok_0, slots, automata);
            }
        }
        let next = match next_candidates::<C>(&outcome, &vars, store, dfa) {
            Ok(f) => f,
            Err(e) => {
                proof {
                    if e is Infeasible {
                        assert forall|g: Guess, hs: Fill|
                            #![trigger guess_fill::<C>(vars, s0, dfa, g), all_met(cs, s0, hs)]
                            same_words(n, hs, guess_fill::<C>(vars, s0, dfa, g)) implies !all_met(
                            cs,
                            s0,
                            hs,
                        ) by {
                            let gs = guess_fill::<C>(vars, s0, dfa, g);
                            assert(all_met(cs, s0, hs) ==> all_met(cs, s0, gs)) by {
                                if all_met(cs, s0, hs) {
                                    assert forall|i: int| 0 <= i < cs.len() implies (
                                    #[trigger] cs[i]).met(s0, gs) by {
                                        assert(stands::<C>(
                                            insts@[i],
                                            cs[i],
                                            candidates,
                                            vars,
                                            s2,
                                            dfa,
                                        ));
                                        lemma_met_other(insts@[i], cs[i], s2, hs, gs);
                                        cs[i].lemma_ok(s2, s0);
                                        assert(cs[i].met(s0, hs));
                                        assert(cs[i].met(s2, hs) == cs[i].met(s0, hs));
                                        assert(cs[i].met(s2, gs) == cs[i].met(s0, gs));
                                    }
                                }
                            }
                            if demand(g) {
                                assert(admitted(l1, g));
                                let e = choose|e: Bits| #[trigger] l1.allows(g, e);
                                assert(false);
                            }
                        }
                        assert(infeasible::<C>(cs, vars, s0, dfa));
                    }
                }
                return Err(e);
            },
        };
        insts = refill::<C>(
            insts, &candidates, &next, Ghost(cs), Ghost(vars), Ghost(s3), Ghost(dfa),
        );
        candidates = next;
        proof {
            now = guess_by(s3, outcome->Ok_0);
            lemma_proposed::<C>(candidates, vars, s3, s0, dfa, now);
            let l2 = learner;
            assert forall|g: Guess| #[trigger] demand(g) implies admitted(l2, g) by {
                assert(admitted(l1, g));
                let e = choose|e: Bits| #[trigger] l1.allows(g, e);
                assert(l2.allows(g, e));
            }
        }
    }
    match max_iters {
        Some(_) => Err(CegisError::IterationLimit),
        None => Err(CegisError::Unknown),
    }
}


/// The answer to a problem, in a word.
pub fn verdict<T>(outcome: &Result<T, CegisError>) -> (s: &'static str)
    ensures
        s@ == (match outcome {
            Ok(_) => "SAT"@,
            Err(CegisError::Infeasible) => "UNSAT"@,
            Err(_) => "UNKNOWN"@,
        }),
{
    match outcome {
        Ok(_) => "SAT",
        Err(CegisError::Infeasible) => "UNSAT",
        Err(_) => "UNKNOWN",
    }
}

} // verus!
