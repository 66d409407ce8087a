//! What may fill a hole.
//!
//! A candidate is an automaton without invisible states that can be learned: it has
//! a slot in the learner, is read off a solution, and turns a way through a hole into
//! a literal.
use vstd::prelude::*;
use crate::holes::aut::{
    enfa_lang, is_path, law_spp_lang, listed, models, moves, moves_on, total, StateKey, DFA, ENFA,
    NFA,
};
use crate::holes::cand::{
    all_step, evolves, identity, lemma_step_unique, one_step, readable, tuple_ok, Cand, CandState,
    State as CandKey,
};
use crate::holes::elaborate::packets_of;
use crate::holes::explicit::{numbers, ExplicitDFA};
use crate::holes::ground::{grounds, lemma_grounds, uppers, with_sinks, Vector};
use crate::holes::inst::lemma_lang_ref;
use crate::holes::ops::{
    law_sink_total, law_union, law_with_sink_state, part_steps, union, Exponential, NAryProduct,
    Union, UnionState, WithSinkState,
};
use crate::holes::problem::Constraint;
use crate::holes::search::path_of;
use crate::holes::smt::{
    bits_at, concrete, guess_by, lit_ok, lit_true, packet_ok, same_bits, solution_ok, vars_at,
    widths, AbstractBit, Bits, CandVar, Existential, Guess, Literal, SmtLearner, Solution, SppVar,
};
use crate::lang::{is_word, packets, same, Lang, Word};
use crate::sp::{Pkt, SPstore, SP};
use crate::spp::{SPPstore, SPP};
use crate::text::copy_bits;

verus! {

/// The word of packet `p`, the packets `t` and packet `q`.
pub open spec fn span_word(p: Pkt, t: Seq<Pkt>, q: Pkt) -> Word {
    (seq![p] + t).push(q)
}

/// The language has a word that begins in the one set, ends in the other and records
/// the packets.
pub open spec fn spans(l: Lang, st: SPstore, a: SP, b: SP, t: Seq<Pkt>) -> bool {
    exists|p: Pkt, q: Pkt|
        p.len() == st.n() && q.len() == st.n() && st.mem(a, p) && st.mem(b, q) && l(
            #[trigger] span_word(p, t, q),
        )
}

/// The guess that has everything in all slots.
pub open spec fn everything() -> Guess {
    Guess {
        spps: |k: usize, p: Pkt, q: Pkt| true,
        cands: |k: usize, p: Pkt, q: Pkt, v: Seq<usize>, r: Pkt, s: Pkt| true,
    }
}

/// The learner goes on from `o` to `l`: the slots are kept, and whatever `o` allowed
/// is allowed with values for the new variables that make the literal true if the
/// claim is.
pub open spec fn gains<'a, L: SmtLearner<'a>>(
    l: L,
    o: L,
    st: SPstore,
    lit: Literal,
    claim: spec_fn(Guess) -> bool,
) -> bool {
    &&& keeps_slots(l, o)
    &&& lit_ok(lit, st, l.n(), l.slots(), widths(l.automata()), l.vars())
    &&& forall|g: Guess, e: Bits| #[trigger] l.allows(g, e) ==> o.allows(g, e)
    &&& forall|g: Guess, e: Bits| #[trigger] l.allows(g, e) && lit_true(st, lit, g, e) ==> claim(g)
    &&& forall|g: Guess, e: Bits| #[trigger] o.allows(g, e) ==> gains_for(l, o, st, lit, claim, g, e)
}

/// Values for the new variables that go with the guess.
#[verifier::opaque]
pub open spec fn gains_for<'a, L: SmtLearner<'a>>(
    l: L,
    o: L,
    st: SPstore,
    lit: Literal,
    claim: spec_fn(Guess) -> bool,
    g: Guess,
    e: Bits,
) -> bool {
    exists|f: Bits|
        same_bits(o.vars(), e, f) && #[trigger] l.allows(g, f) && (claim(g) ==> lit_true(
            st,
            lit,
            g,
            f,
        ))
}

/// The slots are kept, and no variables are lost.
pub open spec fn keeps_slots<'a, L: SmtLearner<'a>>(l: L, o: L) -> bool {
    &&& l.wf()
    &&& l.n() == o.n()
    &&& l.slots() == o.slots()
    &&& l.automata() == o.automata()
    &&& l.vars() >= o.vars()
}

/// What can fill a hole and be learned.  Some kinds draw on the states of an
/// automaton, `dfa`.
pub trait Candidate<'a>: NFA {
    /// A slot of the learner for this kind.
    type Var: Copy;

    /// The slot is one of the learner's, over the automaton.
    spec fn placed(
        v: Self::Var,
        slots: nat,
        automata: Seq<&'a ExplicitDFA>,
        dfa: &'a ExplicitDFA,
    ) -> bool;

    /// The slots have nothing in common.
    spec fn apart(v: Self::Var, w: Self::Var) -> bool;

    /// Whether candidates of this kind draw on an automaton made from upper bounds.
    spec fn bounded() -> bool;

    /// The language of the slot, as a guess has it.
    spec fn slot_lang(v: Self::Var, st: SPPstore, dfa: &'a ExplicitDFA, g: Guess) -> Lang;

    /// The candidate draws on the automaton.
    spec fn over(&self, dfa: &'a ExplicitDFA) -> bool;

    /// The language of a slot is kept when the store grows.
    proof fn lemma_slot(v: Self::Var, st: SPPstore, o: SPPstore, dfa: &'a ExplicitDFA, g: Guess)
        requires
            o.wf(),
            st.wf(),
            st.extends(&o),
            dfa.valid(o),
        ensures
            same(o.n(), Self::slot_lang(v, st, dfa, g), Self::slot_lang(v, o, dfa, g)),
    ;

    /// A slot stays one when slots are added.
    proof fn lemma_placed(
        v: Self::Var,
        slots: nat,
        automata: Seq<&'a ExplicitDFA>,
        slots2: nat,
        automata2: Seq<&'a ExplicitDFA>,
        dfa: &'a ExplicitDFA,
    )
        requires
            Self::placed(v, slots, automata, dfa),
            slots <= slots2,
            automata.len() <= automata2.len(),
            forall|i: int| 0 <= i < automata.len() ==> #[trigger] automata2[i] == automata[i],
        ensures
            Self::placed(v, slots2, automata2, dfa),
    ;

    /// A new slot.
    fn fresh_var<L: SmtLearner<'a>>(learner: &mut L, dfa: &'a ExplicitDFA) -> (v: Self::Var)
        requires
            old(learner).wf(),
            4 * old(learner).n() + dfa.transitions@.len() <= u32::MAX,
        ensures
            final(learner).wf(),
            final(learner).n() == old(learner).n(),
            final(learner).vars() == old(learner).vars(),
            final(learner).slots() >= old(learner).slots(),
            final(learner).automata().len() >= old(learner).automata().len(),
            forall|i: int|
                0 <= i < old(learner).automata().len() ==> #[trigger] final(learner).automata()[i]
                    == old(learner).automata()[i],
            Self::placed(v, final(learner).slots(), final(learner).automata(), dfa),
            forall|w: Self::Var| #[trigger]
                Self::placed(w, old(learner).slots(), old(learner).automata(), dfa)
                    ==> Self::apart(w, v),
            forall|g: Guess, e: Bits| #[trigger]
                final(learner).allows(g, e) == old(learner).allows(g, e),
    ;

    /// The value of a slot.
    fn from_solution(
        solution: &Solution<'a>,
        var: Self::Var,
        store: &SPPstore,
        dfa: &'a ExplicitDFA,
    ) -> (c: Self)
        requires
            store.wf(),
            dfa.valid(*store),
            solution_ok(*store, *solution, solution.spps@.len(), automata_of(*solution)),
            Self::placed(var, solution.spps@.len(), automata_of(*solution), dfa),
        ensures
            c.valid(*store),
            c.over(dfa),
            same(
                store.n(),
                enfa_lang(&c, *store),
                Self::slot_lang(var, *store, dfa, guess_by(*store, *solution)),
            ),
    ;

    /// The candidate that accepts whatever any candidate does.
    fn top(store: &mut SPPstore, dfa: &'a ExplicitDFA) -> (c: Self)
        requires
            old(store).wf(),
            dfa.valid(*old(store)),
        ensures
            final(store).wf(),
            final(store).extends(old(store)),
            final(store).sp == old(store).sp,
            c.valid(*final(store)),
            c.over(dfa),
            forall|v: Self::Var, g: Guess, w: Word|
                #![trigger Self::slot_lang(v, *final(store), dfa, g)(w)]
                is_word(old(store).n(), w) && Self::slot_lang(v, *final(store), dfa, g)(w)
                    ==> enfa_lang(&c, *final(store))(w),
    ;

    /// The same candidate.
    fn again(&self) -> (c: Self)
        ensures
            forall|st: SPPstore| self.valid(st) ==> #[trigger] c.valid(st),
            forall|dfa: &'a ExplicitDFA| self.over(dfa) ==> #[trigger] c.over(dfa),
            forall|st: SPPstore, w: Word|
                self.valid(st) && st.wf() && is_word(st.n(), w) ==> #[trigger] enfa_lang(
                    &c,
                    st,
                )(w) == enfa_lang(self, st)(w),
    ;

    /// The automaton that candidates of this kind draw on.  It is total.  Where it is
    /// made from upper bounds, it is their product, and its words are those that all of
    /// them have.
    fn make_reference_dfa(store: &mut SPPstore, constraints: &Vec<Constraint>) -> (dfa: ExplicitDFA)
        requires
            old(store).wf(),
            forall|i: int|
                0 <= i < constraints@.len() ==> (#[trigger] constraints@[i]).ok(*old(store)),
        ensures
            final(store).wf(),
            final(store).extends(old(store)),
            dfa.valid(*final(store)),
            total(&dfa, *final(store)),
            Self::bounded() ==> same(
                old(store).n(),
                enfa_lang(&dfa, *final(store)),
                upper_lang(constraints@, *old(store)),
            ),
            Self::bounded() ==> exists|f: Seq<Vector>| #[trigger]
                grounds(
                    dfa,
                    *final(store),
                    uppers(constraints@, constraints@.len() as int),
                    *old(store),
                    f,
                ),
            !Self::bounded() ==> one_state(dfa, *final(store)),
    ;

    /// The literal that the slot does not have the way that this candidate goes
    /// through a hole.
    fn reject_literal(
        &self,
        store: &SPPstore,
        dfa: &'a ExplicitDFA,
        var: Self::Var,
        pkt_in: &Vec<bool>,
        inner: &Vec<(Self::State, Vec<bool>)>,
        pkt_out: &Vec<bool>,
    ) -> (l: Literal)
        requires
            store.wf(),
            dfa.valid(*store),
            self.valid(*store),
            self.over(dfa),
            is_path(self, *store, seq![(self.init(), pkt_in@)] + path_of(inner@)),
            pkt_out@.len() == store.n(),
            self.out(
                *store,
                (seq![(self.init(), pkt_in@)] + path_of(inner@)).last().0,
                (seq![(self.init(), pkt_in@)] + path_of(inner@)).last().1,
                pkt_out@,
            ),
        ensures
            forall|st: SPstore, slots: nat, automata: Seq<&'a ExplicitDFA>, vars: nat|
                Self::placed(var, slots, automata, dfa) ==> #[trigger] lit_ok(
                    l,
                    st,
                    store.n(),
                    slots,
                    widths(automata),
                    vars,
                ),
            forall|st: SPstore, g: Guess, e: Bits| #[trigger]
                lit_true(st, l, g, e) == !Self::slot_lang(var, *store, dfa, g)(
                    span_word(pkt_in@, packets_of(path_of(inner@)), pkt_out@),
                ),
    ;

    /// The literal that the slot has a word from the one set to the other that
    /// records the packets.  `None` if no candidate of this kind has one; otherwise the
    /// guess that has everything does.
    fn accept_literal<L: SmtLearner<'a>>(
        var: Self::Var,
        learner: &mut L,
        store: &mut SPPstore,
        dfa: &'a ExplicitDFA,
        in_sp: SP,
        out_sp: SP,
        trace: &[Vec<bool>],
    ) -> (r: Option<Literal>)
        requires
            old(learner).wf(),
            old(store).wf(),
            old(store).n() == old(learner).n(),
            dfa.valid(*old(store)),
            Self::placed(var, old(learner).slots(), old(learner).automata(), dfa),
            old(store).sp.has(in_sp),
            old(store).sp.has(out_sp),
            in_sp != old(store).sp.zero,
            out_sp != old(store).sp.zero,
            forall|i: int| 0 <= i < trace@.len() ==> (#[trigger] trace@[i])@.len() == old(store).n(),
        ensures
            final(store).wf(),
            final(store).extends(old(store)),
            match r {
                Some(l) => exists|claim: spec_fn(Guess) -> bool| #[trigger]
                    gains(*final(learner), *old(learner), final(store).sp, l, claim) && claim(
                        everything(),
                    ) && forall|g: Guess| #[trigger]
                        claim(g) == spans(
                            Self::slot_lang(var, *old(store), dfa, g),
                            old(store).sp,
                            in_sp,
                            out_sp,
                            packets(trace@),
                        ),
                None => *final(learner) == *old(learner) && forall|g: Guess|
                    !(#[trigger] spans(
                        Self::slot_lang(var, *old(store), dfa, g),
                        old(store).sp,
                        in_sp,
                        out_sp,
                        packets(trace@),
                    )),
            },
    ;
}

/// The automata of the candidates of a solution.
pub open spec fn automata_of<'a>(sol: Solution<'a>) -> Seq<&'a ExplicitDFA> {
    Seq::new(sol.cands@.len(), |i: int| sol.cands@[i].dfa)
}

/// The words that all upper bounds have.
pub open spec fn upper_lang(cs: Seq<Constraint>, st: SPPstore) -> Lang {
    |w: Word|
        forall|i: int|
            0 <= i < cs.len() && (#[trigger] cs[i]).is_upper() ==> enfa_lang(&cs[i].the_dfa(), st)(
                w,
            )
}

/// The automaton has one state, to which everything leads and in which nothing ends.
pub open spec fn one_state(dfa: ExplicitDFA, st: SPPstore) -> bool {
    &&& dfa.start == 0
    &&& dfa.transitions@.len() == 1
    &&& dfa.transitions@[0]@ == seq![(st.top, 0usize)]
    &&& dfa.outputs@ == seq![st.zero]
}

/// An automaton with one state, for candidates that draw on none.
pub fn spp_reference_dfa(store: &SPPstore) -> (dfa: ExplicitDFA)
    requires
        store.wf(),
    ensures
        dfa.valid(*store),
        total(&dfa, *store),
        dfa.transitions@.len() == 1,
        one_state(dfa, *store),
{
    proof {
        store.lemma_wf();
    }
    let mut row: Vec<(SPP, usize)> = Vec::new();
    row.push((store.top, 0));
    let ghost row0 = row@;
    let mut transitions: Vec<Vec<(SPP, usize)>> = Vec::new();
    transitions.push(row);
    let mut outputs: Vec<SPP> = Vec::new();
    outputs.push(store.zero);
    let dfa = ExplicitDFA { start: 0, transitions, outputs };
    proof {
        let st = *store;
        assert(row0 =~= seq![(st.top, 0usize)]);
        assert(dfa.outputs@ =~= seq![st.zero]);
        assert forall|p: Pkt, r: usize, x: Pkt| #[trigger] listed(st, row0, p, r, x) implies r
            == 0 by {
            let i = choose|i: int|
                0 <= i < row0.len() && st.rel((#[trigger] row0[i]).0, p, x)
                    && row0[i].1.model() == r;
            assert(row0[i].1 == 0);
        }
        assert forall|i: int| 0 <= i < dfa.transitions@.len() implies (
        #[trigger] dfa.transitions@[i])@ == row0 by {}
        assert forall|q: usize, p: Pkt, x: Pkt|
            dfa.is_state(q) && p.len() == st.n() && x.len() == st.n() implies #[trigger] moves_on(
            &dfa,
            st,
            q,
            p,
            x,
        ) by {
            assert(st.rel(row0[0].0, p, x));
            assert(row0[0].1.model() == 0usize);
            assert(listed(st, row0, p, 0usize, x));
            assert(dfa.step(st, q, p, 0usize, x));
        }
    }
    dfa
}

impl<'a> Candidate<'a> for SPP {
    type Var = SppVar;

    open spec fn placed(
        v: SppVar,
        slots: nat,
        automata: Seq<&'a ExplicitDFA>,
        dfa: &'a ExplicitDFA,
    ) -> bool {
        v.0 < slots
    }

    open spec fn apart(v: SppVar, w: SppVar) -> bool {
        v.0 != w.0
    }

    open spec fn bounded() -> bool {
        false
    }

    open spec fn slot_lang(v: SppVar, st: SPPstore, dfa: &'a ExplicitDFA, g: Guess) -> Lang {
        |w: Word| w.len() == 2 && (g.spps)(v.0, w[0], w[1])
    }

    open spec fn over(&self, dfa: &'a ExplicitDFA) -> bool {
        true
    }

    proof fn lemma_slot(v: SppVar, st: SPPstore, o: SPPstore, dfa: &'a ExplicitDFA, g: Guess) {
    }

    proof fn lemma_placed(
        v: SppVar,
        slots: nat,
        automata: Seq<&'a ExplicitDFA>,
        slots2: nat,
        automata2: Seq<&'a ExplicitDFA>,
        dfa: &'a ExplicitDFA,
    ) {
    }

    fn fresh_var<L: SmtLearner<'a>>(learner: &mut L, dfa: &'a ExplicitDFA) -> (v: SppVar) {
        learner.fresh_spp()
    }

    fn from_solution(
        solution: &Solution<'a>,
        var: SppVar,
        store: &SPPstore,
        dfa: &'a ExplicitDFA,
    ) -> (c: SPP) {
        let c = solution.spps[var.0];
        proof {
            let l = <SPP as Candidate<'a>>::slot_lang(
                var,
                *store,
                dfa,
                guess_by(*store, *solution),
            );
            assert(store.has(solution.spps@[var.0 as int]));
            assert forall|w: Word| is_word(store.n(), w) implies enfa_lang(&c, *store)(w) == l(
                w,
            ) by {
                law_spp_lang(c, *store, w);
            }
        }
        c
    }

    fn top(store: &mut SPPstore, dfa: &'a ExplicitDFA) -> (c: SPP) {
        proof {
            store.lemma_wf();
        }
        let c = store.top;
        proof {
            let st = *store;
            assert forall|v: SppVar, g: Guess, w: Word|
                #![trigger <SPP as Candidate<'a>>::slot_lang(v, st, dfa, g)(w)]
                is_word(st.n(), w) && <SPP as Candidate<'a>>::slot_lang(v, st, dfa, g)(w)
                implies enfa_lang(&c, st)(w) by {
                law_spp_lang(c, st, w);
                assert(st.rel(c, w[0], w[1]));
            }
        }
        c
    }

    fn again(&self) -> (c: SPP) {
        *self
    }

    fn make_reference_dfa(store: &mut SPPstore, constraints: &Vec<Constraint>) -> (dfa: ExplicitDFA) {
        spp_reference_dfa(store)
    }

    fn reject_literal(
        &self,
        store: &SPPstore,
        dfa: &'a ExplicitDFA,
        var: SppVar,
        pkt_in: &Vec<bool>,
        inner: &Vec<((), Vec<bool>)>,
        pkt_out: &Vec<bool>,
    ) -> (l: Literal) {
        let l = Literal::Spp {
            spp: var,
            ap1: concrete(pkt_in),
            ap2: concrete(pkt_out),
            polarity: false,
        };
        proof {
            let path = seq![(self.init(), pkt_in@)] + path_of(inner@);
            if inner@.len() > 0 {
                assert(moves(self, *store, path, 0));
            }
            assert(path[0].1.len() == store.n());
            assert(packets_of(path_of(inner@)) =~= Seq::<Pkt>::empty());
            let w = span_word(pkt_in@, packets_of(path_of(inner@)), pkt_out@);
            assert(w =~= seq![pkt_in@, pkt_out@]);
        }
        l
    }

    fn accept_literal<L: SmtLearner<'a>>(
        var: SppVar,
        learner: &mut L,
        store: &mut SPPstore,
        dfa: &'a ExplicitDFA,
        in_sp: SP,
        out_sp: SP,
        trace: &[Vec<bool>],
    ) -> (r: Option<Literal>) {
        proof {
            store.lemma_wf();
        }
        let ghost t = packets(trace@);
        let ghost st = store.sp;
        let ghost so = *store;
        let ghost o = *learner;
        if trace.len() > 0 {
            proof {
                assert forall|g: Guess| !(#[trigger] spans(
                    <SPP as Candidate<'a>>::slot_lang(var, so, dfa, g),
                    st,
                    in_sp,
                    out_sp,
                    t,
                )) by {
                    assert forall|p: Pkt, q: Pkt| (#[trigger] span_word(p, t, q)).len() != 2 by {}
                }
            }
            return None;
        }
        let l = Literal::SppMember { spp: var, in_sp, out_sp };
        proof {
            store.lemma_sets_n();
            let claim = |g: Guess|
                spans(<SPP as Candidate<'a>>::slot_lang(var, so, dfa, g), st, in_sp, out_sp, t);
            assert forall|g: Guess, e: Bits| #[trigger] lit_true(st, l, g, e) == claim(g) by {
                let sl = <SPP as Candidate<'a>>::slot_lang(var, so, dfa, g);
                if lit_true(st, l, g, e) {
                    let (p, q) = choose|p: Pkt, q: Pkt|
                        p.len() == st.n() && q.len() == st.n() && st.mem(in_sp, p) && st.mem(
                            out_sp,
                            q,
                        ) && #[trigger] (g.spps)(var.0, p, q);
                    let w = span_word(p, t, q);
                    assert(w.len() == 2 && w[0] == p && w[1] == q);
                    assert(sl(span_word(p, t, q)));
                }
                if claim(g) {
                    let (p, q) = choose|p: Pkt, q: Pkt|
                        p.len() == st.n() && q.len() == st.n() && st.mem(in_sp, p) && st.mem(
                            out_sp,
                            q,
                        ) && sl(#[trigger] span_word(p, t, q));
                    let w = span_word(p, t, q);
                    assert(w[0] == p && w[1] == q);
                    assert((g.spps)(var.0, p, q));
                }
            }
            assert forall|g: Guess, e: Bits| #[trigger] o.allows(g, e) implies gains_for(
                o,
                o,
                st,
                l,
                claim,
                g,
                e,
            ) by {
                reveal(gains_for);
                assert(same_bits(o.vars(), e, e));
                assert(lit_true(st, l, g, e) == claim(g));
            }
            assert(gains(o, o, st, l, claim));
            st.lemma_nonzero(in_sp);
            st.lemma_nonzero(out_sp);
            let p = choose|p: Pkt| p.len() == st.n() && st.mem(in_sp, p);
            let q = choose|q: Pkt| q.len() == st.n() && st.mem(out_sp, q);
            let w = span_word(p, t, q);
            assert(w.len() == 2 && w[0] == p && w[1] == q);
            assert(<SPP as Candidate<'a>>::slot_lang(var, so, dfa, everything())(
                span_word(p, t, q),
            ));
            assert(claim(everything()));
        }
        Some(l)
    }
}


// ---- candidates over an automaton ---------------------------------------------------------------

/// The words of a predicate on the inputs of a candidate.
pub open spec fn cand_lang(v: CandVar, st: SPPstore, dfa: ExplicitDFA, g: Guess) -> Lang {
    |w: Word|
        w.len() >= 3 && exists|u: Seq<usize>| #[trigger]
            evolves(
                dfa,
                st,
                identity(dfa.transitions@.len()),
                w.skip(1).drop_last(),
                u,
            ) && (g.cands)(v.0, w[0], w[1], u, w[w.len() - 2], w.last())
}

/// The packets have `n` fields.
pub open spec fn wide(n: nat, t: Seq<Pkt>) -> bool {
    forall|i: int| 0 <= i < t.len() ==> (#[trigger] t[i]).len() == n
}

/// A tuple goes to tuples.
proof fn lemma_step_tuple(
    dfa: ExplicitDFA,
    st: SPPstore,
    v: Seq<usize>,
    p: Pkt,
    u: Seq<usize>,
    x: Pkt,
)
    requires
        st.wf(),
        dfa.valid(st),
        tuple_ok(v, dfa.transitions@.len()),
        p.len() == st.n(),
        x.len() == st.n(),
        all_step(dfa, st, v, p, u, x),
    ensures
        tuple_ok(u, dfa.transitions@.len()),
{
    dfa.lemma_states(st);
    assert forall|i: int| 0 <= i < u.len() implies #[trigger] u[i] < dfa.transitions@.len() by {
        assert(one_step(dfa, st, v, p, u, x, i));
        assert(v[i] < dfa.transitions@.len());
        assert(dfa.step(st, v[i], p, u[i], x));
        assert(dfa.is_state(u[i]));
    }
}

proof fn lemma_evolves_tuple(
    dfa: ExplicitDFA,
    st: SPPstore,
    v: Seq<usize>,
    t: Seq<Pkt>,
    u: Seq<usize>,
)
    requires
        st.wf(),
        dfa.valid(st),
        tuple_ok(v, dfa.transitions@.len()),
        wide(st.n(), t),
        evolves(dfa, st, v, t, u),
    ensures
        tuple_ok(u, dfa.transitions@.len()),
    decreases t.len(),
{
    if t.len() > 1 {
        let y = choose|y: Seq<usize>| #[trigger]
            all_step(dfa, st, v, t[0], y, t[1]) && evolves(dfa, st, y, t.skip(1), u);
        lemma_step_tuple(dfa, st, v, t[0], y, t[1]);
        assert(wide(st.n(), t.skip(1))) by {
            assert forall|i: int| 0 <= i < t.skip(1).len() implies (#[trigger] t.skip(1)[i]).len()
                == st.n() by {
                assert(t.skip(1)[i] == t[i + 1]);
            }
        }
        lemma_evolves_tuple(dfa, st, y, t.skip(1), u);
    }
}

/// Packets lead from a tuple to one tuple only.
proof fn lemma_evolves_unique(
    dfa: ExplicitDFA,
    st: SPPstore,
    v: Seq<usize>,
    t: Seq<Pkt>,
    u: Seq<usize>,
    y: Seq<usize>,
)
    requires
        st.wf(),
        dfa.valid(st),
        tuple_ok(v, dfa.transitions@.len()),
        wide(st.n(), t),
        evolves(dfa, st, v, t, u),
        evolves(dfa, st, v, t, y),
    ensures
        u == y,
    decreases t.len(),
{
    if t.len() > 1 {
        let a = choose|a: Seq<usize>| #[trigger]
            all_step(dfa, st, v, t[0], a, t[1]) && evolves(dfa, st, a, t.skip(1), u);
        let b = choose|b: Seq<usize>| #[trigger]
            all_step(dfa, st, v, t[0], b, t[1]) && evolves(dfa, st, b, t.skip(1), y);
        lemma_step_unique(dfa, st, v, t[0], a, b, t[1]);
        lemma_step_tuple(dfa, st, v, t[0], a, t[1]);
        assert(wide(st.n(), t.skip(1))) by {
            assert forall|i: int| 0 <= i < t.skip(1).len() implies (#[trigger] t.skip(1)[i]).len()
                == st.n() by {
                assert(t.skip(1)[i] == t[i + 1]);
            }
        }
        lemma_evolves_unique(dfa, st, a, t.skip(1), u, y);
    }
}

/// Where packets lead is kept when the store grows.
proof fn lemma_evolves_store(
    dfa: ExplicitDFA,
    st: SPPstore,
    o: SPPstore,
    v: Seq<usize>,
    t: Seq<Pkt>,
    u: Seq<usize>,
)
    requires
        o.wf(),
        st.wf(),
        st.extends(&o),
        dfa.valid(o),
        tuple_ok(v, dfa.transitions@.len()),
        wide(o.n(), t),
    ensures
        evolves(dfa, st, v, t, u) == evolves(dfa, o, v, t, u),
    decreases t.len(),
{
    if t.len() > 1 {
        dfa.lemma_valid(st, o);
        let n = dfa.transitions@.len();
        assert(wide(o.n(), t.skip(1))) by {
            assert forall|i: int| 0 <= i < t.skip(1).len() implies (#[trigger] t.skip(1)[i]).len()
                == o.n() by {
                assert(t.skip(1)[i] == t[i + 1]);
            }
        }
        assert forall|y: Seq<usize>| #[trigger] all_step(dfa, st, v, t[0], y, t[1]) == all_step(
            dfa,
            o,
            v,
            t[0],
            y,
            t[1],
        ) by {
            assert forall|i: int| 0 <= i < v.len() implies #[trigger] one_step(
                dfa,
                st,
                v,
                t[0],
                y,
                t[1],
                i,
            ) == one_step(dfa, o, v, t[0], y, t[1], i) by {
                assert(v[i] < n);
                assert(dfa.step(st, v[i], t[0], y[i], t[1]) == dfa.step(
                    o,
                    v[i],
                    t[0],
                    y[i],
                    t[1],
                ));
            }
            if all_step(dfa, st, v, t[0], y, t[1]) {
                assert forall|i: int| 0 <= i < v.len() implies #[trigger] one_step(
                    dfa,
                    o,
                    v,
                    t[0],
                    y,
                    t[1],
                    i,
                ) by {
                    assert(one_step(dfa, st, v, t[0], y, t[1], i));
                }
            }
            if all_step(dfa, o, v, t[0], y, t[1]) {
                assert forall|i: int| 0 <= i < v.len() implies #[trigger] one_step(
                    dfa,
                    st,
                    v,
                    t[0],
                    y,
                    t[1],
                    i,
                ) by {
                    assert(one_step(dfa, o, v, t[0], y, t[1], i));
                }
            }
        }
        if evolves(dfa, st, v, t, u) {
            let y = choose|y: Seq<usize>| #[trigger]
                all_step(dfa, st, v, t[0], y, t[1]) && evolves(dfa, st, y, t.skip(1), u);
            lemma_step_tuple(dfa, st, v, t[0], y, t[1]);
            lemma_evolves_store(dfa, st, o, y, t.skip(1), u);
            assert(all_step(dfa, o, v, t[0], y, t[1]));
        }
        if evolves(dfa, o, v, t, u) {
            let y = choose|y: Seq<usize>| #[trigger]
                all_step(dfa, o, v, t[0], y, t[1]) && evolves(dfa, o, y, t.skip(1), u);
            lemma_step_tuple(dfa, o, v, t[0], y, t[1]);
            lemma_evolves_store(dfa, st, o, y, t.skip(1), u);
            assert(all_step(dfa, st, v, t[0], y, t[1]));
        }
    }
}

proof fn lemma_identity(dfa: ExplicitDFA)
    ensures
        tuple_ok(identity(dfa.transitions@.len()), dfa.transitions@.len()),
{
    let v = identity(dfa.transitions@.len());
    assert forall|i: int| 0 <= i < v.len() implies #[trigger] v[i] < dfa.transitions@.len() by {
        assert(dfa.transitions@.len() == dfa.transitions.len());
    }
}

/// The inner packets of a word.
proof fn lemma_inner_wide(n: nat, w: Word)
    requires
        is_word(n, w),
    ensures
        wide(n, w.skip(1).drop_last()),
{
    let t = w.skip(1).drop_last();
    assert forall|i: int| 0 <= i < t.len() implies (#[trigger] t[i]).len() == n by {
        assert(t[i] == w[i + 1]);
    }
}

/// One more step at the end.
proof fn lemma_evolves_push(
    dfa: ExplicitDFA,
    st: SPPstore,
    v: Seq<usize>,
    t: Seq<Pkt>,
    u: Seq<usize>,
    x: Pkt,
    y: Seq<usize>,
)
    requires
        t.len() >= 1,
        evolves(dfa, st, v, t, u),
        all_step(dfa, st, u, t.last(), y, x),
    ensures
        evolves(dfa, st, v, t.push(x), y),
    decreases t.len(),
{
    let s = t.push(x);
    if t.len() == 1 {
        assert(s[0] == t.last() && s[1] == x);
        assert(s.skip(1).len() == 1);
        assert(evolves(dfa, st, y, s.skip(1), y));
        assert(all_step(dfa, st, v, s[0], y, s[1]));
    } else {
        let a = choose|a: Seq<usize>| #[trigger]
            all_step(dfa, st, v, t[0], a, t[1]) && evolves(dfa, st, a, t.skip(1), u);
        assert(t.skip(1).last() == t.last());
        lemma_evolves_push(dfa, st, a, t.skip(1), u, x, y);
        assert(s.skip(1) =~= t.skip(1).push(x));
        assert(s[0] == t[0] && s[1] == t[1]);
        assert(all_step(dfa, st, v, s[0], a, s[1]));
    }
}

/// One step less at the end.
proof fn lemma_evolves_last(
    dfa: ExplicitDFA,
    st: SPPstore,
    v: Seq<usize>,
    t: Seq<Pkt>,
    x: Pkt,
    y: Seq<usize>,
) -> (u: Seq<usize>)
    requires
        t.len() >= 1,
        evolves(dfa, st, v, t.push(x), y),
    ensures
        evolves(dfa, st, v, t, u),
        all_step(dfa, st, u, t.last(), y, x),
    decreases t.len(),
{
    let s = t.push(x);
    let a = choose|a: Seq<usize>| #[trigger]
        all_step(dfa, st, v, s[0], a, s[1]) && evolves(dfa, st, a, s.skip(1), y);
    if t.len() == 1 {
        assert(s.skip(1).len() == 1);
        assert(a == y);
        assert(s[0] == t.last() && s[1] == x);
        v
    } else {
        assert(s.skip(1) =~= t.skip(1).push(x));
        assert(t.skip(1).last() == t.last());
        let u = lemma_evolves_last(dfa, st, a, t.skip(1), x, y);
        assert(s[0] == t[0] && s[1] == t[1]);
        assert(all_step(dfa, st, v, t[0], a, t[1]));
        u
    }
}

/// The tuple that the packets lead to, or `None` if some component has no transition.
fn step_all(store: &mut SPPstore, dfa: &ExplicitDFA, trace: &[Vec<bool>]) -> (r: Option<Vec<usize>>)
    requires
        old(store).wf(),
        dfa.valid(*old(store)),
        trace@.len() >= 1,
        wide(old(store).n(), packets(trace@)),
    ensures
        final(store).wf(),
        final(store).extends(old(store)),
        match r {
            Some(u) => evolves(
                *dfa,
                *old(store),
                identity(dfa.transitions@.len()),
                packets(trace@),
                u@,
            ) && tuple_ok(u@, dfa.transitions@.len()),
            None => forall|u: Seq<usize>| !(#[trigger] evolves(
                *dfa,
                *old(store),
                identity(dfa.transitions@.len()),
                packets(trace@),
                u,
            )),
        },
{
    let ghost o = *store;
    let ghost n = o.n();
    let ghost t = packets(trace@);
    let ghost k = dfa.transitions@.len();
    let mut states: Vec<usize> = Vec::new();
    let mut j: usize = 0;
    let ns = dfa.num_states();
    proof {
        o.lemma_wf();
    }
    while j < ns
        invariant
            j <= ns,
            states@.len() == j,
            forall|x: int| 0 <= x < j ==> #[trigger] states@[x] == x,
        decreases ns - j,
    {
        states.push(j);
        j = j + 1;
    }
    let exp = Exponential { inner: dfa };
    let mut i: usize = 0;
    proof {
        assert(states@ =~= identity(k));
        lemma_identity(*dfa);
        assert(t.take(1).len() == 1);
    }
    while i < trace.len() - 1
        invariant
            o == *old(store),
            o.wf(),
            n == o.n(),
            store.wf(),
            store.extends(&o),
            dfa.valid(o),
            exp.inner == dfa,
            k == dfa.transitions@.len(),
            t == packets(trace@),
            t.len() == trace@.len(),
            wide(n, t),
            tuple_ok(identity(k), k),
            trace@.len() >= 1,
            i < trace@.len(),
            tuple_ok(states@, k),
            evolves(*dfa, o, identity(k), t.take(i + 1), states@),
        decreases trace.len() - i,
    {
        let ghost s1 = *store;
        let ghost v = states@;
        proof {
            dfa.lemma_valid(s1, o);
            assert(models(states@) =~= states@);
            assert forall|x: int| 0 <= x < states@.len() implies exp.inner.is_state(
                (#[trigger] states@[x]).model(),
            ) by {
                assert(states@[x] < k);
            }
            assert(t[i as int].len() == n && t[i + 1].len() == n);
            assert(t[i as int] == trace@[i as int]@ && t[i + 1] == trace@[i + 1]@);
        }
        let ts = exp.transitions(store, states.as_slice());
        let ghost s2 = *store;
        proof {
            assert forall|m: Seq<usize>| #[trigger] listed(s2, ts@, t[i as int], m, t[i + 1])
                <==> all_step(*dfa, o, v, t[i as int], m, t[i + 1]) by {
                let p = t[i as int];
                let x = t[i + 1];
                assert forall|y: int| 0 <= y < v.len() && m.len() == v.len() implies (
                #[trigger] one_step(*dfa, o, v, p, m, x, y) <==> part_steps(
                    exp.inner,
                    s1,
                    models(v),
                    p,
                    m,
                    x,
                    y,
                )) by {
                    assert(v[y] < k);
                    assert(dfa.step(s1, v[y], p, m[y], x) == dfa.step(o, v[y], p, m[y], x));
                }
                if listed(s2, ts@, p, m, x) {
                    assert forall|y: int| 0 <= y < v.len() implies #[trigger] one_step(
                        *dfa,
                        o,
                        v,
                        p,
                        m,
                        x,
                        y,
                    ) by {
                        assert(part_steps(exp.inner, s1, models(v), p, m, x, y));
                    }
                }
                if all_step(*dfa, o, v, p, m, x) {
                    assert forall|y: int| 0 <= y < v.len() implies #[trigger] part_steps(
                        exp.inner,
                        s1,
                        models(v),
                        p,
                        m,
                        x,
                        y,
                    ) by {
                        assert(one_step(*dfa, o, v, p, m, x, y));
                    }
                }
            }
        }
        let mut found: Option<usize> = None;
        let mut x: usize = 0;
        while x < ts.len() && found.is_none()
            invariant
                s2 == *store,
                s2.wf(),
                s2.n() == n,
                i + 1 < trace@.len(),
                t == packets(trace@),
                trace@[i as int]@ == t[i as int],
                trace@[i + 1]@ == t[i + 1],
                t[i as int].len() == n,
                t[i + 1].len() == n,
                forall|y: int| 0 <= y < ts@.len() ==> s2.has((#[trigger] ts@[y]).0),
                x <= ts@.len(),
                found matches Some(y) ==> y < ts@.len() && s2.rel(
                    ts@[y as int].0,
                    t[i as int],
                    t[i + 1],
                ),
                found is None ==> forall|y: int|
                    0 <= y < x ==> !s2.rel((#[trigger] ts@[y]).0, t[i as int], t[i + 1]),
            decreases ts.len() - x,
        {
            assert(s2.has(ts@[x as int].0));
            if store.accepts(ts[x].0, trace[i].as_slice(), trace[i + 1].as_slice()) {
                found = Some(x);
            }
            x = x + 1;
        }
        match found {
            Some(y) => {
                let ghost m = ts@[y as int].1@;
                proof {
                    assert(models(m) =~= m);
                    assert(ts@[y as int].1.model() == m);
                    assert(listed(s2, ts@, t[i as int], m, t[i + 1]));
                    assert(t.take(i + 1).last() == t[i as int]);
                    lemma_evolves_push(
                        *dfa,
                        o,
                        identity(k),
                        t.take(i + 1),
                        v,
                        t[i + 1],
                        m,
                    );
                    assert(t.take(i + 2) =~= t.take(i + 1).push(t[i + 1]));
                    lemma_step_tuple(*dfa, o, v, t[i as int], m, t[i + 1]);
                }
                states = crate::aut::copy_states(&ts[y].1);
            },
            None => {
                proof {
                    assert forall|u: Seq<usize>| !(#[trigger] evolves(
                        *dfa,
                        o,
                        identity(k),
                        t,
                        u,
                    )) by {
                        if evolves(*dfa, o, identity(k), t, u) {
                            lemma_evolves_prefix(*dfa, o, identity(k), t, u, i + 2);
                            let u2 = choose|u2: Seq<usize>| #[trigger]
                                evolves(*dfa, o, identity(k), t.take(i + 2), u2);
                            assert(t.take(i + 2) =~= t.take(i + 1).push(t[i + 1]));
                            let u1 = lemma_evolves_last(
                                *dfa,
                                o,
                                identity(k),
                                t.take(i + 1),
                                t[i + 1],
                                u2,
                            );
                            assert(wide(n, t.take(i + 1))) by {
                                assert forall|z: int| 0 <= z < t.take(i + 1).len() implies (
                                #[trigger] t.take(i + 1)[z]).len() == n by {
                                    assert(t.take(i + 1)[z] == t[z]);
                                }
                            }
                            lemma_evolves_unique(
                                *dfa,
                                o,
                                identity(k),
                                t.take(i + 1),
                                u1,
                                v,
                            );
                            assert(t.take(i + 1).last() == t[i as int]);
                            assert(listed(s2, ts@, t[i as int], u2, t[i + 1]));
                            let y = choose|y: int|
                                0 <= y < ts@.len() && s2.rel(
                                    (#[trigger] ts@[y]).0,
                                    t[i as int],
                                    t[i + 1],
                                ) && ts@[y].1.model() == u2;
                            assert(false);
                        }
                    }
                }
                return None;
            },
        }
        i = i + 1;
    }
    assert(t.take(i + 1) =~= t);
    Some(states)
}

/// The first packets lead somewhere if all do.
proof fn lemma_evolves_prefix(
    dfa: ExplicitDFA,
    st: SPPstore,
    v: Seq<usize>,
    t: Seq<Pkt>,
    u: Seq<usize>,
    k: int,
)
    requires
        1 <= k <= t.len(),
        evolves(dfa, st, v, t, u),
    ensures
        exists|y: Seq<usize>| #[trigger] evolves(dfa, st, v, t.take(k), y),
    decreases t.len() - k,
{
    if k == t.len() {
        assert(t.take(k) =~= t);
        assert(evolves(dfa, st, v, t.take(k), u));
    } else {
        let s = t.drop_last();
        assert(t =~= s.push(t.last()));
        let y = lemma_evolves_last(dfa, st, v, s, t.last(), u);
        lemma_evolves_prefix(dfa, st, v, s, y, k);
        assert(s.take(k) =~= t.take(k));
    }
}


/// The packets of a path of a candidate, and the tuple that they lead to.
proof fn lemma_cand_path<'a>(
    c: &Cand<'a>,
    st: SPPstore,
    p: Pkt,
    rest: Seq<(CandState, Pkt)>,
)
    requires
        st.wf(),
        c.valid(st),
        is_path(c, st, seq![(CandState::Start, p)] + rest),
        rest.len() >= 1,
    ensures
        rest.last().0 is Middle,
        evolves(
            *c.dfa,
            st,
            identity(c.width()),
            packets_of(rest),
            rest.last().0->Middle_1,
        ),
        rest.last().0->Middle_0 == crate::holes::cand::field_at(
            c.tbl(),
            c.top_node(),
            p,
            rest[0].1,
        ),
    decreases rest.len(),
{
    let path = seq![(CandState::Start, p)] + rest;
    if rest.len() == 1 {
        assert(moves(c, st, path, 0));
        assert(path[1] == rest[0]);
        assert(packets_of(rest).len() == 1);
    } else {
        let r0 = rest.drop_last();
        let p0 = seq![(CandState::Start, p)] + r0;
        assert(p0 =~= path.drop_last());
        assert forall|i: int| 0 <= i < p0.len() - 1 implies #[trigger] moves(c, st, p0, i) by {
            assert(moves(c, st, path, i));
        }
        assert forall|i: int| 0 <= i < p0.len() implies (#[trigger] p0[i]).1.len() == st.n() by {
            assert(p0[i] == path[i]);
        }
        lemma_cand_path(c, st, p, r0);
        let k = path.len() - 2;
        assert(moves(c, st, path, k));
        assert(path[k] == r0.last() && path[k + 1] == rest.last());
        lemma_evolves_push(
            *c.dfa,
            st,
            identity(c.width()),
            packets_of(r0),
            r0.last().0->Middle_1,
            rest.last().1,
            rest.last().0->Middle_1,
        );
        assert(packets_of(rest) =~= packets_of(r0).push(rest.last().1));
        assert(packets_of(r0).last() == r0.last().1);
    }
}

/// The parts of a word with packets in between.
proof fn lemma_span_parts(p: Pkt, t: Seq<Pkt>, q: Pkt)
    requires
        t.len() >= 1,
    ensures
        span_word(p, t, q).len() == t.len() + 2,
        span_word(p, t, q).skip(1).drop_last() == t,
        span_word(p, t, q)[0] == p,
        span_word(p, t, q)[1] == t[0],
        span_word(p, t, q)[span_word(p, t, q).len() - 2] == t.last(),
        span_word(p, t, q).last() == q,
{
    let w = span_word(p, t, q);
    assert(w.skip(1).drop_last() =~= t);
}

/// The literal that candidate slot `var` has the input.
fn cand_literal(
    var: CandVar,
    pkt_in: Vec<AbstractBit>,
    pkt_start: &Vec<bool>,
    states: Vec<usize>,
    pkt_end: &Vec<bool>,
    pkt_out: Vec<AbstractBit>,
    polarity: bool,
) -> (l: Literal)
    ensures
        forall|st: SPstore, n: nat, s: nat, ws: Seq<nat>, m: nat|
            var.0 < ws.len() && packet_ok(pkt_in@, n, m) && packet_ok(pkt_out@, n, m)
                && pkt_start@.len() == n && pkt_end@.len() == n && states@.len()
                == ws[var.0 as int] && (forall|i: int|
                0 <= i < states@.len() ==> #[trigger] states@[i] < states@.len())
                ==> #[trigger] lit_ok(l, st, n, s, ws, m),
        forall|st: SPstore, g: Guess, e: Bits| #[trigger]
            lit_true(st, l, g, e) == ((g.cands)(
                var.0,
                bits_at(pkt_in@, e),
                pkt_start@,
                states@,
                pkt_end@,
                bits_at(pkt_out@, e),
            ) == polarity),
{
    Literal::Cand {
        cand: var,
        pkt_in,
        pkt_start: concrete(pkt_start),
        states,
        pkt_end: concrete(pkt_end),
        pkt_out,
        polarity,
    }
}

/// New variables for a packet of the set.
fn new_packet_in<'a, L: SmtLearner<'a>>(learner: &mut L, sp: SP, store: &SPPstore) -> (ap: Vec<
    AbstractBit,
>)
    requires
        old(learner).wf(),
        store.wf(),
        store.n() == old(learner).n(),
        store.sp.has(sp),
    ensures
        keeps_slots(*final(learner), *old(learner)),
        packet_ok(ap@, old(learner).n(), final(learner).vars()),
        forall|g: Guess, e: Bits| #[trigger]
            final(learner).allows(g, e) ==> old(learner).allows(g, e) && store.sp.mem(
                sp,
                bits_at(ap@, e),
            ),
        forall|g: Guess, e: Bits, p: Pkt|
            old(learner).allows(g, e) && p.len() == store.n() && store.sp.mem(sp, p)
                ==> #[trigger] packet_for(*final(learner), *old(learner), ap@, g, e, p),
{
    let ghost o = *learner;
    let ghost n = o.n();
    let ghost v0 = o.vars();
    let nv = store.num_vars();
    let mut vars: Vec<Existential> = Vec::new();
    let mut ap: Vec<AbstractBit> = Vec::new();
    let mut i: u32 = 0;
    proof {
        store.lemma_sets_n();
    }
    while i < nv
        invariant
            n == nv,
            o.n() == n,
            v0 == o.vars(),
            keeps_slots(*learner, o),
            i <= nv,
            learner.vars() == v0 + i,
            vars@.len() == i,
            ap@.len() == i,
            forall|j: int|
                0 <= j < i ==> (#[trigger] vars@[j]).0 == v0 + j && ap@[j] == AbstractBit::Exist(
                    vars@[j],
                ),
            forall|g: Guess, e: Bits| #[trigger] learner.allows(g, e) == o.allows(g, e),
        decreases nv - i,
    {
        let v = learner.fresh_existential();
        vars.push(v);
        ap.push(AbstractBit::Exist(v));
        i = i + 1;
    }
    let ghost l1 = *learner;
    proof {
        assert forall|j: int| 0 <= j < vars@.len() implies (#[trigger] vars@[j]).0
            < learner.vars() by {
            assert(vars@[j].0 == v0 + j);
        }
        assert forall|e: Bits| #[trigger] bits_at(ap@, e) == vars_at(vars@, e) by {
            assert forall|j: int| 0 <= j < ap@.len() implies bits_at(ap@, e)[j] == vars_at(
                vars@,
                e,
            )[j] by {
                assert(vars@[j].0 == v0 + j);
            }
            assert(bits_at(ap@, e) =~= vars_at(vars@, e));
        }
        assert forall|j: int| 0 <= j < ap@.len() implies (#[trigger] ap@[j] matches AbstractBit::Exist(
            v,
        ) ==> v.0 < learner.vars()) by {
            assert(vars@[j].0 == v0 + j);
        }
    }
    learner.add_sp_membership(sp, &vars, &store.sp);
    proof {
        let l2 = *learner;
        assert forall|g: Guess, e: Bits| #[trigger] l2.allows(g, e) implies o.allows(g, e)
            && store.sp.mem(sp, bits_at(ap@, e)) by {
            assert(l1.allows(g, e));
            assert(bits_at(ap@, e) == vars_at(vars@, e));
        }
        assert forall|g: Guess, e: Bits, p: Pkt|
            o.allows(g, e) && p.len() == store.n() && store.sp.mem(sp, p)
            implies #[trigger] packet_for(l2, o, ap@, g, e, p) by {
            let f = |i: usize|
                if i < v0 {
                    e(i)
                } else {
                    p[i - v0]
                };
            assert(same_bits(v0, e, f));
            assert(crate::holes::smt::same_guess(n, g, g));
            o.lemma_allows(g, g, e, f);
            assert(l1.allows(g, f));
            assert(vars_at(vars@, f) =~= p) by {
                assert forall|j: int| 0 <= j < p.len() implies vars_at(vars@, f)[j] == p[j] by {
                    assert(vars@[j].0 == v0 + j);
                }
            }
            assert(bits_at(ap@, f) == p);
            assert(l2.allows(g, f));
        }
    }
    ap
}

/// Values for the new variables that make up the packet.
pub open spec fn packet_for<'a, L: SmtLearner<'a>>(
    l: L,
    o: L,
    ap: Seq<AbstractBit>,
    g: Guess,
    e: Bits,
    p: Pkt,
) -> bool {
    exists|f: Bits| same_bits(o.vars(), e, f) && #[trigger] l.allows(g, f) && bits_at(ap, f) == p
}

/// The literal that candidate slot `var` has a word from the one set to the other
/// that records the packets.
#[verifier::rlimit(40)]
fn accept_cand<'a, L: SmtLearner<'a>>(
    var: CandVar,
    learner: &mut L,
    store: &mut SPPstore,
    dfa: &'a ExplicitDFA,
    in_sp: SP,
    out_sp: SP,
    trace: &[Vec<bool>],
) -> (r: Option<Literal>)
    requires
    old(learner).wf(),
    old(store).wf(),
    old(store).n() == old(learner).n(),
    dfa.valid(*old(store)),
    var.0 < old(learner).automata().len(),
    old(learner).automata()[var.0 as int] == dfa,
    old(store).sp.has(in_sp),
    old(store).sp.has(out_sp),
    in_sp != old(store).sp.zero,
    out_sp != old(store).sp.zero,
    forall|i: int| 0 <= i < trace@.len() ==> (#[trigger] trace@[i])@.len() == old(store).n(),
ensures
    final(store).wf(),
    final(store).extends(old(store)),
    match r {
        Some(l) => gains(
            *final(learner),
            *old(learner),
            final(store).sp,
            l,
            |g: Guess|
                spans(
                    cand_lang(var, *old(store), *dfa, g),
                    old(store).sp,
                    in_sp,
                    out_sp,
                    packets(trace@),
                ),
        ) && spans(
            cand_lang(var, *old(store), *dfa, everything()),
            old(store).sp,
            in_sp,
            out_sp,
            packets(trace@),
        ),
        None => *final(learner) == *old(learner) && forall|g: Guess|
            !(#[trigger] spans(
                cand_lang(var, *old(store), *dfa, g),
                old(store).sp,
                in_sp,
                out_sp,
                packets(trace@),
            )),
    },
{
    let ghost so = *store;
    let ghost o = *learner;
    let ghost n = so.n();
    let ghost t = packets(trace@);
    let ghost id = identity(dfa.transitions@.len());
    proof {
        so.lemma_wf();
        so.lemma_sets_n();
        lemma_identity(*dfa);
        assert forall|i: int| 0 <= i < t.len() implies (#[trigger] t[i]).len() == n by {
            assert(t[i] == trace@[i]@);
        }
    }
    if trace.len() == 0 {
        proof {
            assert forall|g: Guess| !(#[trigger] spans(
                cand_lang(var, so, *dfa, g),
                so.sp,
                in_sp,
                out_sp,
                t,
            )) by {
                assert forall|p: Pkt, q: Pkt| (#[trigger] span_word(p, t, q)).len() == 2 by {}
            }
        }
        return None;
    }
    let stepped = step_all(store, dfa, trace);
    let ghost s1 = *store;
    let states = match stepped {
        Some(v) => v,
        None => {
            proof {
                assert forall|g: Guess| !(#[trigger] spans(
                    cand_lang(var, so, *dfa, g),
                    so.sp,
                    in_sp,
                    out_sp,
                    t,
                )) by {
                    assert forall|p: Pkt, q: Pkt| !cand_lang(var, so, *dfa, g)(
                        #[trigger] span_word(p, t, q),
                    ) by {
                        lemma_span_parts(p, t, q);
                    }
                }
            }
            return None;
        },
    };
    let ghost u = states@;
    let ap1 = new_packet_in(learner, in_sp, store);
    let ghost l1 = *learner;
    let ap2 = new_packet_in(learner, out_sp, store);
    let ghost l2 = *learner;
    let ghost a1 = ap1@;
    let ghost a2 = ap2@;
    proof {
        assert(packet_ok(a1, n, l2.vars())) by {
            assert forall|i: int| 0 <= i < a1.len() implies (
            #[trigger] a1[i] matches AbstractBit::Exist(v) ==> v.0 < l2.vars()) by {
                assert(a1[i] matches AbstractBit::Exist(v) ==> v.0 < l1.vars());
            }
        }
    }
    let l = cand_literal(
        var,
        ap1,
        &trace[0],
        states,
        &trace[trace.len() - 1],
        ap2,
        true,
    );
    proof {
        let claim = |g: Guess|
            spans(
                cand_lang(var, so, *dfa, g),
                so.sp,
                in_sp,
                out_sp,
                t,
            );
        let k = trace@.len() - 1;
        assert(t[0] == trace@[0]@ && t.last() == trace@[k]@);
        assert(widths(l2.automata())[var.0 as int] == dfa.transitions@.len());
        assert forall|i: int| 0 <= i < u.len() implies #[trigger] u[i] < u.len() by {
            assert(u[i] < dfa.transitions@.len());
        }
        assert(lit_ok(l, s1.sp, n, l2.slots(), widths(l2.automata()), l2.vars()));
        assert forall|g: Guess, p: Pkt, q: Pkt|
            #![trigger cand_lang(var, so, *dfa, g)(span_word(p, t, q))]
            cand_lang(var, so, *dfa, g)(span_word(p, t, q)) == (g.cands)(
                var.0,
                p,
                t[0],
                u,
                t.last(),
                q,
            ) by {
            let w = span_word(p, t, q);
            lemma_span_parts(p, t, q);
            if (g.cands)(var.0, p, t[0], u, t.last(), q) {
                assert(evolves(*dfa, so, id, w.skip(1).drop_last(), u));
            }
            if cand_lang(var, so, *dfa, g)(w) {
                let y = choose|y: Seq<usize>| #[trigger]
                    evolves(*dfa, so, id, w.skip(1).drop_last(), y) && (g.cands)(
                        var.0,
                        w[0],
                        w[1],
                        y,
                        w[w.len() - 2],
                        w.last(),
                    );
                lemma_evolves_unique(*dfa, so, id, t, y, u);
            }
        }
        assert(claim(everything())) by {
            so.sp.lemma_nonzero(in_sp);
            so.sp.lemma_nonzero(out_sp);
            let p = choose|p: Pkt| p.len() == so.sp.n() && so.sp.mem(in_sp, p);
            let q = choose|q: Pkt| q.len() == so.sp.n() && so.sp.mem(out_sp, q);
            assert(cand_lang(var, so, *dfa, everything())(span_word(p, t, q)));
        }
        assert forall|g: Guess, e: Bits| #[trigger] l2.allows(g, e) implies o.allows(g, e) by {
            assert(l1.allows(g, e));
        }
        assert forall|g: Guess, e: Bits| #[trigger] l2.allows(g, e) && lit_true(
            s1.sp,
            l,
            g,
            e,
        ) implies claim(g) by {
            assert(l1.allows(g, e));
            let p = bits_at(a1, e);
            let q = bits_at(a2, e);
            assert(s1.sp.mem(in_sp, p) && s1.sp.mem(out_sp, q));
            assert(so.sp.mem(in_sp, p) && so.sp.mem(out_sp, q));
            assert(cand_lang(var, so, *dfa, g)(span_word(p, t, q)));
        }
        assert forall|g: Guess, e: Bits| #[trigger] o.allows(g, e) implies gains_for(
            l2,
            o,
            s1.sp,
            l,
            claim,
            g,
            e,
        ) by {
                reveal(gains_for);
            so.sp.lemma_nonzero(in_sp);
            so.sp.lemma_nonzero(out_sp);
            let (p, q) = if claim(g) {
                choose|p: Pkt, q: Pkt|
                    p.len() == so.sp.n() && q.len() == so.sp.n() && so.sp.mem(in_sp, p)
                        && so.sp.mem(out_sp, q) && cand_lang(var, so, *dfa, g)(
                        #[trigger] span_word(p, t, q),
                    )
            } else {
                (
                    choose|p: Pkt| p.len() == so.sp.n() && so.sp.mem(in_sp, p),
                    choose|q: Pkt| q.len() == so.sp.n() && so.sp.mem(out_sp, q),
                )
            };
            assert(p.len() == n && q.len() == n && so.sp.mem(in_sp, p) && so.sp.mem(
                out_sp,
                q,
            ));
            assert(s1.sp.mem(in_sp, p) && s1.sp.mem(out_sp, q));
            assert(packet_for(l1, o, a1, g, e, p));
            let f = choose|f: Bits|
                same_bits(o.vars(), e, f) && #[trigger] l1.allows(g, f) && bits_at(a1, f) == p;
            assert(packet_for(l2, l1, a2, g, f, q));
            let h = choose|h: Bits|
                same_bits(l1.vars(), f, h) && #[trigger] l2.allows(g, h) && bits_at(a2, h)
                    == q;
            assert(bits_at(a1, h) =~= p) by {
                assert forall|i: int| 0 <= i < a1.len() implies bits_at(a1, h)[i]
                    == bits_at(a1, f)[i] by {
                    if let AbstractBit::Exist(v) = a1[i] {
                        assert(v.0 < l1.vars());
                        assert(f(v.0) == h(v.0));
                    }
                }
            }
            assert(same_bits(o.vars(), e, h)) by {
                assert forall|i: usize| #![trigger h(i)] i < o.vars() implies e(i) == h(i) by {
                    assert(f(i) == e(i));
                    assert(f(i) == h(i));
                }
            }
            if claim(g) {
                assert(lit_true(s1.sp, l, g, h));
            }
        }
        assert(gains(l2, o, s1.sp, l, claim));
    }
    Some(l)
}

impl<'a> Candidate<'a> for Cand<'a> {
    type Var = CandVar;

    open spec fn placed(
        v: CandVar,
        slots: nat,
        automata: Seq<&'a ExplicitDFA>,
        dfa: &'a ExplicitDFA,
    ) -> bool {
        v.0 < automata.len() && automata[v.0 as int] == dfa
    }

    open spec fn apart(v: CandVar, w: CandVar) -> bool {
        v.0 != w.0
    }

    open spec fn bounded() -> bool {
        true
    }

    open spec fn slot_lang(v: CandVar, st: SPPstore, dfa: &'a ExplicitDFA, g: Guess) -> Lang {
        cand_lang(v, st, *dfa, g)
    }

    open spec fn over(&self, dfa: &'a ExplicitDFA) -> bool {
        self.dfa == dfa
    }

    proof fn lemma_slot(v: CandVar, st: SPPstore, o: SPPstore, dfa: &'a ExplicitDFA, g: Guess) {
        let x = cand_lang(v, st, *dfa, g);
        let y = cand_lang(v, o, *dfa, g);
        let id = identity(dfa.transitions@.len());
        lemma_identity(*dfa);
        assert forall|w: Word| is_word(o.n(), w) implies x(w) == y(w) by {
            let t = w.skip(1).drop_last();
            lemma_inner_wide(o.n(), w);
            assert forall|u: Seq<usize>| #[trigger] evolves(*dfa, st, id, t, u) == evolves(
                *dfa,
                o,
                id,
                t,
                u,
            ) by {
                lemma_evolves_store(*dfa, st, o, id, t, u);
            }
            if x(w) {
                let u = choose|u: Seq<usize>| #[trigger]
                    evolves(*dfa, st, id, t, u) && (g.cands)(
                        v.0,
                        w[0],
                        w[1],
                        u,
                        w[w.len() - 2],
                        w.last(),
                    );
                assert(evolves(*dfa, o, id, t, u));
            }
            if y(w) {
                let u = choose|u: Seq<usize>| #[trigger]
                    evolves(*dfa, o, id, t, u) && (g.cands)(
                        v.0,
                        w[0],
                        w[1],
                        u,
                        w[w.len() - 2],
                        w.last(),
                    );
                assert(evolves(*dfa, st, id, t, u));
            }
        }
    }

    proof fn lemma_placed(
        v: CandVar,
        slots: nat,
        automata: Seq<&'a ExplicitDFA>,
        slots2: nat,
        automata2: Seq<&'a ExplicitDFA>,
        dfa: &'a ExplicitDFA,
    ) {
        assert(automata2[v.0 as int] == automata[v.0 as int]);
    }

    fn fresh_var<L: SmtLearner<'a>>(learner: &mut L, dfa: &'a ExplicitDFA) -> (v: CandVar) {
        learner.fresh_cand(dfa)
    }

    fn from_solution(
        solution: &Solution<'a>,
        var: CandVar,
        store: &SPPstore,
        dfa: &'a ExplicitDFA,
    ) -> (c: Cand<'a>) {
        let ghost c0 = solution.cands@[var.0 as int];
        let c = solution.cands[var.0].copy();
        proof {
            let g = guess_by(*store, *solution);
            let l = cand_lang(var, *store, *dfa, g);
            assert(automata_of(*solution)[var.0 as int] == c0.dfa);
            assert(c0.wf(*store));
            assert forall|w: Word| is_word(store.n(), w) implies enfa_lang(&c, *store)(w) == l(
                w,
            ) by {
                c.law_cand(*store, w);
                let t = w.skip(1).drop_last();
                let id = identity(c.width());
                if enfa_lang(&c, *store)(w) {
                    let u = choose|u: Seq<usize>| #[trigger]
                        evolves(*c.dfa, *store, id, t, u) && c.accepts(
                            *store,
                            w[0],
                            w[1],
                            u,
                            w[w.len() - 2],
                            w.last(),
                        );
                    assert(evolves(*dfa, *store, id, t, u));
                    assert((g.cands)(var.0, w[0], w[1], u, w[w.len() - 2], w.last()));
                }
                if l(w) {
                    let u = choose|u: Seq<usize>| #[trigger]
                        evolves(*dfa, *store, id, t, u) && (g.cands)(
                            var.0,
                            w[0],
                            w[1],
                            u,
                            w[w.len() - 2],
                            w.last(),
                        );
                    assert(c.accepts(*store, w[0], w[1], u, w[w.len() - 2], w.last()));
                    assert(evolves(*c.dfa, *store, id, t, u));
                }
            }
        }
        c
    }

    fn top(store: &mut SPPstore, dfa: &'a ExplicitDFA) -> (c: Cand<'a>) {
        let ghost o = *store;
        let none: Vec<(crate::holes::cand::Input, bool)> = Vec::new();
        let r = Cand::from_examples(store, dfa, none.as_slice());
        proof {
            if crate::holes::cand::inputs_conflict(none@) {
                assert(false);
            }
            dfa.lemma_valid(*store, o);
        }
        let c = match r {
            Ok(c) => c,
            Err(_) => {
                assert(false);
                Cand { nodes: Vec::new(), head: 0, dfa }
            },
        };
        proof {
            let st = *store;
            assert forall|v: CandVar, g: Guess, w: Word|
                #![trigger <Cand<'a> as Candidate<'a>>::slot_lang(v, st, dfa, g)(w)]
                is_word(o.n(), w) && <Cand<'a> as Candidate<'a>>::slot_lang(v, st, dfa, g)(w)
                implies enfa_lang(&c, st)(w) by {
                let id = identity(dfa.transitions@.len());
                let t = w.skip(1).drop_last();
                let u = choose|u: Seq<usize>| #[trigger]
                    evolves(*dfa, st, id, t, u) && (g.cands)(
                        v.0,
                        w[0],
                        w[1],
                        u,
                        w[w.len() - 2],
                        w.last(),
                    );
                lemma_identity(*dfa);
                lemma_inner_wide(o.n(), w);
                lemma_evolves_tuple(*dfa, st, id, t, u);
                assert(w[w.len() - 1].len() == o.n());
                assert(readable(
                    st,
                    c.width(),
                    st.n(),
                    c.width(),
                    w[0],
                    w[1],
                    u,
                    w[w.len() - 2],
                    w.last(),
                ));
                assert(c.accepts(st, w[0], w[1], u, w[w.len() - 2], w.last()));
                c.law_cand(st, w);
                assert(evolves(*c.dfa, st, identity(c.width()), t, u));
            }
        }
        c
    }

    fn again(&self) -> (c: Cand<'a>) {
        let c = self.copy();
        proof {
            assert forall|st: SPPstore, w: Word|
                self.valid(st) && st.wf() && is_word(st.n(), w) implies #[trigger] enfa_lang(
                &c,
                st,
            )(w) == enfa_lang(self, st)(w) by {
                c.law_cand(st, w);
                self.law_cand(st, w);
                let t = w.skip(1).drop_last();
                let id = identity(c.width());
                if enfa_lang(self, st)(w) {
                    let u = choose|u: Seq<usize>| #[trigger]
                        evolves(*self.dfa, st, id, t, u) && self.accepts(
                            st,
                            w[0],
                            w[1],
                            u,
                            w[w.len() - 2],
                            w.last(),
                        );
                    assert(c.accepts(st, w[0], w[1], u, w[w.len() - 2], w.last()));
                    assert(evolves(*c.dfa, st, id, t, u));
                }
                if enfa_lang(&c, st)(w) {
                    let u = choose|u: Seq<usize>| #[trigger]
                        evolves(*c.dfa, st, id, t, u) && c.accepts(
                            st,
                            w[0],
                            w[1],
                            u,
                            w[w.len() - 2],
                            w.last(),
                        );
                    assert(self.accepts(st, w[0], w[1], u, w[w.len() - 2], w.last()));
                    assert(evolves(*self.dfa, st, id, t, u));
                }
            }
        }
        c
    }

    fn make_reference_dfa(store: &mut SPPstore, constraints: &Vec<Constraint>) -> (dfa: ExplicitDFA) {
        let ghost o = *store;
        let ghost mut from: Seq<int> = Seq::empty();
        let mut bounds: Vec<WithSinkState<&ExplicitDFA>> = Vec::new();
        let mut i: usize = 0;
        while i < constraints.len()
            invariant
                *store == o,
                i <= constraints@.len(),
                forall|j: int| 0 <= j < constraints@.len() ==> (#[trigger] constraints@[j]).ok(o),
                forall|j: int| 0 <= j < bounds@.len() ==> (#[trigger] bounds@[j]).valid(o),
                from.len() == bounds@.len(),
                with_sinks(bounds@, uppers(constraints@, i as int)),
                forall|j: int|
                    0 <= j < from.len() ==> 0 <= #[trigger] from[j] < i
                        && constraints@[from[j]].is_upper() && *bounds@[j].0
                        == constraints@[from[j]].the_dfa(),
                forall|j: int|
                    0 <= j < i && (#[trigger] constraints@[j]).is_upper() ==> from.contains(j),
            decreases constraints.len() - i,
        {
            assert(constraints@[i as int].ok(o));
            if constraints[i].upper() {
                bounds.push(WithSinkState(constraints[i].dfa()));
                proof {
                    let f0 = from;
                    from = from.push(i as int);
                    assert(from[f0.len() as int] == i);
                    assert forall|j: int|
                        0 <= j < i + 1 && (#[trigger] constraints@[j]).is_upper()
                        implies from.contains(j) by {
                        if j < i {
                            let k = choose|k: int| 0 <= k < f0.len() && f0[k] == j;
                            assert(from[k] == j);
                        }
                    }
                }
            }
            i = i + 1;
        }
        proof {
            assert forall|j: int| 0 <= j < bounds@.len() implies #[trigger] total(
                &bounds@[j],
                o,
            ) by {
                law_sink_total(&bounds@[j], o);
            }
        }
        let bounds = bounds.as_slice();
        let dfa = ExplicitDFA::product(store, bounds);
        proof {
            let cs = constraints@;
            let up = upper_lang(cs, o);
            let ds = uppers(cs, cs.len() as int);
            let all = NAryProduct { inner: bounds };
            let f = choose|f: Seq<Vector>| #[trigger] numbers(dfa, *store, &all, o, f);
            lemma_grounds(dfa, *store, &all, ds, o, f);
            assert forall|w: Word| is_word(o.n(), w) implies #[trigger] enfa_lang(&dfa, *store)(w)
                == up(w) by {
                if enfa_lang(&dfa, *store)(w) {
                    assert forall|j: int| 0 <= j < cs.len() && (#[trigger] cs[j]).is_upper()
                        implies enfa_lang(&cs[j].the_dfa(), o)(w) by {
                        let k = choose|k: int| 0 <= k < from.len() && from[k] == j;
                        assert(0 <= from[k] < i);
                        law_with_sink_state(&bounds@[k], o, w);
                        lemma_lang_ref(bounds@[k].0, o, w);
                        assert(enfa_lang(&bounds@[k], o)(w));
                    }
                }
                if up(w) {
                    assert forall|k: int| 0 <= k < bounds@.len() implies #[trigger] enfa_lang(
                        &bounds@[k],
                        o,
                    )(w) by {
                        let j = from[k];
                        assert(0 <= from[k] < i);
                        assert(cs[j].is_upper());
                        law_with_sink_state(&bounds@[k], o, w);
                        lemma_lang_ref(bounds@[k].0, o, w);
                    }
                }
            }
        }
        dfa
    }

    fn reject_literal(
        &self,
        store: &SPPstore,
        dfa: &'a ExplicitDFA,
        var: CandVar,
        pkt_in: &Vec<bool>,
        inner: &Vec<(CandKey, Vec<bool>)>,
        pkt_out: &Vec<bool>,
    ) -> (l: Literal) {
        let ghost rest = path_of(inner@);
        let ghost path = seq![(self.init(), pkt_in@)] + rest;
        let ghost n = store.n();
        let ghost t = packets_of(rest);
        let ghost id = identity(dfa.transitions@.len());
        proof {
            if inner@.len() == 0 {
                assert(path =~= seq![(CandState::Start, pkt_in@)]);
                assert(path.last().0 == CandState::Start);
                assert(false);
            }
            lemma_cand_path(self, *store, pkt_in@, rest);
            assert forall|i: int| 0 <= i < t.len() implies (#[trigger] t[i]).len() == n by {
                assert(path[i + 1] == rest[i]);
                assert(path[i + 1].1.len() == n);
            }
            lemma_identity(*dfa);
            assert(path[0].1.len() == n);
        }
        let k = inner.len() - 1;
        let ghost last = inner@[k as int].0;
        proof {
            assert(rest.last() == (last.model(), inner@[k as int].1@));
            lemma_evolves_tuple(*dfa, *store, id, t, rest.last().0->Middle_1);
        }
        let states = match &inner[k].0 {
            CandKey::Middle(_, v) => crate::aut::copy_states(v),
            CandKey::Start => {
                assert(last.model() == CandState::Start);
                assert(false);
                Vec::new()
            },
        };
        let ghost u = states@;
        proof {
            assert(last.model() == CandState::Middle(last->Middle_0, u));
        }
        let l = cand_literal(
            var,
            concrete(pkt_in),
            &inner[0].1,
            states,
            &inner[k].1,
            concrete(pkt_out),
            false,
        );
        proof {
            let w = span_word(pkt_in@, t, pkt_out@);
            lemma_span_parts(pkt_in@, t, pkt_out@);
            assert(t[0] == inner@[0].1@) by {
                assert(rest[0] == (inner@[0].0.model(), inner@[0].1@));
            }
            assert(t.last() == inner@[k as int].1@);
            assert forall|st: SPstore, g: Guess, e: Bits| #[trigger] lit_true(st, l, g, e)
                == !cand_lang(var, *store, *dfa, g)(w) by {
                if (g.cands)(var.0, pkt_in@, t[0], u, t.last(), pkt_out@) {
                    assert(evolves(*dfa, *store, id, w.skip(1).drop_last(), u));
                    assert(cand_lang(var, *store, *dfa, g)(w));
                }
                if cand_lang(var, *store, *dfa, g)(w) {
                    let y = choose|y: Seq<usize>| #[trigger]
                        evolves(*dfa, *store, id, w.skip(1).drop_last(), y) && (g.cands)(
                            var.0,
                            w[0],
                            w[1],
                            y,
                            w[w.len() - 2],
                            w.last(),
                        );
                    lemma_evolves_unique(*dfa, *store, id, t, y, u);
                }
            }
            assert forall|st: SPstore, slots: nat, automata: Seq<&'a ExplicitDFA>, vars: nat|
                <Cand<'a> as Candidate<'a>>::placed(var, slots, automata, dfa)
                implies #[trigger] lit_ok(l, st, n, slots, widths(automata), vars) by {
                assert(widths(automata)[var.0 as int] == dfa.transitions@.len());
                assert forall|i: int| 0 <= i < u.len() implies #[trigger] u[i] < u.len() by {
                    assert(u[i] < dfa.transitions@.len());
                }
            }
        }
        l
    }

    fn accept_literal<L: SmtLearner<'a>>(
        var: CandVar,
        learner: &mut L,
        store: &mut SPPstore,
        dfa: &'a ExplicitDFA,
        in_sp: SP,
        out_sp: SP,
        trace: &[Vec<bool>],
    ) -> (r: Option<Literal>) {
        let ghost o = *learner;
        let ghost so = *store;
        let r = accept_cand(var, learner, store, dfa, in_sp, out_sp, trace);
        proof {
            if r is Some {
                lemma_gains(
                    *learner,
                    o,
                    store.sp,
                    r->Some_0,
                    |g: Guess|
                        spans(cand_lang(var, so, *dfa, g), so.sp, in_sp, out_sp, packets(trace@)),
                    |g: Guess|
                        spans(
                            <Cand<'a> as Candidate<'a>>::slot_lang(var, so, dfa, g),
                            so.sp,
                            in_sp,
                            out_sp,
                            packets(trace@),
                        ),
                );
            }
        }
        r
    }
}


// ---- both kinds together ------------------------------------------------------------------------

/// A slot for a union: one for each side.
#[derive(Clone, Copy, Debug, PartialEq, Eq, Hash)]
pub struct UnionVar {
    pub spp: SppVar,
    pub cand: CandVar,
}

/// A path of the union through more than its start runs on the right: the left side
/// has no transitions.
proof fn lemma_right_path<'a>(
    c: &Union<SPP, Cand<'a>>,
    st: SPPstore,
    path: Seq<(UnionState<(), CandState>, Pkt)>,
    i: int,
)
    requires
        is_path(c, st, path),
        path[0].0 == c.init(),
        1 <= i < path.len(),
    ensures
        path[i].0 is Right,
    decreases i,
{
    if i > 1 {
        lemma_right_path(c, st, path, i - 1);
    }
    assert(moves(c, st, path, i - 1));
}

/// The entry of a path of the union is that of a path of the right side.
spec fn on_right(
    path: Seq<(UnionState<(), CandState>, Pkt)>,
    right: Seq<(CandState, Pkt)>,
    i: int,
) -> bool {
    path[i].0 == UnionState::<(), CandState>::Right(right[i].0) && path[i].1 == right[i].1
}

/// Moves of the union on the right are moves of the right side.
proof fn lemma_right_moves<'a>(
    c: &Union<SPP, Cand<'a>>,
    st: SPPstore,
    path: Seq<(UnionState<(), CandState>, Pkt)>,
    right: Seq<(CandState, Pkt)>,
)
    requires
        is_path(c, st, path),
        path[0].0 == c.init(),
        right.len() == path.len(),
        right[0] == (c.right.init(), path[0].1),
        forall|i: int|
            1 <= i < path.len() ==> path[i].0 == UnionState::<(), CandState>::Right(
                (#[trigger] right[i]).0,
            ) && right[i].1 == path[i].1,
    ensures
        is_path(&c.right, st, right),
{
    assert forall|i: int| 0 <= i < right.len() implies (#[trigger] right[i]).1.len() == st.n() by {
        assert(path[i].1.len() == st.n());
    }
    assert forall|i: int| 0 <= i < right.len() - 1 implies #[trigger] moves(
        &c.right,
        st,
        right,
        i,
    ) by {
        assert(moves(c, st, path, i));
        assert(right[i + 1].1 == path[i + 1].1);
        if i > 0 {
            assert(right[i].1 == path[i].1);
        }
    }
}

impl<'a> Candidate<'a> for Union<SPP, Cand<'a>> {
    type Var = UnionVar;

    open spec fn placed(
        v: UnionVar,
        slots: nat,
        automata: Seq<&'a ExplicitDFA>,
        dfa: &'a ExplicitDFA,
    ) -> bool {
        <SPP as Candidate<'a>>::placed(v.spp, slots, automata, dfa) && <Cand<'a> as Candidate<
            'a,
        >>::placed(v.cand, slots, automata, dfa)
    }

    open spec fn apart(v: UnionVar, w: UnionVar) -> bool {
        v.spp.0 != w.spp.0 && v.cand.0 != w.cand.0
    }

    open spec fn bounded() -> bool {
        true
    }

    open spec fn slot_lang(
        v: UnionVar,
        st: SPPstore,
        dfa: &'a ExplicitDFA,
        g: Guess,
    ) -> Lang {
        |w: Word|
            <SPP as Candidate<'a>>::slot_lang(v.spp, st, dfa, g)(w) || <Cand<'a> as Candidate<
                'a,
            >>::slot_lang(v.cand, st, dfa, g)(w)
    }

    open spec fn over(&self, dfa: &'a ExplicitDFA) -> bool {
        self.right.over(dfa)
    }

    proof fn lemma_slot(
        v: UnionVar,
        st: SPPstore,
        o: SPPstore,
        dfa: &'a ExplicitDFA,
        g: Guess,
    ) {
        <Cand<'a> as Candidate<'a>>::lemma_slot(v.cand, st, o, dfa, g);
    }

    proof fn lemma_placed(
        v: UnionVar,
        slots: nat,
        automata: Seq<&'a ExplicitDFA>,
        slots2: nat,
        automata2: Seq<&'a ExplicitDFA>,
        dfa: &'a ExplicitDFA,
    ) {
        <Cand<'a> as Candidate<'a>>::lemma_placed(v.cand, slots, automata, slots2, automata2, dfa);
    }

    fn fresh_var<L: SmtLearner<'a>>(learner: &mut L, dfa: &'a ExplicitDFA) -> (v: UnionVar) {
        let ghost o = *learner;
        let a = <SPP as Candidate<'a>>::fresh_var(learner, dfa);
        let ghost l1 = *learner;
        let b = learner.fresh_cand(dfa);
        proof {
            assert forall|w: UnionVar| #[trigger]
                <Self as Candidate<'a>>::placed(w, o.slots(), o.automata(), dfa)
                implies <Self as Candidate<'a>>::apart(w, UnionVar { spp: a, cand: b }) by {
                assert(<SPP as Candidate<'a>>::placed(w.spp, o.slots(), o.automata(), dfa));
                assert(<SPP as Candidate<'a>>::apart(w.spp, a));
                <Cand<'a> as Candidate<'a>>::lemma_placed(
                    w.cand,
                    o.slots(),
                    o.automata(),
                    l1.slots(),
                    l1.automata(),
                    dfa,
                );
                assert(<Cand<'a> as Candidate<'a>>::apart(w.cand, b));
            }
            let l2 = *learner;
            assert forall|i: int| 0 <= i < o.automata().len() implies #[trigger] l2.automata()[i]
                == o.automata()[i] by {
                assert(l1.automata()[i] == o.automata()[i]);
            }
            assert forall|g: Guess, e: Bits| #[trigger] l2.allows(g, e) == o.allows(g, e) by {
                assert(l1.allows(g, e) == o.allows(g, e));
            }
        }
        UnionVar { spp: a, cand: b }
    }

    fn from_solution(
        solution: &Solution<'a>,
        var: UnionVar,
        store: &SPPstore,
        dfa: &'a ExplicitDFA,
    ) -> (c: Self) {
        let a = <SPP as Candidate<'a>>::from_solution(solution, var.spp, store, dfa);
        let b = <Cand<'a> as Candidate<'a>>::from_solution(solution, var.cand, store, dfa);
        let c = union(a, b);
        proof {
            assert forall|w: Word| is_word(store.n(), w) implies enfa_lang(&c, *store)(w)
                == <Self as Candidate<'a>>::slot_lang(
                var,
                *store,
                dfa,
                guess_by(*store, *solution),
            )(w) by {
                law_union(&c, *store, w);
            }
        }
        c
    }

    fn top(store: &mut SPPstore, dfa: &'a ExplicitDFA) -> (c: Self) {
        let ghost o = *store;
        let a = <SPP as Candidate<'a>>::top(store, dfa);
        let ghost s1 = *store;
        proof {
            dfa.lemma_valid(s1, o);
        }
        let b = <Cand<'a> as Candidate<'a>>::top(store, dfa);
        let ghost s2 = *store;
        let c = union(a, b);
        proof {
            a.lemma_valid(s2, s1);
            assert forall|v: UnionVar, g: Guess, w: Word|
                #![trigger <Self as Candidate<'a>>::slot_lang(v, s2, dfa, g)(w)]
                is_word(o.n(), w) && <Self as Candidate<'a>>::slot_lang(v, s2, dfa, g)(w)
                implies enfa_lang(&c, s2)(w) by {
                law_union(&c, s2, w);
                if <Cand<'a> as Candidate<'a>>::slot_lang(v.cand, s2, dfa, g)(w) {
                    assert(enfa_lang(&b, s2)(w));
                } else {
                    assert(<SPP as Candidate<'a>>::slot_lang(v.spp, s1, dfa, g)(w));
                    assert(enfa_lang(&a, s1)(w));
                    law_spp_lang(a, s1, w);
                    law_spp_lang(a, s2, w);
                }
            }
        }
        c
    }

    fn again(&self) -> (c: Self) {
        let c = union(
            <SPP as Candidate<'a>>::again(&self.left),
            <Cand<'a> as Candidate<'a>>::again(&self.right),
        );
        proof {
            assert forall|st: SPPstore, w: Word|
                self.valid(st) && st.wf() && is_word(st.n(), w) implies #[trigger] enfa_lang(
                &c,
                st,
            )(w) == enfa_lang(self, st)(w) by {
                law_union(&c, st, w);
                law_union(self, st, w);
                assert(enfa_lang(&c.left, st)(w) == enfa_lang(&self.left, st)(w));
                assert(enfa_lang(&c.right, st)(w) == enfa_lang(&self.right, st)(w));
            }
        }
        c
    }

    fn make_reference_dfa(store: &mut SPPstore, constraints: &Vec<Constraint>) -> (dfa: ExplicitDFA) {
        <Cand<'a> as Candidate<'a>>::make_reference_dfa(store, constraints)
    }

    fn reject_literal(
        &self,
        store: &SPPstore,
        dfa: &'a ExplicitDFA,
        var: UnionVar,
        pkt_in: &Vec<bool>,
        inner: &Vec<(UnionState<(), CandKey>, Vec<bool>)>,
        pkt_out: &Vec<bool>,
    ) -> (l: Literal) {
        let ghost rest = path_of(inner@);
        let ghost path = seq![(self.init(), pkt_in@)] + rest;
        let ghost w = span_word(pkt_in@, packets_of(rest), pkt_out@);
        if inner.len() == 0 {
            let none: Vec<((), Vec<bool>)> = Vec::new();
            proof {
                let p1 = seq![(self.left.init(), pkt_in@)] + path_of(none@);
                assert(path =~= seq![(self.init(), pkt_in@)]);
                assert(p1 =~= seq![(self.left.init(), pkt_in@)]);
                assert(path[0].1.len() == store.n());
                assert(is_path(&self.left, *store, p1));
                assert(packets_of(path_of(none@)) =~= packets_of(rest));
                assert(w.len() == 2);
            }
            return <SPP as Candidate<'a>>::reject_literal(
                &self.left,
                store,
                dfa,
                var.spp,
                pkt_in,
                &none,
                pkt_out,
            );
        }
        let mut right: Vec<(CandKey, Vec<bool>)> = Vec::new();
        let mut i: usize = 0;
        while i < inner.len()
            invariant
                i <= inner@.len(),
                rest == path_of(inner@),
                path == seq![(self.init(), pkt_in@)] + rest,
                is_path(self, *store, path),
                right@.len() == i,
                forall|j: int| 0 <= j < i ==> #[trigger] on_right(rest, path_of(right@), j),
            decreases inner.len() - i,
        {
            proof {
                lemma_right_path(self, *store, path, i + 1);
                assert(path[i + 1] == rest[i as int]);
                assert(rest[i as int].0 == inner@[i as int].0.model());
            }
            let ghost before = right@;
            match &inner[i].0 {
                UnionState::Right(q) => {
                    right.push((q.dup(), copy_bits(&inner[i].1)));
                },
                _ => {
                    assert(false);
                },
            }
            proof {
                assert(path_of(right@).len() == i + 1);
                assert forall|j: int| 0 <= j < i + 1 implies #[trigger] on_right(
                    rest,
                    path_of(right@),
                    j,
                ) by {
                    if j < i {
                        assert(on_right(rest, path_of(before), j));
                        assert(path_of(right@)[j] == path_of(before)[j]);
                    }
                }
            }
            i = i + 1;
        }
        proof {
            let rr = path_of(right@);
            let rp = seq![(self.right.init(), pkt_in@)] + rr;
            assert forall|j: int| 1 <= j < path.len() implies path[j].0 == UnionState::<
                (),
                CandState,
            >::Right((#[trigger] rp[j]).0) && rp[j].1 == path[j].1 by {
                assert(rp[j] == rr[j - 1]);
                assert(path[j] == rest[j - 1]);
                assert(on_right(rest, rr, j - 1));
            }
            lemma_right_moves(self, *store, path, rp);
            assert(rp[rp.len() - 1].1 == path[path.len() - 1].1);
            assert(packets_of(rr) =~= packets_of(rest)) by {
                assert forall|j: int| 0 <= j < rest.len() implies packets_of(rr)[j] == packets_of(
                    rest,
                )[j] by {
                    assert(on_right(rest, rr, j));
                }
            }
            assert(w.len() >= 3);
        }
        <Cand<'a> as Candidate<'a>>::reject_literal(
            &self.right,
            store,
            dfa,
            var.cand,
            pkt_in,
            &right,
            pkt_out,
        )
    }

    fn accept_literal<L: SmtLearner<'a>>(
        var: UnionVar,
        learner: &mut L,
        store: &mut SPPstore,
        dfa: &'a ExplicitDFA,
        in_sp: SP,
        out_sp: SP,
        trace: &[Vec<bool>],
    ) -> (r: Option<Literal>) {
        let ghost so = *store;
        let ghost o = *learner;
        let ghost t = packets(trace@);
        let ghost claim = |g: Guess|
            spans(<Self as Candidate<'a>>::slot_lang(var, so, dfa, g), so.sp, in_sp, out_sp, t);
        if trace.len() == 0 {
            proof {
                assert forall|g: Guess| #[trigger] spans(
                    <SPP as Candidate<'a>>::slot_lang(var.spp, so, dfa, g),
                    so.sp,
                    in_sp,
                    out_sp,
                    t,
                ) == claim(g) by {
                    assert forall|p: Pkt, q: Pkt|
                        <SPP as Candidate<'a>>::slot_lang(var.spp, so, dfa, g)(
                            #[trigger] span_word(p, t, q),
                        ) == <Self as Candidate<'a>>::slot_lang(var, so, dfa, g)(
                            span_word(p, t, q),
                        ) by {
                        assert(span_word(p, t, q).len() == 2);
                    }
                    lemma_spans(
                        <SPP as Candidate<'a>>::slot_lang(var.spp, so, dfa, g),
                        <Self as Candidate<'a>>::slot_lang(var, so, dfa, g),
                        so.sp,
                        in_sp,
                        out_sp,
                        t,
                    );
                }
            }
            let r = <SPP as Candidate<'a>>::accept_literal(
                var.spp,
                learner,
                store,
                dfa,
                in_sp,
                out_sp,
                trace,
            );
            proof {
                if r is Some {
                    let c1 = choose|c1: spec_fn(Guess) -> bool| #[trigger]
                        gains(*learner, o, store.sp, r->Some_0, c1) && c1(everything()) && forall|
                            g: Guess,
                        | #[trigger]
                            c1(g) == spans(
                                <SPP as Candidate<'a>>::slot_lang(var.spp, so, dfa, g),
                                so.sp,
                                in_sp,
                                out_sp,
                                t,
                            );
                    lemma_gains(*learner, o, store.sp, r->Some_0, c1, claim);
                }
                if r is None {
                    assert forall|g: Guess| !(#[trigger] spans(
                        <Self as Candidate<'a>>::slot_lang(var, so, dfa, g),
                        so.sp,
                        in_sp,
                        out_sp,
                        packets(trace@),
                    )) by {
                        assert(!spans(<SPP as Candidate<'a>>::slot_lang(var.spp, so, dfa, g), so.sp, in_sp, out_sp, t));
                        assert(!claim(g));
                    }
                }
            }
            r
        } else {
            proof {
                assert forall|g: Guess| #[trigger] spans(
                    <Cand<'a> as Candidate<'a>>::slot_lang(var.cand, so, dfa, g),
                    so.sp,
                    in_sp,
                    out_sp,
                    t,
                ) == claim(g) by {
                    assert forall|p: Pkt, q: Pkt|
                        <Cand<'a> as Candidate<'a>>::slot_lang(var.cand, so, dfa, g)(
                            #[trigger] span_word(p, t, q),
                        ) == <Self as Candidate<'a>>::slot_lang(var, so, dfa, g)(
                            span_word(p, t, q),
                        ) by {
                        assert(span_word(p, t, q).len() >= 3);
                    }
                    lemma_spans(
                        <Cand<'a> as Candidate<'a>>::slot_lang(var.cand, so, dfa, g),
                        <Self as Candidate<'a>>::slot_lang(var, so, dfa, g),
                        so.sp,
                        in_sp,
                        out_sp,
                        t,
                    );
                }
            }
            let r = accept_cand(
                var.cand,
                learner,
                store,
                dfa,
                in_sp,
                out_sp,
                trace,
            );
            proof {
                if r is Some {
                    let c1 = |g: Guess|
                        spans(cand_lang(var.cand, so, *dfa, g), so.sp, in_sp, out_sp, t);
                    lemma_gains(*learner, o, store.sp, r->Some_0, c1, claim);
                    assert(c1(everything()) == claim(everything()));
                }
                if r is None {
                    assert forall|g: Guess| !(#[trigger] spans(
                        <Self as Candidate<'a>>::slot_lang(var, so, dfa, g),
                        so.sp,
                        in_sp,
                        out_sp,
                        packets(trace@),
                    )) by {
                        assert(!spans(cand_lang(var.cand, so, *dfa, g), so.sp, in_sp, out_sp, t));
                        assert(!claim(g));
                    }
                }
            }
            r
        }
    }
}

/// Languages that agree on the words between two sets span the same.
proof fn lemma_spans(l: Lang, m: Lang, st: SPstore, a: SP, b: SP, t: Seq<Pkt>)
    requires
        forall|p: Pkt, q: Pkt| l(#[trigger] span_word(p, t, q)) == m(span_word(p, t, q)),
    ensures
        spans(l, st, a, b, t) == spans(m, st, a, b, t),
{
    if spans(l, st, a, b, t) {
        let (p, q) = choose|p: Pkt, q: Pkt|
            p.len() == st.n() && q.len() == st.n() && st.mem(a, p) && st.mem(b, q) && l(
                #[trigger] span_word(p, t, q),
            );
        assert(m(span_word(p, t, q)));
    }
    if spans(m, st, a, b, t) {
        let (p, q) = choose|p: Pkt, q: Pkt|
            p.len() == st.n() && q.len() == st.n() && st.mem(a, p) && st.mem(b, q) && m(
                #[trigger] span_word(p, t, q),
            );
        assert(l(span_word(p, t, q)));
    }
}

/// What a literal brings depends on its claim alone.
pub proof fn lemma_gains<'a, L: SmtLearner<'a>>(
    l: L,
    o: L,
    st: SPstore,
    lit: Literal,
    c: spec_fn(Guess) -> bool,
    d: spec_fn(Guess) -> bool,
)
    requires
        gains(l, o, st, lit, c),
        forall|g: Guess| #[trigger] c(g) == d(g),
    ensures
        gains(l, o, st, lit, d),
{
    assert forall|g: Guess, e: Bits| #[trigger] o.allows(g, e) implies gains_for(
        l,
        o,
        st,
        lit,
        d,
        g,
        e,
    ) by {
                reveal(gains_for);
        assert(gains_for(l, o, st, lit, c, g, e));
        let f = choose|f: Bits|
            same_bits(o.vars(), e, f) && #[trigger] l.allows(g, f) && (c(g) ==> lit_true(
                st,
                lit,
                g,
                f,
            ));
        assert(c(g) == d(g));
    }
    assert forall|g: Guess, e: Bits| #[trigger] l.allows(g, e) && lit_true(
        st,
        lit,
        g,
        e,
    ) implies d(g) by {
        assert(c(g) == d(g));
    }
}

} // verus!
