//! Constraints on expressions with holes.
use vstd::prelude::*;
use crate::flags::Flags;
use crate::holes::aut::{enfa_lang, lemma_lang_valid, total, ENFA};
use crate::holes::cand::Cand;
use crate::holes::candidate::{one_state, spp_reference_dfa, Candidate, UnionVar};
use crate::holes::cegis::{
    all_fail, all_met, exhausted, fill_of, guess_fill, infeasible, meeting, run, same_words,
    slots_for, unsettled, used_up, CegisError,
};
use crate::holes::explicit::ExplicitDFA;
use crate::holes::ground::{grounds, lemma_grounds_size, reference_states, uppers, Vector};
use crate::holes::inst::{contained, Filling};
use crate::holes::nk_with_holes::{
    drawn_from, filled, keeps, mentions, AutWithHoles, Expr, Fill, Hole, State,
};
use crate::holes::ops::Union;
use crate::holes::smt::{Guess, Z3};
use crate::holes::subset::{law_subset, SubsetDfa};
use crate::lang::{is_word, once, Lang, Word};
use crate::sp::Pkt;
use crate::spp::{SPPstore, SPP};

verus! {

/// A bound on the automaton of an expression with holes.
pub enum Constraint {
    /// Every word of the bound is a word of the automaton.
    LowerBound { aut: AutWithHoles, start: State, dfa: ExplicitDFA },
    /// Every word of the automaton is a word of the bound.
    UpperBound { aut: AutWithHoles, start: State, dfa: ExplicitDFA },
    /// The automaton and the bound have the same words.
    Equality { aut: AutWithHoles, start: State, dfa: ExplicitDFA },
}

impl Constraint {
    pub open spec fn the_aut(&self) -> AutWithHoles {
        match *self {
            Constraint::LowerBound { aut, start, dfa } => aut,
            Constraint::UpperBound { aut, start, dfa } => aut,
            Constraint::Equality { aut, start, dfa } => aut,
        }
    }

    pub open spec fn the_start(&self) -> State {
        match *self {
            Constraint::LowerBound { aut, start, dfa } => start,
            Constraint::UpperBound { aut, start, dfa } => start,
            Constraint::Equality { aut, start, dfa } => start,
        }
    }

    pub open spec fn the_dfa(&self) -> ExplicitDFA {
        match *self {
            Constraint::LowerBound { aut, start, dfa } => dfa,
            Constraint::UpperBound { aut, start, dfa } => dfa,
            Constraint::Equality { aut, start, dfa } => dfa,
        }
    }

    /// The constraint bounds the automaton from above.
    pub open spec fn is_upper(&self) -> bool {
        !(self is LowerBound)
    }

    /// The constraint bounds the automaton from below.
    pub open spec fn is_lower(&self) -> bool {
        !(self is UpperBound)
    }

    /// The automata are automata over the store.
    pub open spec fn ok(&self, st: SPPstore) -> bool {
        &&& self.the_aut().wf(&st)
        &&& self.the_aut().has(self.the_start().aexpr)
        &&& self.the_start().visible
        &&& self.the_dfa().valid(st)
    }

    /// The language of the expression, with its holes filled.
    pub open spec fn lang(&self, st: SPPstore, hs: Fill) -> Lang {
        |w: Word| self.the_aut().accepts(st, hs, self.the_start().aexpr, w)
    }

    /// The constraint holds with the holes filled.
    pub open spec fn met(&self, st: SPPstore, hs: Fill) -> bool {
        &&& self.is_upper() ==> contained(
            st.n(),
            self.lang(st, hs),
            enfa_lang(&self.the_dfa(), st),
        )
        &&& self.is_lower() ==> contained(
            st.n(),
            enfa_lang(&self.the_dfa(), st),
            self.lang(st, hs),
        )
    }

    /// A store that grows keeps the constraint.
    pub proof fn lemma_ok(&self, st: SPPstore, o: SPPstore)
        requires
            o.wf(),
            st.wf(),
            st.extends(&o),
            self.ok(o),
        ensures
            self.ok(st),
            forall|hs: Fill| #[trigger] self.met(st, hs) == self.met(o, hs),
            forall|hs: Fill, w: Word|
                is_word(o.n(), w) ==> #[trigger] self.lang(st, hs)(w) == self.lang(o, hs)(w),
            forall|w: Word|
                is_word(o.n(), w) ==> #[trigger] enfa_lang(&self.the_dfa(), st)(w) == enfa_lang(
                    &self.the_dfa(),
                    o,
                )(w),
    {
        let a = self.the_aut();
        let d = self.the_dfa();
        a.lemma_wf_ext(st, o);
        d.lemma_valid(st, o);
        d.lemma_states(o);
        assert forall|w: Word| is_word(o.n(), w) implies #[trigger] enfa_lang(&d, st)(w)
            == enfa_lang(&d, o)(w) by {
            lemma_lang_valid(&d, st, o, d.init(), w);
        }
        assert forall|hs: Fill, w: Word| is_word(o.n(), w) implies #[trigger] self.lang(st, hs)(w)
            == self.lang(o, hs)(w) by {
            assert(a.accepts(st, hs, self.the_start().aexpr, w) == a.accepts(
                o,
                hs,
                self.the_start().aexpr,
                w,
            ));
        }
        assert forall|hs: Fill| #[trigger] self.met(st, hs) == self.met(o, hs) by {
            let n = o.n();
            let x = self.lang(st, hs);
            let y = self.lang(o, hs);
            let e = enfa_lang(&d, st);
            let f = enfa_lang(&d, o);
            assert(contained(n, x, e) == contained(n, y, f)) by {
                if contained(n, x, e) {
                    assert forall|w: Word| is_word(n, w) && #[trigger] y(w) implies f(w) by {
                        assert(x(w));
                        assert(e(w));
                    }
                }
                if contained(n, y, f) {
                    assert forall|w: Word| is_word(n, w) && #[trigger] x(w) implies e(w) by {
                        assert(y(w));
                        assert(f(w));
                    }
                }
            }
            assert(contained(n, e, x) == contained(n, f, y)) by {
                if contained(n, e, x) {
                    assert forall|w: Word| is_word(n, w) && #[trigger] f(w) implies y(w) by {
                        assert(e(w));
                        assert(x(w));
                    }
                }
                if contained(n, f, y) {
                    assert forall|w: Word| is_word(n, w) && #[trigger] e(w) implies x(w) by {
                        assert(f(w));
                        assert(y(w));
                    }
                }
            }
        }
    }

    /// Fillings with the same words meet the same constraints.
    pub proof fn lemma_met_same(&self, st: SPPstore, hs: Fill, gs: Fill)
        requires
            forall|w: Word|
                is_word(st.n(), w) ==> #[trigger] self.lang(st, hs)(w) == self.lang(st, gs)(w),
        ensures
            self.met(st, hs) == self.met(st, gs),
    {
        let n = st.n();
        let x = self.lang(st, hs);
        let y = self.lang(st, gs);
        let e = enfa_lang(&self.the_dfa(), st);
        assert(contained(n, x, e) == contained(n, y, e)) by {
            if contained(n, x, e) {
                assert forall|w: Word| is_word(n, w) && #[trigger] y(w) implies e(w) by {
                    assert(x(w));
                }
            }
            if contained(n, y, e) {
                assert forall|w: Word| is_word(n, w) && #[trigger] x(w) implies e(w) by {
                    assert(y(w));
                }
            }
        }
        assert(contained(n, e, x) == contained(n, e, y)) by {
            if contained(n, e, x) {
                assert forall|w: Word| is_word(n, w) && #[trigger] e(w) implies y(w) by {
                    assert(x(w));
                }
            }
            if contained(n, e, y) {
                assert forall|w: Word| is_word(n, w) && #[trigger] e(w) implies x(w) by {
                    assert(y(w));
                }
            }
        }
    }

    /// The constraint that the words of the expression are words of the bound.
    pub fn upper_bound(store: &mut SPPstore, expr: &Expr, dfa: ExplicitDFA) -> (c: Constraint)
        requires
            old(store).wf(),
            drawn_from(*expr, old(store)),
            dfa.valid(*old(store)),
        ensures
            final(store).wf(),
            final(store).extends(old(store)),
            final(store).sp == old(store).sp,
            c is UpperBound,
            c.the_dfa() == dfa,
            c.ok(*final(store)),
            c.stands_for(*final(store), *old(store), *expr),
    {
        let (aut, start) = compile(store, expr, &dfa);
        Constraint::UpperBound { aut, start, dfa }
    }

    /// The constraint that the words of the bound are words of the expression.
    pub fn lower_bound(store: &mut SPPstore, expr: &Expr, dfa: ExplicitDFA) -> (c: Constraint)
        requires
            old(store).wf(),
            drawn_from(*expr, old(store)),
            dfa.valid(*old(store)),
        ensures
            final(store).wf(),
            final(store).extends(old(store)),
            final(store).sp == old(store).sp,
            c is LowerBound,
            c.the_dfa() == dfa,
            c.ok(*final(store)),
            c.stands_for(*final(store), *old(store), *expr),
    {
        let (aut, start) = compile(store, expr, &dfa);
        Constraint::LowerBound { aut, start, dfa }
    }

    /// The constraint that the expression and the bound have the same words.
    pub fn equality(store: &mut SPPstore, expr: &Expr, dfa: ExplicitDFA) -> (c: Constraint)
        requires
            old(store).wf(),
            drawn_from(*expr, old(store)),
            dfa.valid(*old(store)),
        ensures
            final(store).wf(),
            final(store).extends(old(store)),
            final(store).sp == old(store).sp,
            c is Equality,
            c.the_dfa() == dfa,
            c.ok(*final(store)),
            c.stands_for(*final(store), *old(store), *expr),
    {
        let (aut, start) = compile(store, expr, &dfa);
        Constraint::Equality { aut, start, dfa }
    }

    /// The constraint is on the expression: its automaton has the words and the holes
    /// of the expression.
    pub open spec fn stands_for(&self, st: SPPstore, o: SPPstore, e: Expr) -> bool {
        compiled(self.the_aut(), self.the_start(), st, o, e)
    }

    /// The automaton of the expression.
    pub fn aut(&self) -> (r: &AutWithHoles)
        ensures
            *r == self.the_aut(),
    {
        match self {
            Constraint::LowerBound { aut, start, dfa } => aut,
            Constraint::UpperBound { aut, start, dfa } => aut,
            Constraint::Equality { aut, start, dfa } => aut,
        }
    }

    /// Its start state.
    pub fn start(&self) -> (r: State)
        ensures
            r == self.the_start(),
    {
        match self {
            Constraint::LowerBound { aut, start, dfa } => *start,
            Constraint::UpperBound { aut, start, dfa } => *start,
            Constraint::Equality { aut, start, dfa } => *start,
        }
    }

    /// The bound.
    pub fn dfa(&self) -> (r: &ExplicitDFA)
        ensures
            *r == self.the_dfa(),
    {
        match self {
            Constraint::LowerBound { aut, start, dfa } => dfa,
            Constraint::UpperBound { aut, start, dfa } => dfa,
            Constraint::Equality { aut, start, dfa } => dfa,
        }
    }

    /// Whether the constraint bounds the automaton from above.
    pub fn upper(&self) -> (b: bool)
        ensures
            b == self.is_upper(),
    {
        match self {
            Constraint::LowerBound { aut, start, dfa } => false,
            _ => true,
        }
    }

    /// Whether the constraint bounds the automaton from below.
    pub fn lower(&self) -> (b: bool)
        ensures
            b == self.is_lower(),
    {
        match self {
            Constraint::UpperBound { aut, start, dfa } => false,
            _ => true,
        }
    }
}

/// The automaton has the words and the holes of the expression.
pub open spec fn compiled(a: AutWithHoles, q: State, st: SPPstore, o: SPPstore, e: Expr) -> bool {
    &&& forall|hs: Fill, w: Word|
        is_word(o.n(), w) ==> (#[trigger] a.accepts(st, hs, q.aexpr, w) <==> filled(e, o, hs)(w))
    &&& forall|h: Hole| #[trigger] a.uses(h) ==> mentions(e, h)
}

/// The automaton of an expression, and its start state.
fn compile(store: &mut SPPstore, expr: &Expr, dfa: &ExplicitDFA) -> (r: (AutWithHoles, State))
    requires
        old(store).wf(),
        drawn_from(*expr, old(store)),
        dfa.valid(*old(store)),
    ensures
        final(store).wf(),
        final(store).extends(old(store)),
        final(store).sp == old(store).sp,
        dfa.valid(*final(store)),
        r.0.wf(final(store)),
        r.0.has(r.1.aexpr),
        r.1.visible,
        compiled(r.0, r.1, *final(store), *old(store), *expr),
{
    let ghost o = *store;
    let mut aut = AutWithHoles::new();
    assert(aut.wf(&o));
    let start = aut.expr_to_state(store, expr);
    proof {
        dfa.lemma_valid(*store, o);
    }
    (aut, start)
}

/// Holes to fill, and the constraints that they have to meet together.
pub struct ProblemInstance {
    pub store: SPPstore,
    pub holes: Vec<Hole>,
    pub constraints: Vec<Constraint>,
}

impl ProblemInstance {
    /// The constraints are constraints over the store, on the holes.
    pub open spec fn wf(&self) -> bool {
        &&& self.store.wf()
        &&& forall|i: int|
            0 <= i < self.constraints@.len() ==> (#[trigger] self.constraints@[i]).ok(self.store)
        &&& forall|i: int, h: Hole|
            #![trigger self.constraints@[i].the_aut().uses(h)]
            0 <= i < self.constraints@.len() && self.constraints@[i].the_aut().uses(h)
                ==> self.holes@.contains(h)
    }

    /// The problem is kept when its store grows.
    proof fn lemma_kept(&self, o: ProblemInstance)
        requires
            o.wf(),
            self.holes == o.holes,
            self.constraints == o.constraints,
            self.store.wf(),
            self.store.extends(&o.store),
        ensures
            self.wf(),
    {
        assert forall|i: int| 0 <= i < self.constraints@.len() implies (
        #[trigger] self.constraints@[i]).ok(self.store) by {
            assert(o.constraints@[i].ok(o.store));
            self.constraints@[i].lemma_ok(self.store, o.store);
        }
        assert forall|i: int, h: Hole|
            #![trigger self.constraints@[i].the_aut().uses(h)]
            0 <= i < self.constraints@.len() && self.constraints@[i].the_aut().uses(h)
            implies self.holes@.contains(h) by {
            assert(o.constraints@[i].the_aut().uses(h));
        }
    }

    /// A relation for each hole with which all constraints hold.
    ///
    /// `Infeasible` means that no relations meet them, and `IterationLimit` that as many
    /// were tried as there can be rounds.
    pub fn solve(&mut self, max_iters: Option<usize>, flags: Flags) -> (r: Result<
        Filling<SPP>,
        CegisError,
    >)
        requires
            old(self).wf(),
            4 * old(self).store.n() + 1 <= u32::MAX,
        ensures
            final(self).wf(),
            final(self).store.extends(&old(self).store),
            final(self).holes == old(self).holes,
            final(self).constraints == old(self).constraints,
            match r {
                Ok(f) => {
                    &&& f.wf()
                    &&& forall|h: Hole| #[trigger] f.has(h) <==> old(self).holes@.contains(h)
                    &&& forall|h: Hole| #[trigger] f.has(h) ==> final(self).store.has(f.val(h))
                    &&& all_met(
                        old(self).constraints@,
                        final(self).store,
                        fill_of(f, final(self).store),
                    )
                },
                Err(CegisError::Infeasible) => forall|
                    rel: spec_fn(Hole) -> spec_fn(Pkt, Pkt) -> bool,
                |
                    !all_met(
                        old(self).constraints@,
                        old(self).store,
                        #[trigger] relations_on(old(self).holes@, rel),
                    ),
                Err(CegisError::IterationLimit) => {
                    &&& max_iters matches Some(n) && exists|
                    rels: Seq<spec_fn(Hole) -> spec_fn(Pkt, Pkt) -> bool>,
                |
                    rels.len() == n && #[trigger] relations_fail(
                        old(self).constraints@,
                        old(self).store,
                        old(self).holes@,
                        rels,
                    )
                    &&& exists|dfa: &ExplicitDFA| #[trigger]
                        one_state(*dfa, old(self).store) && used_up::<SPP, Z3<'_>>(
                            max_iters,
                            old(self).holes@,
                            old(self).store,
                            dfa,
                            meeting(old(self).constraints@, old(self).store),
                        )
                },
                Err(CegisError::Unknown) => max_iters != Some(0usize) && exists|dfa: &ExplicitDFA|
                    #[trigger] one_state(*dfa, old(self).store) && unsettled::<SPP, Z3<'_>>(
                        max_iters,
                        old(self).holes@,
                        old(self).store,
                        dfa,
                        meeting(old(self).constraints@, old(self).store),
                    ),
                Err(CegisError::TooLarge) => false,
            },
            max_iters == Some(0usize) ==> r is Err && r->Err_0 is IterationLimit,
    {
        let ghost o = *self;
        let reference_dfa = spp_reference_dfa(&self.store);
        let r = run::<SPP, Z3<'_>>(
            &self.constraints,
            self.holes.as_slice(),
            &reference_dfa,
            &mut self.store,
            max_iters,
            flags,
        );
        proof {
            self.lemma_kept(o);
            assert(one_state(reference_dfa, o.store));
            if r is Err && r->Err_0 is Infeasible {
                let vars = choose|vars: Filling<<SPP as Candidate<'_>>::Var>| #[trigger]
                    slots_for::<SPP>(vars, o.holes@) && infeasible::<SPP>(
                        o.constraints@,
                        vars,
                        o.store,
                        &reference_dfa,
                    );
                assert forall|rel: spec_fn(Hole) -> spec_fn(Pkt, Pkt) -> bool|
                    !all_met(o.constraints@, o.store, #[trigger] relations_on(o.holes@, rel)) by {
                    let hs = relations_on(o.holes@, rel);
                    let g = crate::holes::lemma_relations(
                        vars,
                        o.holes@,
                        rel,
                        o.store,
                        &reference_dfa,
                    );
                    let gs = guess_fill::<SPP>(vars, o.store, &reference_dfa, g);
                    assert forall|h: Hole, w: Word| is_word(o.store.n(), w) implies #[trigger] hs(
                        h,
                    )(w) == gs(h)(w) by {
                        if o.holes@.contains(h) {
                            assert(gs(h)(w) == crate::holes::relations(rel)(h)(w));
                        } else {
                            assert(!vars.has(h));
                        }
                    }
                    assert(same_words(o.store.n(), hs, gs));
                }
            }
            if r is Err && r->Err_0 is IterationLimit {
                let none = Seq::<spec_fn(Hole) -> spec_fn(Pkt, Pkt) -> bool>::empty();
                assert(relations_fail(o.constraints@, o.store, o.holes@, none));
                if max_iters->Some_0 > 0 {
                    let (vars, gs) = choose|
                        vars: Filling<<SPP as Candidate<'_>>::Var>,
                        gs: Seq<Guess>,
                    |
                        slots_for::<SPP>(vars, o.holes@) && gs.len() == max_iters->Some_0
                            && #[trigger] all_fail::<SPP>(
                            o.constraints@,
                            vars,
                            o.store,
                            &reference_dfa,
                            gs,
                        );
                    let rels = gs.map_values(|g: Guess| crate::holes::guessed(vars, g));
                    assert forall|k: int| 0 <= k < rels.len() implies !all_met(
                        o.constraints@,
                        o.store,
                        relations_on(o.holes@, #[trigger] rels[k]),
                    ) by {
                        let hs = guess_fill::<SPP>(vars, o.store, &reference_dfa, gs[k]);
                        let ks = relations_on(o.holes@, rels[k]);
                        assert(rels[k] == crate::holes::guessed(vars, gs[k]));
                        assert forall|h: Hole, w: Word| is_word(o.store.n(), w) implies
                            #[trigger] hs(h)(w) == ks(h)(w) by {
                            assert(vars.has(h) <==> o.holes@.contains(h));
                        }
                        assert(same_words(o.store.n(), ks, hs));
                    }
                    assert(relations_fail(o.constraints@, o.store, o.holes@, rels));
                }
            }
        }
        r
    }

    /// An automaton for each hole with which all constraints hold.
    ///
    /// This looks among more than [`ProblemInstance::solve`] does: `Infeasible` means
    /// that no relations and no automata over the product of the upper bounds meet them.
    /// `IterationLimit` means that as many were tried as there can be rounds.  `TooLarge`
    /// comes if and only if the fields and the states of that product are more than the
    /// solver can number, and a round is allowed.
    pub fn solve_full(&mut self, max_iters: Option<usize>, flags: Flags) -> (r: Result<
        Filling<ExplicitDFA>,
        CegisError,
    >)
        requires
            old(self).wf(),
        ensures
            final(self).wf(),
            final(self).store.extends(&old(self).store),
            final(self).holes == old(self).holes,
            final(self).constraints == old(self).constraints,
            match r {
                Ok(f) => {
                    &&& f.wf()
                    &&& forall|h: Hole| #[trigger] f.has(h) <==> old(self).holes@.contains(h)
                    &&& forall|h: Hole| #[trigger] f.has(h) ==> f.val(h).valid(final(self).store)
                    &&& all_met(
                        old(self).constraints@,
                        final(self).store,
                        fill_of(f, final(self).store),
                    )
                },
                Err(CegisError::Infeasible) => {
                    &&& exists|st: SPPstore, vars: Filling<UnionVar>, dfa: &ExplicitDFA|
                        #![trigger slots_for::<Union<SPP, Cand<'_>>>(vars, old(self).holes@), dfa.valid(st)]
                        st.wf() && st.extends(&old(self).store) && dfa.valid(st) && total(dfa, st)
                            && is_product(
                            *dfa,
                            st,
                            old(self).constraints@,
                            old(self).store,
                        ) && slots_for::<Union<SPP, Cand<'_>>>(vars, old(self).holes@)
                            && infeasible::<Union<SPP, Cand<'_>>>(
                            old(self).constraints@,
                            vars,
                            st,
                            dfa,
                        )
                    &&& forall|rel: spec_fn(Hole) -> spec_fn(Pkt, Pkt) -> bool|
                        !all_met(
                            old(self).constraints@,
                            old(self).store,
                            #[trigger] relations_on(old(self).holes@, rel),
                        )
                },
                Err(CegisError::IterationLimit) => {
                    &&& max_iters is Some
                    &&& max_iters != Some(0usize) ==> exists|st: SPPstore, dfa: &ExplicitDFA|
                        #![trigger dfa.valid(st)]
                        st.wf() && st.extends(&old(self).store) && dfa.valid(st) && is_product(
                            *dfa,
                            st,
                            old(self).constraints@,
                            old(self).store,
                        ) && exhausted::<Union<SPP, Cand<'_>>>(
                            max_iters,
                            old(self).constraints@,
                            old(self).holes@,
                            st,
                            dfa,
                        ) && used_up::<Union<SPP, Cand<'_>>, Z3<'_>>(
                            max_iters,
                            old(self).holes@,
                            st,
                            dfa,
                            meeting(old(self).constraints@, st),
                        )
                },
                Err(CegisError::Unknown) => {
                    &&& max_iters != Some(0usize)
                    &&& exists|st: SPPstore, dfa: &ExplicitDFA|
                        #![trigger dfa.valid(st)]
                        st.wf() && st.extends(&old(self).store) && dfa.valid(st) && is_product(
                            *dfa,
                            st,
                            old(self).constraints@,
                            old(self).store,
                        ) && unsettled::<Union<SPP, Cand<'_>>, Z3<'_>>(
                            max_iters,
                            old(self).holes@,
                            st,
                            dfa,
                            meeting(old(self).constraints@, st),
                        )
                },
                Err(CegisError::TooLarge) => true,
            },
            (r is Err && r->Err_0 is TooLarge) <==> max_iters != Some(0usize) && 4
                * old(self).store.n() + reference_states(old(self).constraints@, old(self).store)
                > u32::MAX,
            max_iters == Some(0usize) ==> r is Err && r->Err_0 is IterationLimit,
    {
        match max_iters {
            Some(0) => {
                return Err(CegisError::IterationLimit);
            },
            _ => {},
        }
        let ghost o = *self;
        let reference_dfa = <Union<SPP, Cand<'_>> as Candidate<'_>>::make_reference_dfa(
            &mut self.store,
            &self.constraints,
        );
        let ghost p1 = *self;
        proof {
            p1.lemma_kept(o);
        }
        let room: usize = 4_294_967_295;
        let states: usize = reference_dfa.num_states();
        let fields: usize = self.store.num_vars() as usize;
        proof {
            let ds = uppers(o.constraints@, o.constraints@.len() as int);
            let f = choose|f: Seq<Vector>| #[trigger]
                grounds(reference_dfa, p1.store, ds, o.store, f);
            lemma_grounds_size(reference_dfa, p1.store, ds, o.store, f);
            assert(is_product(reference_dfa, p1.store, o.constraints@, o.store));
        }
        if fields > room / 4 || states > room - 4 * fields {
            return Err(CegisError::TooLarge);
        }
        let r = run::<Union<SPP, Cand<'_>>, Z3<'_>>(
            &self.constraints,
            self.holes.as_slice(),
            &reference_dfa,
            &mut self.store,
            max_iters,
            flags,
        );
        let ghost s2 = self.store;
        proof {
            self.lemma_kept(p1);
        }
        let ghost outcome = r;
        let made = to_automata::<Union<SPP, Cand<'_>>>(&mut self.store, r);
        proof {
            let s3 = self.store;
            self.lemma_kept(p1);
            if made is Ok {
                let f = outcome->Ok_0;
                let hs = fill_of(made->Ok_0, s3);
                assert(same_words(s2.n(), hs, fill_of(f, s2)));
                assert(all_met(o.constraints@, s2, hs));
                assert forall|i: int| 0 <= i < o.constraints@.len() implies (
                #[trigger] o.constraints@[i]).met(s3, hs) by {
                    assert(p1.constraints@[i].ok(p1.store));
                    o.constraints@[i].lemma_ok(s2, p1.store);
                    o.constraints@[i].lemma_ok(s3, s2);
                    assert(o.constraints@[i].met(s2, hs));
                }
                assert forall|h: Hole| #[trigger] made->Ok_0.has(h) <==> o.holes@.contains(h) by {
                    assert(f.has(h) <==> o.holes@.contains(h));
                }
            } else if made->Err_0 is IterationLimit || made->Err_0 is Unknown {
                assert(reference_dfa.valid(p1.store));
            } else if made->Err_0 is Infeasible {
                let vars = choose|vars: Filling<UnionVar>| #[trigger]
                    slots_for::<Union<SPP, Cand<'_>>>(vars, o.holes@) && infeasible::<
                        Union<SPP, Cand<'_>>,
                    >(o.constraints@, vars, p1.store, &reference_dfa);
                let st = p1.store;
                assert(reference_dfa.valid(st));
                assert forall|rel: spec_fn(Hole) -> spec_fn(Pkt, Pkt) -> bool|
                    !all_met(o.constraints@, o.store, #[trigger] relations_on(o.holes@, rel)) by {
                    let hs = relations_on(o.holes@, rel);
                    let g = crate::holes::law_full_has_relations(
                        vars,
                        o.holes@,
                        rel,
                        st,
                        &reference_dfa,
                    );
                    let gs = guess_fill::<Union<SPP, Cand<'_>>>(vars, st, &reference_dfa, g);
                    assert forall|h: Hole, w: Word| is_word(st.n(), w) implies #[trigger] hs(h)(w)
                        == gs(h)(w) by {
                        if o.holes@.contains(h) {
                            assert(gs(h)(w) == crate::holes::relations(rel)(h)(w));
                        } else {
                            assert(!vars.has(h));
                        }
                    }
                    assert(same_words(st.n(), hs, gs));
                    assert(!all_met(o.constraints@, st, hs));
                    if all_met(o.constraints@, o.store, hs) {
                        assert forall|i: int| 0 <= i < o.constraints@.len() implies (
                        #[trigger] o.constraints@[i]).met(st, hs) by {
                            assert(o.constraints@[i].met(o.store, hs));
                            assert(o.constraints@[i].ok(o.store));
                            o.constraints@[i].lemma_ok(st, o.store);
                        }
                    }
                }
            }
        }
        made
    }
}

/// The automaton is the product of the upper bounds among the constraints, each with a
/// sink.
pub open spec fn is_product(
    dfa: ExplicitDFA,
    st: SPPstore,
    cs: Seq<Constraint>,
    o: SPPstore,
) -> bool {
    exists|f: Seq<Vector>| #[trigger] grounds(dfa, st, uppers(cs, cs.len() as int), o, f)
}

/// With each of the relations some constraint does not hold.
pub open spec fn relations_fail(
    cs: Seq<Constraint>,
    st: SPPstore,
    holes: Seq<Hole>,
    rels: Seq<spec_fn(Hole) -> spec_fn(Pkt, Pkt) -> bool>,
) -> bool {
    forall|k: int|
        0 <= k < rels.len() ==> !all_met(cs, st, relations_on(holes, #[trigger] rels[k]))
}

/// A relation for each of the holes, and nothing in the others.
pub open spec fn relations_on(
    holes: Seq<Hole>,
    rel: spec_fn(Hole) -> spec_fn(Pkt, Pkt) -> bool,
) -> Fill {
    |h: Hole| if holes.contains(h) {
        once(rel(h))
    } else {
        |w: Word| false
    }
}

/// Candidates that were found as deterministic automata with the same words; why none
/// were found stays.
pub fn to_automata<'a, C: Candidate<'a>>(
    store: &mut SPPstore,
    outcome: Result<Filling<C>, CegisError>,
) -> (r: Result<Filling<ExplicitDFA>, CegisError>)
    requires
        old(store).wf(),
        outcome matches Ok(f) ==> f.wf() && forall|h: Hole| #[trigger]
            f.has(h) ==> f.val(h).valid(*old(store)),
    ensures
        final(store).wf(),
        final(store).extends(old(store)),
        match outcome {
            Ok(f) => {
                &&& r is Ok
                &&& r->Ok_0.wf()
                &&& forall|h: Hole| #[trigger] r->Ok_0.has(h) <==> f.has(h)
                &&& forall|h: Hole| #[trigger]
                    r->Ok_0.has(h) ==> r->Ok_0.val(h).valid(*final(store))
                &&& same_words(
                    old(store).n(),
                    fill_of(r->Ok_0, *final(store)),
                    fill_of(f, *old(store)),
                )
            },
            Err(e) => r == Err::<Filling<ExplicitDFA>, CegisError>(e) && *final(store) == *old(store),
        },
{
    match outcome {
        Ok(f) => Ok(determinized(store, &f)),
        Err(e) => Err(e),
    }
}

/// A deterministic automaton for each candidate.
fn determinized<'a, C: Candidate<'a>>(store: &mut SPPstore, f: &Filling<C>) -> (r: Filling<
    ExplicitDFA,
>)
    requires
        old(store).wf(),
        f.wf(),
        forall|h: Hole| #[trigger] f.has(h) ==> f.val(h).valid(*old(store)),
    ensures
        final(store).wf(),
        final(store).extends(old(store)),
        r.wf(),
        forall|h: Hole| #[trigger] r.has(h) <==> f.has(h),
        forall|h: Hole| #[trigger] r.has(h) ==> r.val(h).valid(*final(store)),
        same_words(old(store).n(), fill_of(r, *final(store)), fill_of(*f, *old(store))),
{
    let ghost o = *store;
    let mut r: Filling<ExplicitDFA> = Filling::new();
    let mut i: usize = 0;
    while i < f.entries.len()
        invariant
            o.wf(),
            store.wf(),
            store.extends(&o),
            f.wf(),
            forall|h: Hole| #[trigger] f.has(h) ==> f.val(h).valid(o),
            i <= f.entries@.len(),
            r.wf(),
            forall|j: int| 0 <= j < i ==> r.has((#[trigger] f.entries@[j]).0),
            forall|h: Hole| #[trigger] r.has(h) ==> f.has(h) && r.val(h).valid(*store),
            forall|h: Hole, w: Word|
                #![trigger enfa_lang(&r.val(h), *store)(w)]
                r.has(h) && is_word(o.n(), w) ==> enfa_lang(&r.val(h), *store)(w) == enfa_lang(
                    &f.val(h),
                    o,
                )(w),
        decreases f.entries.len() - i,
    {
        let h: Hole = f.entries[i].0;
        let ghost r0 = r;
        let ghost s1 = *store;
        let c = f.entries[i].1.again();
        let ghost c0 = c;
        proof {
            f.lemma_val(i as int);
            assert(f.has(h));
            assert(c0.valid(o));
            c0.lemma_valid(s1, o);
        }
        let sets = SubsetDfa::new(c);
        let ghost sets0 = sets;
        let d = ExplicitDFA::from_dfa(store, sets);
        r.insert(h, d);
        proof {
            let s2 = *store;
            assert forall|k: Hole| #[trigger] r.has(k) implies f.has(k) && r.val(k).valid(s2) by {
                if k != h {
                    assert(r0.has(k));
                    assert(r.val(k) == r0.val(k));
                    r0.val(k).lemma_valid(s2, s1);
                }
            }
            assert forall|k: Hole, w: Word|
                #![trigger enfa_lang(&r.val(k), s2)(w)]
                r.has(k) && is_word(o.n(), w) implies enfa_lang(&r.val(k), s2)(w) == enfa_lang(
                &f.val(k),
                o,
            )(w) by {
                if k != h {
                    assert(r0.has(k));
                    assert(r.val(k) == r0.val(k));
                    r0.val(k).lemma_states(s1);
                    lemma_lang_valid(&r0.val(k), s2, s1, r0.val(k).init(), w);
                    assert(enfa_lang(&r0.val(k), s1)(w) == enfa_lang(&f.val(k), o)(w));
                } else {
                    assert(enfa_lang(&d, s2)(w) == enfa_lang(&sets0, s1)(w));
                    law_subset(&sets0, s1, w);
                    c0.lemma_states(o);
                    lemma_lang_valid(&c0, s1, o, c0.init(), w);
                    assert(enfa_lang(&c0, o)(w) == enfa_lang(&f.val(h), o)(w));
                }
            }
        }
        i = i + 1;
    }
    proof {
        assert forall|h: Hole| #[trigger] f.has(h) implies r.has(h) by {
            let j = choose|j: int| #[trigger] f.is_at(h, j);
            assert(r.has(f.entries@[j].0));
        }
        let hs = fill_of(r, *store);
        let gs = fill_of(*f, o);
        assert forall|h: Hole, w: Word| is_word(o.n(), w) implies #[trigger] hs(h)(w) == gs(h)(
            w,
        ) by {
            if r.has(h) {
                assert(enfa_lang(&r.val(h), *store)(w) == enfa_lang(&f.val(h), o)(w));
            } else {
                assert(!f.has(h));
            }
        }
    }
    r
}

} // verus!
