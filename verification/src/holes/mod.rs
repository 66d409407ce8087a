//! Expressions with holes, and what to put in them.
//!
//! Given bounds on the words of an expression with holes, [`solve_holes`] looks for a
//! relation for each hole, and [`solve_holes_full`] for an automaton, such that the
//! expression keeps to the bounds.
pub mod aut;
pub mod cand;
pub mod candidate;
pub mod cegis;
pub mod closure;
pub mod cut;
pub mod elaborate;
pub mod escape;
pub mod explicit;
pub mod ground;
pub mod heads;
pub mod inst;
pub mod learner;
pub mod network;
pub mod nk_with_holes;
pub mod normal;
pub mod ops;
pub mod parser;
pub mod problem;
pub mod program;
pub mod reach;
pub mod search;
pub mod smt;
pub mod solver;
pub mod subset;
pub mod table;
pub mod trie;
pub mod weigh;

use vstd::prelude::*;
use crate::flags::Flags;
use crate::holes::aut::{enfa_lang, lemma_lang_valid, total, ENFA};
use crate::holes::cand::Cand;
use crate::holes::candidate::{one_state, spp_reference_dfa, upper_lang, Candidate};
use crate::holes::cegis::{
    all_fail, all_met, conducted, fill_of, guess_fill, infeasible, lemma_conducted, meeting, run,
    same_words, slots_for, unsettled, used_up, CegisError,
};
use crate::holes::explicit::ExplicitDFA;
use crate::holes::ground::{grounds, lemma_grounds_same, same_table, uppers, Vector};
use crate::holes::inst::{contained, Filling};
use crate::holes::nk_with_holes::{drawn_from, filled, lemma_filled_ext, mentions, Expr, Fill, Hole};
use crate::holes::ops::Union;
use crate::holes::problem::Constraint;
use crate::holes::smt::{Guess, SmtLearner, Transcript, Z3};
use crate::lang::{is_word, once, same, Word};
use crate::sp::Pkt;
use crate::spp::{SPPstore, SPP};

verus! {

/// The expression with its holes filled has the words of the lower bound, and only
/// words of the upper bound.
pub open spec fn in_bounds(
    e: Expr,
    st: SPPstore,
    hs: Fill,
    lower: ExplicitDFA,
    upper: ExplicitDFA,
) -> bool {
    &&& contained(st.n(), enfa_lang(&lower, st), filled(e, st, hs))
    &&& contained(st.n(), filled(e, st, hs), enfa_lang(&upper, st))
}

/// The constraints that the bounds are.
pub open spec fn bounds_hold(
    cs: Seq<Constraint>,
    st: SPPstore,
    o: SPPstore,
    e: Expr,
    lower: ExplicitDFA,
    upper: ExplicitDFA,
) -> bool {
    &&& forall|i: int| 0 <= i < cs.len() ==> (#[trigger] cs[i]).ok(st)
    &&& forall|i: int, h: Hole|
        #![trigger cs[i].the_aut().uses(h)]
        0 <= i < cs.len() && cs[i].the_aut().uses(h) ==> mentions(e, h)
    &&& forall|hs: Fill| #[trigger] all_met(cs, st, hs) <==> in_bounds(e, o, hs, lower, upper)
    &&& same(o.n(), upper_lang(cs, st), enfa_lang(&upper, o))
    &&& cs.len() == 2 && cs[0].is_upper() && !cs[1].is_upper()
    &&& same_table(cs[0].the_dfa(), upper) && cs[0].the_dfa().valid(o)
}

/// The constraints that the expression is between the bounds.
fn bounds_constraints(
    store: &mut SPPstore,
    expr: &Expr,
    lower_bound: &ExplicitDFA,
    upper_bound: &ExplicitDFA,
) -> (cs: Vec<Constraint>)
    requires
        old(store).wf(),
        drawn_from(*expr, old(store)),
        lower_bound.valid(*old(store)),
        upper_bound.valid(*old(store)),
    ensures
        final(store).wf(),
        final(store).extends(old(store)),
        bounds_hold(cs@, *final(store), *old(store), *expr, *lower_bound, *upper_bound),
{
    let ghost o = *store;
    let ghost n = o.n();
    let up = upper_bound.copy();
    let low = lower_bound.copy();
    proof {
        assert(up.valid(o) && low.valid(o));
    }
    let ghost up0 = up;
    let ghost low0 = low;
    let upper = Constraint::upper_bound(store, expr, up);
    let ghost s1 = *store;
    proof {
        lemma_filled_ext(*expr, o, s1);
        low0.lemma_valid(s1, o);
    }
    let lower = Constraint::lower_bound(store, expr, low);
    let ghost s2 = *store;
    let ghost u = upper;
    let ghost l = lower;
    let mut cs: Vec<Constraint> = Vec::new();
    cs.push(upper);
    cs.push(lower);
    proof {
        u.lemma_ok(s2, s1);
        up0.lemma_states(o);
        low0.lemma_states(o);
        assert forall|w: Word| is_word(n, w) implies #[trigger] enfa_lang(&up0, s2)(w)
            == enfa_lang(upper_bound, o)(w) by {
            lemma_lang_valid(&up0, s2, o, up0.init(), w);
            assert(enfa_lang(&up0, o)(w) == enfa_lang(upper_bound, o)(w));
        }
        assert forall|w: Word| is_word(n, w) implies #[trigger] enfa_lang(&low0, s2)(w)
            == enfa_lang(lower_bound, o)(w) by {
            lemma_lang_valid(&low0, s2, o, low0.init(), w);
            assert(enfa_lang(&low0, o)(w) == enfa_lang(lower_bound, o)(w));
        }
        assert forall|hs: Fill, w: Word| is_word(n, w) implies #[trigger] u.lang(s2, hs)(w)
            == filled(*expr, o, hs)(w) by {
            assert(u.lang(s2, hs)(w) == u.lang(s1, hs)(w));
            assert(u.the_aut().accepts(s1, hs, u.the_start().aexpr, w) <==> filled(*expr, o, hs)(
                w,
            ));
        }
        assert forall|hs: Fill, w: Word| is_word(n, w) implies #[trigger] l.lang(s2, hs)(w)
            == filled(*expr, o, hs)(w) by {
            assert(l.the_aut().accepts(s2, hs, l.the_start().aexpr, w) <==> filled(*expr, s1, hs)(
                w,
            ));
        }
        assert(cs@[0] == u && cs@[1] == l);
        let us = upper_lang(cs@, s2);
        assert forall|w: Word| is_word(n, w) implies #[trigger] us(w) == enfa_lang(upper_bound, o)(
            w,
        ) by {
            assert(enfa_lang(&up0, s2)(w) == enfa_lang(upper_bound, o)(w));
            if us(w) {
                assert(cs@[0].is_upper());
            }
        }
        assert forall|hs: Fill| #[trigger] all_met(cs@, s2, hs) <==> in_bounds(
            *expr,
            o,
            hs,
            *lower_bound,
            *upper_bound,
        ) by {
            let f = filled(*expr, o, hs);
            if all_met(cs@, s2, hs) {
                assert(cs@[0].met(s2, hs) && cs@[1].met(s2, hs));
                assert forall|w: Word| is_word(n, w) && #[trigger] f(w) implies enfa_lang(
                    upper_bound,
                    o,
                )(w) by {
                    assert(u.lang(s2, hs)(w));
                    assert(enfa_lang(&up0, s2)(w));
                }
                assert forall|w: Word|
                    is_word(n, w) && #[trigger] enfa_lang(lower_bound, o)(w) implies f(w) by {
                    assert(enfa_lang(&low0, s2)(w));
                    assert(l.lang(s2, hs)(w));
                }
            }
            if in_bounds(*expr, o, hs, *lower_bound, *upper_bound) {
                assert(u.met(s2, hs)) by {
                    assert forall|w: Word| is_word(n, w) && #[trigger] u.lang(s2, hs)(w)
                        implies enfa_lang(&up0, s2)(w) by {
                        assert(f(w));
                        assert(enfa_lang(upper_bound, o)(w));
                    }
                }
                assert(l.met(s2, hs)) by {
                    assert forall|w: Word| is_word(n, w) && #[trigger] enfa_lang(&low0, s2)(w)
                        implies l.lang(s2, hs)(w) by {
                        assert(enfa_lang(lower_bound, o)(w));
                        assert(f(w));
                    }
                }
            }
        }
        assert forall|i: int, h: Hole|
            #![trigger cs@[i].the_aut().uses(h)]
            0 <= i < cs@.len() && cs@[i].the_aut().uses(h) implies mentions(*expr, h) by {
            if i == 0 {
                assert(u.the_aut().uses(h));
            } else {
                assert(l.the_aut().uses(h));
            }
        }
    }
    cs
}

/// An automaton for the candidates to draw on.  Where they draw on the bounds, its words
/// are those of the upper bound.
pub fn bounds_reference_dfa<'a, C: Candidate<'a>>(
    store: &mut SPPstore,
    expr: &Expr,
    lower_bound: &ExplicitDFA,
    upper_bound: &ExplicitDFA,
) -> (dfa: ExplicitDFA)
    requires
        old(store).wf(),
        drawn_from(*expr, old(store)),
        lower_bound.valid(*old(store)),
        upper_bound.valid(*old(store)),
    ensures
        final(store).wf(),
        final(store).extends(old(store)),
        dfa.valid(*final(store)),
        total(&dfa, *final(store)),
        C::bounded() ==> same(
            old(store).n(),
            enfa_lang(&dfa, *final(store)),
            enfa_lang(upper_bound, *old(store)),
        ),
        C::bounded() ==> exists|f: Seq<Vector>| #[trigger]
            grounds(dfa, *final(store), seq![*upper_bound], *old(store), f),
        !C::bounded() ==> one_state(dfa, *final(store)),
{
    let constraints = bounds_constraints(store, expr, lower_bound, upper_bound);
    let ghost o = *old(store);
    let ghost s1 = *store;
    let dfa = C::make_reference_dfa(store, &constraints);
    proof {
        let us = upper_lang(constraints@, s1);
        if C::bounded() {
            let cs = constraints@;
            let ds = uppers(cs, cs.len() as int);
            let f = choose|f: Seq<Vector>| #[trigger] grounds(dfa, *store, ds, s1, f);
            assert(uppers(cs, 0) =~= Seq::empty());
            assert(uppers(cs, 1) =~= seq![cs[0].the_dfa()]);
            assert(uppers(cs, 2) =~= seq![cs[0].the_dfa()]);
            lemma_grounds_same(dfa, *store, ds, s1, seq![*upper_bound], o, f);
        }
        assert forall|w: Word| C::bounded() && is_word(o.n(), w) implies #[trigger] enfa_lang(
            &dfa,
            *store,
        )(w) == enfa_lang(upper_bound, o)(w) by {
            assert(us(w) == enfa_lang(upper_bound, o)(w));
        }
    }
    dfa
}

/// The automaton that the candidates of [`solve_holes_full`] draw on: the upper bound with
/// a sink, of which it has the states that can be reached.  It leads on from every state.
pub fn full_reference_dfa(
    store: &mut SPPstore,
    expr: &Expr,
    lower_bound: &ExplicitDFA,
    upper_bound: &ExplicitDFA,
) -> (dfa: ExplicitDFA)
    requires
        old(store).wf(),
        drawn_from(*expr, old(store)),
        lower_bound.valid(*old(store)),
        upper_bound.valid(*old(store)),
    ensures
        final(store).wf(),
        final(store).extends(old(store)),
        dfa.valid(*final(store)),
        total(&dfa, *final(store)),
        forall|w: Word|
            is_word(old(store).n(), w) ==> #[trigger] enfa_lang(&dfa, *final(store))(w)
                == enfa_lang(upper_bound, *old(store))(w),
        exists|f: Seq<Vector>| #[trigger]
            grounds(dfa, *final(store), seq![*upper_bound], *old(store), f),
{
    bounds_reference_dfa::<Union<SPP, Cand<'_>>>(store, expr, lower_bound, upper_bound)
}

/// The fillings with which the expression is between the bounds.
pub open spec fn keeping(
    e: Expr,
    st: SPPstore,
    lower: ExplicitDFA,
    upper: ExplicitDFA,
) -> spec_fn(Fill) -> bool {
    |hs: Fill| in_bounds(e, st, hs, lower, upper)
}

/// The guesses are such that with none of them the expression is between the bounds.
pub open spec fn all_stray<'a, C: Candidate<'a>>(
    e: Expr,
    vars: Filling<C::Var>,
    st: SPPstore,
    dfa: &'a ExplicitDFA,
    lower: ExplicitDFA,
    upper: ExplicitDFA,
    gs: Seq<Guess>,
) -> bool {
    forall|k: int|
        0 <= k < gs.len() ==> !in_bounds(
            e,
            st,
            guess_fill::<C>(vars, st, dfa, #[trigger] gs[k]),
            lower,
            upper,
        )
}

/// As many values of the slots as there can be rounds were tried, and none keeps to the
/// bounds.
pub open spec fn none_kept<'a, C: Candidate<'a>>(
    limit: Option<usize>,
    e: Expr,
    holes: Seq<Hole>,
    st: SPPstore,
    dfa: &'a ExplicitDFA,
    lower: ExplicitDFA,
    upper: ExplicitDFA,
) -> bool {
    limit matches Some(n) && (n > 0 ==> exists|vars: Filling<C::Var>, gs: Seq<Guess>|
        slots_for::<C>(vars, holes) && gs.len() == n && #[trigger] all_stray::<C>(
            e,
            vars,
            st,
            dfa,
            lower,
            upper,
            gs,
        ))
}

/// Candidates, one for each hole, with which the expression is between the bounds.
///
/// Those that are returned keep to the bounds.  `Infeasible` means that no values of
/// the slots do.
pub fn solve_holes_general<'a, C: Candidate<'a>>(
    expr: &Expr,
    holes: &[Hole],
    lower_bound: &ExplicitDFA,
    upper_bound: &ExplicitDFA,
    reference_dfa: &'a ExplicitDFA,
    store: &mut SPPstore,
    max_iters: Option<usize>,
    flags: Flags,
) -> (r: Result<Filling<C>, CegisError>)
    requires
        old(store).wf(),
        drawn_from(*expr, old(store)),
        lower_bound.valid(*old(store)),
        upper_bound.valid(*old(store)),
        reference_dfa.valid(*old(store)),
        4 * old(store).n() + reference_dfa.transitions@.len() <= u32::MAX,
        forall|h: Hole| #[trigger] mentions(*expr, h) ==> holes@.contains(h),
    ensures
        final(store).wf(),
        final(store).extends(old(store)),
        match r {
            Ok(f) => {
                &&& f.wf()
                &&& forall|h: Hole| #[trigger] f.has(h) <==> holes@.contains(h)
                &&& forall|h: Hole| #[trigger] f.has(h) ==> f.val(h).valid(*final(store))
                    && f.val(h).over(reference_dfa)
                &&& in_bounds(
                    *expr,
                    *old(store),
                    fill_of(f, *final(store)),
                    *lower_bound,
                    *upper_bound,
                )
            },
            Err(CegisError::Infeasible) => exists|vars: Filling<C::Var>| #[trigger]
                slots_for::<C>(vars, holes@) && forall|g: Guess|
                    !in_bounds(
                        *expr,
                        *old(store),
                        #[trigger] guess_fill::<C>(vars, *old(store), reference_dfa, g),
                        *lower_bound,
                        *upper_bound,
                    ),
            Err(CegisError::IterationLimit) => none_kept::<C>(
                max_iters,
                *expr,
                holes@,
                *old(store),
                reference_dfa,
                *lower_bound,
                *upper_bound,
            ) && used_up::<C, Z3<'a>>(
                max_iters,
                holes@,
                *old(store),
                reference_dfa,
                keeping(*expr, *old(store), *lower_bound, *upper_bound),
            ),
            Err(CegisError::Unknown) => max_iters != Some(0usize) && unsettled::<C, Z3<'a>>(
                max_iters,
                holes@,
                *old(store),
                reference_dfa,
                keeping(*expr, *old(store), *lower_bound, *upper_bound),
            ),
            Err(CegisError::TooLarge) => false,
        },
        max_iters == Some(0usize) ==> r is Err && r->Err_0 is IterationLimit,
{
    let ghost o = *store;
    let constraints = bounds_constraints(store, expr, lower_bound, upper_bound);
    let ghost s1 = *store;
    let ghost cs = constraints@;
    proof {
        reference_dfa.lemma_valid(s1, o);
    }
    let r = run::<C, Z3<'a>>(&constraints, holes, reference_dfa, store, max_iters, flags);
    proof {
        let s2 = *store;
        if r is Ok {
                let f = r->Ok_0;
                let hs = fill_of(f, s2);
                assert(all_met(cs, s1, hs)) by {
                    assert forall|i: int| 0 <= i < cs.len() implies (#[trigger] cs[i]).met(
                        s1,
                        hs,
                    ) by {
                        assert(cs[i].ok(s1));
                        cs[i].lemma_ok(s2, s1);
                        assert(cs[i].met(s2, hs));
                    }
                }
        } else if r->Err_0 is Infeasible {
                let vars = choose|vars: Filling<C::Var>| #[trigger]
                    slots_for::<C>(vars, holes@) && infeasible::<C>(cs, vars, s1, reference_dfa);
                assert forall|g: Guess|
                    !in_bounds(
                        *expr,
                        o,
                        #[trigger] guess_fill::<C>(vars, o, reference_dfa, g),
                        *lower_bound,
                        *upper_bound,
                    ) by {
                    lemma_same_bounds::<C>(
                        *expr,
                        vars,
                        s1,
                        o,
                        reference_dfa,
                        *lower_bound,
                        *upper_bound,
                        g,
                    );
                    let hs = guess_fill::<C>(vars, s1, reference_dfa, g);
                    assert(same_words(o.n(), hs, hs));
                    assert(!all_met(cs, s1, hs));
                }
        } else if r->Err_0 is Unknown {
                lemma_unsettled::<C, Z3<'a>>(
                    max_iters,
                    holes@,
                    s1,
                    o,
                    reference_dfa,
                    cs,
                    *expr,
                    *lower_bound,
                    *upper_bound,
                );
        } else if r->Err_0 is IterationLimit && max_iters->Some_0 > 0 {
                lemma_used_up::<C, Z3<'a>>(
                    max_iters,
                    holes@,
                    s1,
                    o,
                    reference_dfa,
                    cs,
                    *expr,
                    *lower_bound,
                    *upper_bound,
                );
                let (vars, gs) = choose|vars: Filling<C::Var>, gs: Seq<Guess>|
                    slots_for::<C>(vars, holes@) && gs.len() == max_iters->Some_0
                        && #[trigger] all_fail::<C>(cs, vars, s1, reference_dfa, gs);
                assert forall|k: int| 0 <= k < gs.len() implies !in_bounds(
                    *expr,
                    o,
                    guess_fill::<C>(vars, o, reference_dfa, #[trigger] gs[k]),
                    *lower_bound,
                    *upper_bound,
                ) by {
                    lemma_same_bounds::<C>(
                        *expr,
                        vars,
                        s1,
                        o,
                        reference_dfa,
                        *lower_bound,
                        *upper_bound,
                        gs[k],
                    );
                    let hs = guess_fill::<C>(vars, s1, reference_dfa, gs[k]);
                    assert(same_words(s1.n(), hs, hs));
                    assert(!all_met(cs, s1, hs));
                }
                assert(all_stray::<C>(
                    *expr,
                    vars,
                    o,
                    reference_dfa,
                    *lower_bound,
                    *upper_bound,
                    gs,
                ));
        }
    }
    r
}

/// Whether a guess keeps to the bounds does not change when the store grows.
proof fn lemma_same_bounds<'a, C: Candidate<'a>>(
    e: Expr,
    vars: Filling<C::Var>,
    st: SPPstore,
    o: SPPstore,
    dfa: &'a ExplicitDFA,
    lower: ExplicitDFA,
    upper: ExplicitDFA,
    g: Guess,
)
    requires
        o.wf(),
        st.wf(),
        st.extends(&o),
        dfa.valid(o),
    ensures
        in_bounds(e, o, guess_fill::<C>(vars, st, dfa, g), lower, upper) == in_bounds(
            e,
            o,
            guess_fill::<C>(vars, o, dfa, g),
            lower,
            upper,
        ),
{
    let hs = guess_fill::<C>(vars, st, dfa, g);
    let gs = guess_fill::<C>(vars, o, dfa, g);
    assert forall|h: Hole, w: Word| is_word(o.n(), w) implies #[trigger] hs(h)(w) == gs(h)(w) by {
        if vars.has(h) {
            C::lemma_slot(vars.val(h), st, o, dfa, g);
        }
    }
    lemma_filled_mentioned(e, o, hs, gs);
    lemma_bounds_same(e, o, hs, gs, lower, upper);
}

/// The guesses that keep to the bounds meet the constraints that the bounds are.
proof fn lemma_kept_met<'a, C: Candidate<'a>>(
    vars: Filling<C::Var>,
    st: SPPstore,
    o: SPPstore,
    dfa: &'a ExplicitDFA,
    cs: Seq<Constraint>,
    e: Expr,
    lower: ExplicitDFA,
    upper: ExplicitDFA,
)
    requires
        o.wf(),
        st.wf(),
        st.extends(&o),
        dfa.valid(o),
        bounds_hold(cs, st, o, e, lower, upper),
    ensures
        forall|g: Guess|
            keeping(e, o, lower, upper)(#[trigger] guess_fill::<C>(vars, o, dfa, g)) ==> meeting(
                cs,
                st,
            )(guess_fill::<C>(vars, st, dfa, g)),
{
    assert forall|g: Guess|
        keeping(e, o, lower, upper)(#[trigger] guess_fill::<C>(vars, o, dfa, g)) implies meeting(
        cs,
        st,
    )(guess_fill::<C>(vars, st, dfa, g)) by {
        lemma_same_bounds::<C>(e, vars, st, o, dfa, lower, upper, g);
        let hs = guess_fill::<C>(vars, st, dfa, g);
        assert(all_met(cs, st, hs) <==> in_bounds(e, o, hs, lower, upper));
    }
}

proof fn lemma_unsettled<'a, C: Candidate<'a>, L: SmtLearner<'a>>(
    limit: Option<usize>,
    holes: Seq<Hole>,
    st: SPPstore,
    o: SPPstore,
    dfa: &'a ExplicitDFA,
    cs: Seq<Constraint>,
    e: Expr,
    lower: ExplicitDFA,
    upper: ExplicitDFA,
)
    requires
        o.wf(),
        st.wf(),
        st.extends(&o),
        dfa.valid(o),
        bounds_hold(cs, st, o, e, lower, upper),
        unsettled::<C, L>(limit, holes, st, dfa, meeting(cs, st)),
    ensures
        unsettled::<C, L>(limit, holes, o, dfa, keeping(e, o, lower, upper)),
{
    let wanted = meeting(cs, st);
    let (t, vars) = choose|t: Transcript<L>, vars: Filling<C::Var>| #[trigger]
        conducted::<C, L>(t, vars, st, dfa, wanted) && slots_for::<C>(vars, holes) && (
        t.asked().last().1 is Unknown || limit is None && t.asked().len() > usize::MAX);
    lemma_kept_met::<C>(vars, st, o, dfa, cs, e, lower, upper);
    lemma_conducted::<C, L>(t, vars, st, o, dfa, wanted, keeping(e, o, lower, upper));
}

proof fn lemma_used_up<'a, C: Candidate<'a>, L: SmtLearner<'a>>(
    limit: Option<usize>,
    holes: Seq<Hole>,
    st: SPPstore,
    o: SPPstore,
    dfa: &'a ExplicitDFA,
    cs: Seq<Constraint>,
    e: Expr,
    lower: ExplicitDFA,
    upper: ExplicitDFA,
)
    requires
        o.wf(),
        st.wf(),
        st.extends(&o),
        dfa.valid(o),
        bounds_hold(cs, st, o, e, lower, upper),
        used_up::<C, L>(limit, holes, st, dfa, meeting(cs, st)),
        limit matches Some(n) && n > 0,
    ensures
        used_up::<C, L>(limit, holes, o, dfa, keeping(e, o, lower, upper)),
{
    let wanted = meeting(cs, st);
    let n = limit->Some_0;
    let (t, vars) = choose|t: Transcript<L>, vars: Filling<C::Var>| #[trigger]
        conducted::<C, L>(t, vars, st, dfa, wanted) && slots_for::<C>(vars, holes)
            && t.asked().len() == n + 1 && t.asked().last().1 is Values;
    lemma_kept_met::<C>(vars, st, o, dfa, cs, e, lower, upper);
    lemma_conducted::<C, L>(t, vars, st, o, dfa, wanted, keeping(e, o, lower, upper));
}

proof fn lemma_bounds_same(
    e: Expr,
    st: SPPstore,
    hs: Fill,
    gs: Fill,
    lower: ExplicitDFA,
    upper: ExplicitDFA,
)
    requires
        same(st.n(), filled(e, st, hs), filled(e, st, gs)),
    ensures
        in_bounds(e, st, hs, lower, upper) == in_bounds(e, st, gs, lower, upper),
{
    let n = st.n();
    let x = filled(e, st, hs);
    let y = filled(e, st, gs);
    assert(contained(n, x, enfa_lang(&upper, st)) == contained(n, y, enfa_lang(&upper, st))) by {
        if contained(n, x, enfa_lang(&upper, st)) {
            assert forall|w: Word| is_word(n, w) && #[trigger] y(w) implies enfa_lang(&upper, st)(
                w,
            ) by {
                assert(x(w));
            }
        }
    }
    assert(contained(n, enfa_lang(&lower, st), x) == contained(n, enfa_lang(&lower, st), y));
}

/// A relation for each hole.
pub open spec fn relations(rel: spec_fn(Hole) -> spec_fn(Pkt, Pkt) -> bool) -> Fill {
    |h: Hole| once(rel(h))
}

/// With none of the relations the expression is between the bounds.
pub open spec fn relations_stray(
    e: Expr,
    st: SPPstore,
    lower: ExplicitDFA,
    upper: ExplicitDFA,
    rels: Seq<spec_fn(Hole) -> spec_fn(Pkt, Pkt) -> bool>,
) -> bool {
    forall|k: int|
        0 <= k < rels.len() ==> !in_bounds(e, st, relations(#[trigger] rels[k]), lower, upper)
}

/// The relations of a guess.
pub open spec fn guessed(
    vars: Filling<<SPP as Candidate<'static>>::Var>,
    g: Guess,
) -> spec_fn(Hole) -> spec_fn(Pkt, Pkt) -> bool {
    |h: Hole| |p: Pkt, q: Pkt| (g.spps)(vars.val(h).0, p, q)
}

/// Any relations are those of a guess.
pub proof fn lemma_relations<'a>(
    vars: Filling<<SPP as Candidate<'a>>::Var>,
    holes: Seq<Hole>,
    rel: spec_fn(Hole) -> spec_fn(Pkt, Pkt) -> bool,
    st: SPPstore,
    dfa: &'a ExplicitDFA,
) -> (g: Guess)
    requires
        slots_for::<SPP>(vars, holes),
    ensures
        forall|h: Hole, w: Word|
            #![trigger guess_fill::<SPP>(vars, st, dfa, g)(h)(w)]
            holes.contains(h) ==> guess_fill::<SPP>(vars, st, dfa, g)(h)(w) == relations(rel)(h)(w),
{
    let g = Guess {
        spps: |k: usize, p: Pkt, q: Pkt|
            exists|h: Hole| vars.has(h) && #[trigger] vars.val(h).0 == k && rel(h)(p, q),
        cands: |k: usize, p: Pkt, q: Pkt, v: Seq<usize>, r: Pkt, s: Pkt| false,
    };
    assert forall|h: Hole, w: Word|
        #![trigger guess_fill::<SPP>(vars, st, dfa, g)(h)(w)]
        holes.contains(h) implies guess_fill::<SPP>(vars, st, dfa, g)(h)(w) == relations(rel)(h)(
        w,
    ) by {
        assert(vars.has(h));
        if guess_fill::<SPP>(vars, st, dfa, g)(h)(w) {
            let k = choose|k: Hole|
                vars.has(k) && #[trigger] vars.val(k).0 == vars.val(h).0 && rel(k)(w[0], w[1]);
            if k != h {
                assert(<SPP as Candidate<'a>>::apart(vars.val(h), vars.val(k)) || <SPP as Candidate<
                    'a,
                >>::apart(vars.val(k), vars.val(h)));
            }
        }
        if relations(rel)(h)(w) {
            assert(vars.val(h).0 == vars.val(h).0);
        }
    }
    g
}

/// A relation for each hole with which the expression is between the bounds.
///
/// Those that are returned keep to the bounds.  `Infeasible` means that no relations
/// do.
pub fn solve_holes(
    expr: &Expr,
    holes: &[Hole],
    lower_bound: &ExplicitDFA,
    upper_bound: &ExplicitDFA,
    store: &mut SPPstore,
    max_iters: Option<usize>,
    flags: Flags,
) -> (r: Result<Filling<SPP>, CegisError>)
    requires
        old(store).wf(),
        drawn_from(*expr, old(store)),
        lower_bound.valid(*old(store)),
        upper_bound.valid(*old(store)),
        4 * old(store).n() + 1 <= u32::MAX,
        forall|h: Hole| #[trigger] mentions(*expr, h) ==> holes@.contains(h),
    ensures
        final(store).wf(),
        final(store).extends(old(store)),
        match r {
            Ok(f) => {
                &&& f.wf()
                &&& forall|h: Hole| #[trigger] f.has(h) <==> holes@.contains(h)
                &&& forall|h: Hole| #[trigger] f.has(h) ==> final(store).has(f.val(h))
                &&& in_bounds(
                    *expr,
                    *old(store),
                    relations(|h: Hole| final(store).fun(f.val(h))),
                    *lower_bound,
                    *upper_bound,
                )
            },
            Err(CegisError::Infeasible) => forall|rel: spec_fn(Hole) -> spec_fn(Pkt, Pkt) -> bool|
                !in_bounds(
                    *expr,
                    *old(store),
                    #[trigger] relations(rel),
                    *lower_bound,
                    *upper_bound,
                ),
            Err(CegisError::IterationLimit) => {
                &&& max_iters matches Some(n) && exists|
                rels: Seq<spec_fn(Hole) -> spec_fn(Pkt, Pkt) -> bool>,
            |
                rels.len() == n && #[trigger] relations_stray(
                    *expr,
                    *old(store),
                    *lower_bound,
                    *upper_bound,
                    rels,
                )
                &&& exists|dfa: &ExplicitDFA| #[trigger]
                    one_state(*dfa, *old(store)) && used_up::<SPP, Z3<'_>>(
                        max_iters,
                        holes@,
                        *old(store),
                        dfa,
                        keeping(*expr, *old(store), *lower_bound, *upper_bound),
                    )
            },
            Err(CegisError::Unknown) => max_iters != Some(0usize) && exists|dfa: &ExplicitDFA|
                #[trigger] one_state(*dfa, *old(store)) && unsettled::<SPP, Z3<'_>>(
                    max_iters,
                    holes@,
                    *old(store),
                    dfa,
                    keeping(*expr, *old(store), *lower_bound, *upper_bound),
                ),
            Err(CegisError::TooLarge) => false,
        },
        max_iters == Some(0usize) ==> r is Err && r->Err_0 is IterationLimit,
{
    let ghost o = *store;
    let reference_dfa = spp_reference_dfa(store);
    let r = solve_holes_general::<SPP>(
        expr,
        holes,
        lower_bound,
        upper_bound,
        &reference_dfa,
        store,
        max_iters,
        flags,
    );
    proof {
        let s2 = *store;
        assert(one_state(reference_dfa, o));
        if r is Ok {
                let f = r->Ok_0;
                let hs = fill_of(f, s2);
                let gs = relations(|h: Hole| s2.fun(f.val(h)));
                assert forall|h: Hole, w: Word| mentions(*expr, h) && is_word(o.n(), w) implies
                    #[trigger] hs(h)(w) == gs(h)(w) by {
                    assert(f.has(h));
                    crate::holes::aut::law_spp_lang(f.val(h), s2, w);
                }
                lemma_filled_mentioned(*expr, o, hs, gs);
                lemma_bounds_same(*expr, o, hs, gs, *lower_bound, *upper_bound);
        } else if r->Err_0 is Infeasible {
                let vars = choose|vars: Filling<<SPP as Candidate<'_>>::Var>| #[trigger]
                    slots_for::<SPP>(vars, holes@) && forall|g: Guess|
                        !in_bounds(
                            *expr,
                            o,
                            #[trigger] guess_fill::<SPP>(vars, o, &reference_dfa, g),
                            *lower_bound,
                            *upper_bound,
                        );
                assert forall|rel: spec_fn(Hole) -> spec_fn(Pkt, Pkt) -> bool|
                    !in_bounds(*expr, o, #[trigger] relations(rel), *lower_bound, *upper_bound) by {
                    let g = lemma_relations(vars, holes@, rel, o, &reference_dfa);
                    let hs = guess_fill::<SPP>(vars, o, &reference_dfa, g);
                    lemma_filled_mentioned(*expr, o, hs, relations(rel));
                    lemma_bounds_same(
                        *expr,
                        o,
                        hs,
                        relations(rel),
                        *lower_bound,
                        *upper_bound,
                    );
                }
        } else if r->Err_0 is IterationLimit {
                let none = Seq::<spec_fn(Hole) -> spec_fn(Pkt, Pkt) -> bool>::empty();
                assert(relations_stray(*expr, o, *lower_bound, *upper_bound, none));
                if max_iters->Some_0 > 0 {
                    let (vars, gs) = choose|
                        vars: Filling<<SPP as Candidate<'_>>::Var>,
                        gs: Seq<Guess>,
                    |
                        slots_for::<SPP>(vars, holes@) && gs.len() == max_iters->Some_0
                            && #[trigger] all_stray::<SPP>(
                            *expr,
                            vars,
                            o,
                            &reference_dfa,
                            *lower_bound,
                            *upper_bound,
                            gs,
                        );
                    let rels = gs.map_values(|g: Guess| guessed(vars, g));
                    assert forall|k: int| 0 <= k < rels.len() implies !in_bounds(
                        *expr,
                        o,
                        relations(#[trigger] rels[k]),
                        *lower_bound,
                        *upper_bound,
                    ) by {
                        let hs = guess_fill::<SPP>(vars, o, &reference_dfa, gs[k]);
                        assert(rels[k] == guessed(vars, gs[k]));
                        assert forall|h: Hole, w: Word|
                            mentions(*expr, h) && is_word(o.n(), w) implies #[trigger] hs(h)(w)
                            == relations(rels[k])(h)(w) by {
                            assert(vars.has(h));
                        }
                        lemma_filled_mentioned(*expr, o, hs, relations(rels[k]));
                        lemma_bounds_same(
                            *expr,
                            o,
                            hs,
                            relations(rels[k]),
                            *lower_bound,
                            *upper_bound,
                        );
                    }
                    assert(relations_stray(*expr, o, *lower_bound, *upper_bound, rels));
                }
        }
    }
    r
}

/// An expression has the same words with the same words in the holes that it has.
pub proof fn lemma_filled_mentioned(e: Expr, st: SPPstore, hs: Fill, gs: Fill)
    requires
        forall|h: Hole, w: Word|
            mentions(e, h) && is_word(st.n(), w) ==> #[trigger] hs(h)(w) == gs(h)(w),
    ensures
        same(st.n(), filled(e, st, hs), filled(e, st, gs)),
    decreases e,
{
    let n = st.n();
    match e {
        Expr::Spp(_) => {},
        Expr::Hole(h) => {
            assert forall|w: Word| is_word(n, w) implies filled(e, st, hs)(w) == filled(e, st, gs)(
                w,
            ) by {
                assert(mentions(e, h));
                assert(hs(h)(w) == gs(h)(w));
            }
        },
        Expr::Dup => {},
        Expr::Union(a, b) => {
            lemma_filled_mentioned(*a, st, hs, gs);
            lemma_filled_mentioned(*b, st, hs, gs);
        },
        Expr::Sequence(a, b) => {
            lemma_filled_mentioned(*a, st, hs, gs);
            lemma_filled_mentioned(*b, st, hs, gs);
            crate::lang::lemma_cat_same(
                n,
                filled(*a, st, hs),
                filled(*b, st, hs),
                filled(*a, st, gs),
                filled(*b, st, gs),
            );
        },
        Expr::Star(a) => {
            lemma_filled_mentioned(*a, st, hs, gs);
            crate::lang::lemma_star_same_lang(n, filled(*a, st, hs), filled(*a, st, gs));
        },
    }
}

/// A relation and an automaton over `reference_dfa` for each hole, together, with
/// which the expression is between the bounds.
///
/// Those that are returned keep to the bounds.  `Infeasible` means that no values of
/// the slots do, and so no relations either: this looks among more than
/// [`solve_holes`] does.
pub fn solve_holes_full<'a>(
    expr: &Expr,
    holes: &[Hole],
    lower_bound: &ExplicitDFA,
    upper_bound: &ExplicitDFA,
    reference_dfa: &'a ExplicitDFA,
    store: &mut SPPstore,
    max_iters: Option<usize>,
    flags: Flags,
) -> (r: Result<Filling<Union<SPP, Cand<'a>>>, CegisError>)
    requires
        old(store).wf(),
        drawn_from(*expr, old(store)),
        lower_bound.valid(*old(store)),
        upper_bound.valid(*old(store)),
        reference_dfa.valid(*old(store)),
        4 * old(store).n() + reference_dfa.transitions@.len() <= u32::MAX,
        forall|h: Hole| #[trigger] mentions(*expr, h) ==> holes@.contains(h),
    ensures
        final(store).wf(),
        final(store).extends(old(store)),
        match r {
            Ok(f) => {
                &&& f.wf()
                &&& forall|h: Hole| #[trigger] f.has(h) <==> holes@.contains(h)
                &&& forall|h: Hole| #[trigger] f.has(h) ==> f.val(h).valid(*final(store))
                    && f.val(h).over(reference_dfa)
                &&& in_bounds(
                    *expr,
                    *old(store),
                    fill_of(f, *final(store)),
                    *lower_bound,
                    *upper_bound,
                )
            },
            Err(CegisError::Infeasible) => {
                &&& exists|vars: Filling<<Union<SPP, Cand<'a>> as Candidate<'a>>::Var>| #[trigger]
                    slots_for::<Union<SPP, Cand<'a>>>(vars, holes@) && forall|g: Guess|
                        !in_bounds(
                            *expr,
                            *old(store),
                            #[trigger] guess_fill::<Union<SPP, Cand<'a>>>(
                                vars,
                                *old(store),
                                reference_dfa,
                                g,
                            ),
                            *lower_bound,
                            *upper_bound,
                        )
                &&& forall|rel: spec_fn(Hole) -> spec_fn(Pkt, Pkt) -> bool|
                    !in_bounds(
                        *expr,
                        *old(store),
                        #[trigger] relations(rel),
                        *lower_bound,
                        *upper_bound,
                    )
            },
            Err(CegisError::IterationLimit) => none_kept::<Union<SPP, Cand<'a>>>(
                max_iters,
                *expr,
                holes@,
                *old(store),
                reference_dfa,
                *lower_bound,
                *upper_bound,
            ) && used_up::<Union<SPP, Cand<'a>>, Z3<'a>>(
                max_iters,
                holes@,
                *old(store),
                reference_dfa,
                keeping(*expr, *old(store), *lower_bound, *upper_bound),
            ),
            Err(CegisError::Unknown) => max_iters != Some(0usize) && unsettled::<Union<SPP, Cand<'a>>, Z3<'a>>(
                max_iters,
                holes@,
                *old(store),
                reference_dfa,
                keeping(*expr, *old(store), *lower_bound, *upper_bound),
            ),
            Err(CegisError::TooLarge) => false,
        },
        max_iters == Some(0usize) ==> r is Err && r->Err_0 is IterationLimit,
{
    let ghost o = *store;
    let r = solve_holes_general::<Union<SPP, Cand<'a>>>(
        expr,
        holes,
        lower_bound,
        upper_bound,
        reference_dfa,
        store,
        max_iters,
        flags,
    );
    proof {
        if r is Err && r->Err_0 is Infeasible {
            let vars = choose|vars: Filling<<Union<SPP, Cand<'a>> as Candidate<'a>>::Var>| #[trigger]
                slots_for::<Union<SPP, Cand<'a>>>(vars, holes@) && forall|g: Guess|
                    !in_bounds(
                        *expr,
                        o,
                        #[trigger] guess_fill::<Union<SPP, Cand<'a>>>(vars, o, reference_dfa, g),
                        *lower_bound,
                        *upper_bound,
                    );
            assert forall|rel: spec_fn(Hole) -> spec_fn(Pkt, Pkt) -> bool|
                !in_bounds(*expr, o, #[trigger] relations(rel), *lower_bound, *upper_bound) by {
                let g = law_full_has_relations(vars, holes@, rel, o, reference_dfa);
                let hs = guess_fill::<Union<SPP, Cand<'a>>>(vars, o, reference_dfa, g);
                lemma_filled_mentioned(*expr, o, hs, relations(rel));
                lemma_bounds_same(*expr, o, hs, relations(rel), *lower_bound, *upper_bound);
            }
        }
    }
    r
}

/// Any relations are those of a guess of relations and automata together: what
/// [`solve_holes`] looks among, [`solve_holes_full`] does too.
pub proof fn law_full_has_relations<'a>(
    vars: Filling<<Union<SPP, Cand<'a>> as Candidate<'a>>::Var>,
    holes: Seq<Hole>,
    rel: spec_fn(Hole) -> spec_fn(Pkt, Pkt) -> bool,
    st: SPPstore,
    dfa: &'a ExplicitDFA,
) -> (g: Guess)
    requires
        slots_for::<Union<SPP, Cand<'a>>>(vars, holes),
    ensures
        forall|h: Hole, w: Word|
            #![trigger guess_fill::<Union<SPP, Cand<'a>>>(vars, st, dfa, g)(h)(w)]
            holes.contains(h) ==> guess_fill::<Union<SPP, Cand<'a>>>(vars, st, dfa, g)(h)(w)
                == relations(rel)(h)(w),
{
    let g = Guess {
        spps: |k: usize, p: Pkt, q: Pkt|
            exists|h: Hole| vars.has(h) && #[trigger] vars.val(h).spp.0 == k && rel(h)(p, q),
        cands: |k: usize, p: Pkt, q: Pkt, v: Seq<usize>, r: Pkt, s: Pkt| false,
    };
    assert forall|h: Hole, w: Word|
        #![trigger guess_fill::<Union<SPP, Cand<'a>>>(vars, st, dfa, g)(h)(w)]
        holes.contains(h) implies guess_fill::<Union<SPP, Cand<'a>>>(vars, st, dfa, g)(h)(w)
        == relations(rel)(h)(w) by {
        assert(vars.has(h));
        if guess_fill::<Union<SPP, Cand<'a>>>(vars, st, dfa, g)(h)(w) {
            assert(<SPP as Candidate<'a>>::slot_lang(vars.val(h).spp, st, dfa, g)(w));
            let k = choose|k: Hole|
                vars.has(k) && #[trigger] vars.val(k).spp.0 == vars.val(h).spp.0 && rel(k)(
                    w[0],
                    w[1],
                );
            if k != h {
                assert(<Union<SPP, Cand<'a>> as Candidate<'a>>::apart(vars.val(h), vars.val(k))
                    || <Union<SPP, Cand<'a>> as Candidate<'a>>::apart(vars.val(k), vars.val(h)));
            }
        }
        if relations(rel)(h)(w) {
            assert(vars.val(h).spp.0 == vars.val(h).spp.0);
        }
    }
    g
}

} // verus!
