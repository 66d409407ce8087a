//! What a file states, statement by statement.
use vstd::prelude::*;
use crate::desugar::{expand, Scope};
use crate::expr::{Hole, Term};
use crate::holes::aut::enfa_lang;
use crate::holes::cegis::all_met;
use crate::holes::inst::contained;
use crate::holes::nk_with_holes::Fill;
use crate::holes::parser::{
    hole_lang, holey, lowered, states_goal, states_goals, supported, AssertOp, Line, Lowered,
};
use crate::holes::problem::Constraint;
use crate::lang::{is_word, lang, lemma_cat_same, lemma_star_same_lang, same, Word};
use crate::spp::SPPstore;

verus! {

/// How many of the first `i` statements ask for a hole.
pub open spec fn holes_before(ls: Seq<Line>, i: int) -> nat
    decreases i,
{
    if i <= 0 || i > ls.len() {
        0
    } else {
        holes_before(ls, i - 1) + if ls[i - 1] is Hole {
            1nat
        } else {
            0
        }
    }
}

/// Statement `i` leads from one scope to the next: a hole gets the next number, a
/// definition names what its expression stands for, and an assertion changes nothing.
pub open spec fn leads(ls: Seq<Line>, scopes: Seq<Scope>, i: int) -> bool {
    match ls[i] {
        Line::Hole(x) => scopes[i + 1] == scopes[i].bind(
            x,
            Term::Hole(Hole(holes_before(ls, i) as u32)),
        ),
        Line::Def(x, e) => expand(e, scopes[i]) is Ok && scopes[i + 1] == scopes[i].bind(
            x,
            expand(e, scopes[i])->Ok_0,
        ),
        Line::Assert(a, op, b) => scopes[i + 1] == scopes[i],
    }
}

/// The scopes before each of the statements, and after the last.
pub open spec fn scoped(ls: Seq<Line>, scopes: Seq<Scope>) -> bool {
    &&& scopes.len() == ls.len() + 1
    &&& scopes[0] == Scope::empty()
    &&& forall|i: int| 0 <= i < ls.len() ==> #[trigger] leads(ls, scopes, i)
}

/// The words of the one are words of the other, and the other way round for an equality.
/// The side with holes has them filled; where neither has one that is the left.
pub open spec fn goal_holds(op: AssertOp, l: Term, r: Term, n: nat, hs: Fill) -> bool {
    let x = if holey(r) {
        lang(l, n)
    } else {
        hole_lang(l, n, hs)
    };
    let y = if holey(r) {
        hole_lang(r, n, hs)
    } else {
        lang(r, n)
    };
    &&& contained(n, x, y)
    &&& op == AssertOp::Eq ==> contained(n, y, x)
}

/// The assertion holds in the scope, with the holes filled.
pub open spec fn holds(l: Line, s: Scope, n: nat, hs: Fill) -> bool {
    match l {
        Line::Assert(a, op, b) => {
            &&& expand(a, s) is Ok
            &&& expand(b, s) is Ok
            &&& goal_holds(op, expand(a, s)->Ok_0, expand(b, s)->Ok_0, n, hs)
        },
        _ => true,
    }
}

/// The places of the assertions among the statements, in order.
pub open spec fn places(ls: Seq<Line>, at: Seq<int>) -> bool {
    &&& forall|j: int, k: int| #![trigger at[j], at[k]] 0 <= j < k < at.len() ==> at[j] < at[k]
    &&& forall|k: int|
        0 <= k < at.len() ==> 0 <= #[trigger] at[k] < ls.len() && ls[at[k]] is Assert
    &&& forall|i: int| 0 <= i < ls.len() && #[trigger] ls[i] is Assert ==> at.contains(i)
}

/// There is a constraint for each assertion, in order, and it is met if and only if the
/// assertion holds in the scope before it.
pub open spec fn states_program(
    cs: Seq<Constraint>,
    st: SPPstore,
    ls: Seq<Line>,
    scopes: Seq<Scope>,
    at: Seq<int>,
) -> bool {
    &&& scoped(ls, scopes)
    &&& places(ls, at)
    &&& cs.len() == at.len()
    &&& forall|k: int, hs: Fill|
        0 <= k < cs.len() ==> (#[trigger] cs[k].met(st, hs) <==> holds(
            ls[at[k]],
            scopes[at[k]],
            st.n(),
            hs,
        ))
}

/// Every assertion of a file holds.
pub open spec fn program_holds(ls: Seq<Line>, scopes: Seq<Scope>, n: nat, hs: Fill) -> bool {
    forall|i: int| 0 <= i < ls.len() ==> holds(#[trigger] ls[i], scopes[i], n, hs)
}

/// What fills the holes meets all constraints if and only if every assertion of the file
/// holds with it.
pub proof fn law_problem(
    cs: Seq<Constraint>,
    st: SPPstore,
    ls: Seq<Line>,
    scopes: Seq<Scope>,
    at: Seq<int>,
    hs: Fill,
)
    requires
        states_program(cs, st, ls, scopes, at),
    ensures
        all_met(cs, st, hs) <==> program_holds(ls, scopes, st.n(), hs),
{
    let n = st.n();
    if all_met(cs, st, hs) {
        assert forall|i: int| 0 <= i < ls.len() implies holds(#[trigger] ls[i], scopes[i], n, hs) by {
            if ls[i] is Assert {
                assert(at.contains(i));
                let k = choose|k: int| 0 <= k < at.len() && at[k] == i;
                assert(cs[k].met(st, hs));
            }
        }
    }
    if program_holds(ls, scopes, n, hs) {
        assert forall|k: int| 0 <= k < cs.len() implies (#[trigger] cs[k]).met(st, hs) by {
            assert(holds(ls[at[k]], scopes[at[k]], n, hs));
        }
    }
}

proof fn lemma_holes_ext(ls: Seq<Line>, o: Seq<Line>, i: int)
    requires
        i <= o.len() <= ls.len(),
        forall|j: int| 0 <= j < o.len() ==> #[trigger] ls[j] == o[j],
    ensures
        holes_before(ls, i) == holes_before(o, i),
    decreases i,
{
    if i > 0 {
        lemma_holes_ext(ls, o, i - 1);
        assert(ls[i - 1] == o[i - 1]);
    }
}

/// The scopes and the places of the assertions of statements without errors, and what the
/// assertions stand for.
proof fn lemma_lowered(ls: Seq<Line>) -> (res: (Seq<Scope>, Seq<int>))
    requires
        lowered(ls) is Ok,
    ensures
        scoped(ls, res.0),
        res.0.last() == lowered(ls)->Ok_0.scope,
        places(ls, res.1),
        lowered(ls)->Ok_0.holes == holes_before(ls, ls.len() as int),
        res.1.len() == lowered(ls)->Ok_0.goals.len(),
        forall|k: int|
            0 <= k < res.1.len() ==> is_goal(
                #[trigger] lowered(ls)->Ok_0.goals[k],
                ls[res.1[k]],
                res.0[res.1[k]],
            ),
    decreases ls.len(),
{
    if ls.len() == 0 {
        (seq![Scope::empty()], Seq::empty())
    } else {
        let o = ls.drop_last();
        let d0 = lowered(o)->Ok_0;
        let d = lowered(ls)->Ok_0;
        let (s0, at0) = lemma_lowered(o);
        let m = o.len() as int;
        let scopes = s0.push(d.scope);
        assert(ls[m] == ls.last());
        assert(s0[m] == s0.last());
        lemma_holes_ext(ls, o, m);
        assert forall|i: int| 0 <= i < ls.len() implies #[trigger] leads(ls, scopes, i) by {
            lemma_holes_ext(ls, o, i);
            if i < m {
                assert(leads(o, s0, i));
                assert(ls[i] == o[i]);
                assert(scopes[i] == s0[i] && scopes[i + 1] == s0[i + 1]);
            } else {
                assert(scopes[i] == d0.scope && scopes[i + 1] == d.scope);
            }
        }
        let at = if ls.last() is Assert {
            at0.push(m)
        } else {
            at0
        };
        assert forall|i: int| 0 <= i < ls.len() && #[trigger] ls[i] is Assert implies at.contains(
            i,
        ) by {
            if i < m {
                assert(o[i] is Assert);
                let k = choose|k: int| 0 <= k < at0.len() && at0[k] == i;
                assert(at[k] == i);
            } else {
                assert(at[at0.len() as int] == i);
            }
        }
        assert forall|k: int| 0 <= k < at.len() implies 0 <= #[trigger] at[k] < ls.len()
            && ls[at[k]] is Assert by {
            if k < at0.len() {
                assert(at[k] == at0[k]);
                assert(ls[at0[k]] == o[at0[k]]);
            }
        }
        assert forall|j: int, k: int| #![trigger at[j], at[k]]
            0 <= j < k < at.len() implies at[j] < at[k] by {
            assert(at[j] == at0[j]);
            if k < at0.len() {
                assert(at[k] == at0[k]);
            }
        }
        assert forall|k: int| 0 <= k < at.len() implies is_goal(
            #[trigger] d.goals[k],
            ls[at[k]],
            scopes[at[k]],
        ) by {
            if k < at0.len() {
                assert(at[k] == at0[k]);
                assert(d.goals[k] == d0.goals[k]);
                assert(is_goal(d0.goals[k], o[at0[k]], s0[at0[k]]));
                assert(ls[at0[k]] == o[at0[k]]);
            }
        }
        (scopes, at)
    }
}

/// The goal is what the assertion stands for in the scope.
spec fn is_goal(g: (Term, AssertOp, Term), l: Line, s: Scope) -> bool {
    l matches Line::Assert(a, op, b) && expand(a, s) == Ok::<Term, Seq<char>>(g.0) && op == g.1
        && expand(b, s) == Ok::<Term, Seq<char>>(g.2)
}

/// A constraint that is a goal is met if and only if the goal holds.
proof fn lemma_goal_met(
    c: Constraint,
    st: SPPstore,
    op: AssertOp,
    l: Term,
    r: Term,
    k: nat,
    hs: Fill,
)
    requires
        states_goal(c, st, op, l, r, k),
    ensures
        c.met(st, hs) <==> goal_holds(op, l, r, st.n(), hs),
{
    let n = st.n();
    let d = enfa_lang(&c.the_dfa(), st);
    let a = c.lang(st, hs);
    let (x, y) = if holey(r) {
        (lang(l, n), hole_lang(r, n, hs))
    } else {
        (lang(r, n), hole_lang(l, n, hs))
    };
    assert forall|w: Word| is_word(n, w) implies #[trigger] d(w) == x(w) by {}
    assert forall|w: Word| is_word(n, w) implies #[trigger] a(w) == y(w) by {}
    assert(contained(n, d, a) == contained(n, x, y)) by {
        if contained(n, d, a) {
            assert forall|w: Word| is_word(n, w) && #[trigger] x(w) implies y(w) by {
                assert(d(w) == x(w));
                assert(d(w));
                assert(a(w) == y(w));
            }
        }
        if contained(n, x, y) {
            assert forall|w: Word| is_word(n, w) && #[trigger] d(w) implies a(w) by {
                assert(d(w) == x(w));
                assert(x(w));
                assert(a(w) == y(w));
            }
        }
    }
    assert(contained(n, a, d) == contained(n, y, x)) by {
        if contained(n, a, d) {
            assert forall|w: Word| is_word(n, w) && #[trigger] y(w) implies x(w) by {
                assert(a(w) == y(w));
                assert(a(w));
                assert(d(w) == x(w));
            }
        }
        if contained(n, y, x) {
            assert forall|w: Word| is_word(n, w) && #[trigger] a(w) implies d(w) by {
                assert(a(w) == y(w));
                assert(y(w));
                assert(d(w) == x(w));
            }
        }
    }
}

/// Constraints that are the goals of a file state the file.
pub proof fn lemma_states_program(cs: Seq<Constraint>, st: SPPstore, ls: Seq<Line>, k: nat) -> (res: (
    Seq<Scope>,
    Seq<int>,
))
    requires
        lowered(ls) is Ok,
        states_goals(cs, st, lowered(ls)->Ok_0.goals, k),
    ensures
        states_program(cs, st, ls, res.0, res.1),
        lowered(ls)->Ok_0.holes == holes_before(ls, ls.len() as int),
{
    let (scopes, at) = lemma_lowered(ls);
    let goals = lowered(ls)->Ok_0.goals;
    assert forall|j: int, hs: Fill| 0 <= j < cs.len() implies (#[trigger] cs[j].met(st, hs)
        <==> holds(ls[at[j]], scopes[at[j]], st.n(), hs)) by {
        assert(states_goal(cs[j], st, goals[j].1, goals[j].0, goals[j].2, k));
        assert(is_goal(goals[j], ls[at[j]], scopes[at[j]]));
        lemma_goal_met(cs[j], st, goals[j].1, goals[j].0, goals[j].2, k, hs);
    }
    (scopes, at)
}

/// The statement has an error in the scope, with the message.
pub open spec fn has_error(l: Line, s: Scope, m: Seq<char>) -> bool {
    match l {
        Line::Hole(_) => false,
        Line::Def(x, e) => expand(e, s) == Err::<Term, Seq<char>>(m),
        Line::Assert(a, op, b) => {
            ||| expand(a, s) == Err::<Term, Seq<char>>(m)
            ||| expand(a, s) is Ok && expand(b, s) == Err::<Term, Seq<char>>(m)
            ||| expand(a, s) is Ok && expand(b, s) is Ok && {
                let l = expand(a, s)->Ok_0;
                let r = expand(b, s)->Ok_0;
                if holey(l) && holey(r) {
                    m
                        == "both sides of an assertion contain holes; at least one side must be hole-free"@
                } else {
                    m == "construct not supported by expressions with holes"@ && !supported(
                        if holey(r) {
                            r
                        } else {
                            l
                        },
                    )
                }
            }
        },
    }
}

/// Statement `i` is the first that has an error, with the message.
pub open spec fn first_error(ls: Seq<Line>, i: int, scopes: Seq<Scope>, m: Seq<char>) -> bool {
    &&& 0 <= i < ls.len()
    &&& scoped(ls.take(i), scopes)
    &&& forall|j: int|
        #![trigger ls[j]]
        0 <= j < i ==> forall|k: Seq<char>| !has_error(ls[j], scopes[j], k)
    &&& has_error(ls[i], scopes[i], m)
}

/// A file has an error if and only if a statement has one, and the message is that of the
/// first.
pub proof fn law_file_error(ls: Seq<Line>, m: Seq<char>)
    requires
        lowered(ls) == Err::<Lowered, Seq<char>>(m),
    ensures
        exists|i: int, scopes: Seq<Scope>| #[trigger] first_error(ls, i, scopes, m),
    decreases ls.len(),
{
    let o = ls.drop_last();
    if lowered(o) is Err {
        law_file_error(o, m);
        let (i, scopes) = choose|i: int, scopes: Seq<Scope>| #[trigger]
            first_error(o, i, scopes, m);
        assert(ls.take(i) =~= o.take(i));
        assert(ls[i] == o[i]);
        assert forall|j: int|
            #![trigger ls[j]]
            0 <= j < i implies forall|k: Seq<char>| !has_error(ls[j], scopes[j], k) by {
            assert(ls[j] == o[j]);
        }
        assert(first_error(ls, i, scopes, m));
    } else {
        let (scopes, at) = lemma_lowered(o);
        let i = o.len() as int;
        assert(ls.take(i) =~= o);
        assert(ls[i] == ls.last());
        assert(scopes[i] == scopes.last());
        lemma_no_errors(o, scopes);
        assert forall|j: int|
            #![trigger ls[j]]
            0 <= j < i implies forall|k: Seq<char>| !has_error(ls[j], scopes[j], k) by {
            assert(ls[j] == o[j]);
        }
        assert(first_error(ls, i, scopes, m));
    }
}

/// Scopes are determined by the statements.
proof fn lemma_scopes_once(ls: Seq<Line>, a: Seq<Scope>, b: Seq<Scope>, i: int)
    requires
        scoped(ls, a),
        scoped(ls, b),
        0 <= i <= ls.len(),
    ensures
        a[i] == b[i],
    decreases i,
{
    if i > 0 {
        lemma_scopes_once(ls, a, b, i - 1);
        assert(leads(ls, a, i - 1));
        assert(leads(ls, b, i - 1));
    }
}

/// Statements without errors have none.
proof fn lemma_no_errors(ls: Seq<Line>, scopes: Seq<Scope>)
    requires
        lowered(ls) is Ok,
        scoped(ls, scopes),
    ensures
        forall|j: int|
            #![trigger ls[j]]
            0 <= j < ls.len() ==> forall|k: Seq<char>| !has_error(ls[j], scopes[j], k),
    decreases ls.len(),
{
    if ls.len() > 0 {
        let o = ls.drop_last();
        let m = o.len() as int;
        let s0 = scopes.drop_last();
        assert(scoped(o, s0)) by {
            assert forall|i: int| 0 <= i < o.len() implies #[trigger] leads(o, s0, i) by {
                assert(leads(ls, scopes, i));
                lemma_holes_ext(ls, o, i);
            }
        }
        lemma_no_errors(o, s0);
        let (t, at) = lemma_lowered(o);
        lemma_scopes_once(o, s0, t, m);
        assert(t.last() == t[m]);
        assert(scopes[m] == s0[m]);
        assert(ls[m] == ls.last());
        assert forall|j: int|
            #![trigger ls[j]]
            0 <= j < ls.len() implies forall|k: Seq<char>| !has_error(ls[j], scopes[j], k) by {
            if j < m {
                assert(ls[j] == o[j]);
                assert(scopes[j] == s0[j]);
            }
        }
    }
}

/// The expression has no `T`.
pub open spec fn without_top(t: Term) -> bool
    decreases t,
{
    match t {
        Term::Top => false,
        Term::Union(a, b) => without_top(*a) && without_top(*b),
        Term::Sequence(a, b) => without_top(*a) && without_top(*b),
        Term::Star(a) => without_top(*a),
        _ => true,
    }
}

/// What fills holes does not matter to an expression that has none: it has its own words.
pub proof fn law_filled_words(t: Term, n: nat, hs: Fill)
    requires
        supported(t),
        !holey(t),
        without_top(t),
    ensures
        same(n, hole_lang(t, n, hs), lang(t, n)),
    decreases t,
{
    match t {
        Term::Union(a, b) => {
            law_filled_words(*a, n, hs);
            law_filled_words(*b, n, hs);
        },
        Term::Sequence(a, b) => {
            law_filled_words(*a, n, hs);
            law_filled_words(*b, n, hs);
            lemma_cat_same(
                n,
                hole_lang(*a, n, hs),
                hole_lang(*b, n, hs),
                lang(*a, n),
                lang(*b, n),
            );
        },
        Term::Star(a) => {
            law_filled_words(*a, n, hs);
            lemma_star_same_lang(n, hole_lang(*a, n, hs), lang(*a, n));
        },
        _ => {},
    }
}

} // verus!
