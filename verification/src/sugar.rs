//! What sugar means, over the words of what it stands for.
use vstd::prelude::*;
use crate::desugar::{
    assign_term, exact_bits, expand, law_match, law_negation, law_range_test, law_value_injective,
    lemma_value_widen, match_term, named_bits, negated, negation, pattern_holds, test_term, value,
    widen, window, Scope,
};
use crate::expr::{is_core, passes, test_fragment, Pat, Term};
use crate::lang::{back, cat, cut, front, is_word, lang, next, star, until, Lang, Word};
use crate::negation::{
    law_plain_test, lemma_assign_core, lemma_match_plain, lemma_negation_plain, lemma_test_plain,
    plain_test,
};
use crate::pre::Field;
use crate::sp::Pkt;

verus! {

/// The expressions that names stand for are without sugar.
pub open spec fn plain_scope(s: Scope) -> bool {
    forall|x: Seq<char>| #[trigger] s.vars.contains_key(x) ==> is_core(s.vars[x])
}

proof fn lemma_bits_core(f: Field, g: Field, bits: Seq<bool>, assign: bool)
    ensures
        exact_bits(f, g, bits, assign) matches Ok(u) ==> is_core(u),
{
    lemma_assign_core(f as int, bits);
    lemma_test_plain(f as int, bits);
}

proof fn lemma_named_core(s: Scope, x: Seq<char>, bits: Seq<bool>, assign: bool)
    ensures
        named_bits(s, x, bits, assign) matches Ok(u) ==> is_core(u),
{
    if s.ranges.contains_key(x) {
        let (f, g) = s.ranges[x];
        lemma_bits_core(f, g, widen(bits, (g - f) as nat), assign);
    }
}

/// In a scope without sugar an expression stands for one without sugar.
pub proof fn law_expand_core(t: Term, s: Scope)
    requires
        plain_scope(s),
    ensures
        expand(t, s) matches Ok(u) ==> is_core(u),
    decreases t,
{
    match t {
        Term::VarAssign(x, bits) => lemma_named_core(s, x, bits, true),
        Term::VarTest(x, bits) => lemma_named_core(s, x, bits, false),
        Term::BitRangeAssign(f, g, bits) => lemma_bits_core(f, g, bits, true),
        Term::BitRangeTest(f, g, bits) => lemma_bits_core(f, g, bits, false),
        Term::BitRangeMatch(f, g, pat) => lemma_match_plain(f, g, pat),
        Term::VarMatch(x, pat) => {
            if s.ranges.contains_key(x) {
                lemma_match_plain(s.ranges[x].0, s.ranges[x].1, pat);
            }
        },
        Term::Union(a, b) => {
            law_expand_core(*a, s);
            law_expand_core(*b, s);
        },
        Term::Intersect(a, b) => {
            law_expand_core(*a, s);
            law_expand_core(*b, s);
        },
        Term::Xor(a, b) => {
            law_expand_core(*a, s);
            law_expand_core(*b, s);
        },
        Term::Difference(a, b) => {
            law_expand_core(*a, s);
            law_expand_core(*b, s);
        },
        Term::Sequence(a, b) => {
            law_expand_core(*a, s);
            law_expand_core(*b, s);
        },
        Term::LtlUntil(a, b) => {
            law_expand_core(*a, s);
            law_expand_core(*b, s);
        },
        Term::Complement(a) => law_expand_core(*a, s),
        Term::Star(a) => law_expand_core(*a, s),
        Term::LtlNext(a) => law_expand_core(*a, s),
        Term::TestNegation(a) => {
            law_expand_core(*a, s);
            if let Ok(x) = expand(*a, s) {
                if test_fragment(x) {
                    law_plain_test(x);
                    lemma_negation_plain(x);
                }
            }
        },
        Term::IfThenElse(a, b, c) => {
            law_expand_core(*a, s);
            law_expand_core(*b, s);
            law_expand_core(*c, s);
            if let (Ok(x), Ok(y), Ok(z)) = (expand(*a, s), expand(*b, s), expand(*c, s)) {
                if test_fragment(x) {
                    law_plain_test(x);
                    lemma_negation_plain(x);
                    reveal_with_fuel(is_core, 3);
                }
            }
        },
        Term::Let(x, a, b) => {
            law_expand_core(*a, s);
            if let Ok(d) = expand(*a, s) {
                law_expand_core(*b, s.bind(x, d));
            }
        },
        Term::LetBitRange(x, f, g, b) => law_expand_core(*b, s.name(x, f, g)),
        _ => {},
    }
}

// ---- tests -------------------------------------------------------------------------------------

/// The words of a test are the packets that pass it, as they came.
pub proof fn law_test_words(t: Term, n: nat, w: Word)
    requires
        plain_test(t),
        is_word(n, w),
    ensures
        lang(t, n)(w) <==> w.len() == 2 && w[0] == w[1] && passes(t, w[0]),
    decreases t, 0nat,
{
    match t {
        Term::Union(a, b) => {
            law_test_words(*a, n, w);
            law_test_words(*b, n, w);
        },
        Term::Intersect(a, b) => {
            law_test_words(*a, n, w);
            law_test_words(*b, n, w);
        },
        Term::Xor(a, b) => {
            law_test_words(*a, n, w);
            law_test_words(*b, n, w);
        },
        Term::Difference(a, b) => {
            law_test_words(*a, n, w);
            law_test_words(*b, n, w);
        },
        Term::Sequence(a, b) => {
            law_guard(*a, lang(*b, n), n, w);
            law_test_words(*b, n, w);
        },
        _ => {},
    }
}

/// What follows a test goes on with the packets that pass it.
pub proof fn law_guard(t: Term, l: Lang, n: nat, w: Word)
    requires
        plain_test(t),
        is_word(n, w),
    ensures
        cat(n, lang(t, n), l)(w) <==> passes(t, w[0]) && l(w),
    decreases t, 1nat,
{
    let a = lang(t, n);
    if cat(n, a, l)(w) {
        let (i, m) = choose|i: int, m: Pkt| #[trigger] cut(n, a, l, w, i, m);
        let f = front(w, i, m);
        assert(is_word(n, f)) by {
            assert forall|k: int| 0 <= k < f.len() implies (#[trigger] f[k]).len() == n by {
                if k < f.len() - 1 {
                    assert(f[k] == w[k]);
                }
            }
        }
        law_test_words(t, n, f);
        assert(f.len() == 2);
        assert(i == 0);
        assert(f[0] == w[0] && f[1] == m);
        assert(back(w, 0, m) =~= w);
    }
    if passes(t, w[0]) && l(w) {
        let m = w[0];
        let f = front(w, 0, m);
        assert(f.len() == 2 && f[0] == w[0] && f[1] == m);
        assert(is_word(n, f)) by {
            assert forall|k: int| 0 <= k < f.len() implies (#[trigger] f[k]).len() == n by {
                assert(w[0].len() == n);
                if k == 0 {
                    assert(f[k] == w[0]);
                } else {
                    assert(f[k] == m);
                }
            }
        }
        law_test_words(t, n, f);
        assert(back(w, 0, m) =~= w);
        assert(w[0].len() == n);
        assert(cut(n, a, l, w, 0, m));
    }
}

/// A negated test passes the packets that the test does not pass, and no others.
pub proof fn law_negated_test(c: Term, s: Scope, p: Pkt)
    requires
        plain_scope(s),
        expand(c, s) is Ok,
        test_fragment(expand(c, s)->Ok_0),
    ensures
        expand(Term::TestNegation(Box::new(c)), s) is Ok,
        plain_test(expand(Term::TestNegation(Box::new(c)), s)->Ok_0),
        passes(expand(Term::TestNegation(Box::new(c)), s)->Ok_0, p) == !passes(
            expand(c, s)->Ok_0,
            p,
        ),
{
    let x = expand(c, s)->Ok_0;
    law_expand_core(c, s);
    law_plain_test(x);
    lemma_negation_plain(x);
    law_negation(x, p);
}

/// Only tests can be negated.
pub proof fn law_only_tests_negated(c: Term, s: Scope)
    ensures
        expand(Term::TestNegation(Box::new(c)), s) is Ok ==> expand(c, s) is Ok && test_fragment(
            expand(c, s)->Ok_0,
        ),
{
}

/// A conditional has the words of its first branch that begin with a packet that passes the
/// condition, and those of its second branch that begin with another.
pub proof fn law_conditional(c: Term, a: Term, b: Term, s: Scope, n: nat, w: Word)
    requires
        plain_scope(s),
        expand(c, s) is Ok,
        expand(a, s) is Ok,
        expand(b, s) is Ok,
        test_fragment(expand(c, s)->Ok_0),
        is_word(n, w),
    ensures
        expand(Term::IfThenElse(Box::new(c), Box::new(a), Box::new(b)), s) is Ok,
        lang(expand(Term::IfThenElse(Box::new(c), Box::new(a), Box::new(b)), s)->Ok_0, n)(w)
            == if passes(expand(c, s)->Ok_0, w[0]) {
            lang(expand(a, s)->Ok_0, n)(w)
        } else {
            lang(expand(b, s)->Ok_0, n)(w)
        },
{
    let x = expand(c, s)->Ok_0;
    let y = expand(a, s)->Ok_0;
    let z = expand(b, s)->Ok_0;
    law_expand_core(c, s);
    law_plain_test(x);
    lemma_negation_plain(x);
    law_negation(x, w[0]);
    law_guard(x, lang(y, n), n, w);
    law_guard(negation(x), lang(z, n), n, w);
    let u = expand(Term::IfThenElse(Box::new(c), Box::new(a), Box::new(b)), s)->Ok_0;
    assert(lang(u, n)(w) <==> cat(n, lang(x, n), lang(y, n))(w) || cat(
        n,
        lang(negation(x), n),
        lang(z, n),
    )(w)) by {
        reveal_with_fuel(lang, 3);
    }
}

/// The condition of a conditional is a test, and its branches can be desugared.
pub proof fn law_conditional_parts(c: Term, a: Term, b: Term, s: Scope)
    ensures
        expand(Term::IfThenElse(Box::new(c), Box::new(a), Box::new(b)), s) is Ok ==> expand(c, s)
            is Ok && expand(a, s) is Ok && expand(b, s) is Ok && test_fragment(expand(c, s)->Ok_0),
{
}

// ---- operators ---------------------------------------------------------------------------------

/// The expression can be desugared, and `yes` says whether it has the word.
pub open spec fn means(t: Term, s: Scope, n: nat, w: Word, yes: bool) -> bool {
    expand(t, s) is Ok && lang(expand(t, s)->Ok_0, n)(w) == yes
}

/// Desugaring keeps what the operators do.
pub proof fn law_operators(a: Term, b: Term, s: Scope, x: Term, y: Term, n: nat, w: Word)
    requires
        expand(a, s) == Ok::<Term, Seq<char>>(x),
        expand(b, s) == Ok::<Term, Seq<char>>(y),
    ensures
        means(
            Term::Union(Box::new(a), Box::new(b)),
            s,
            n,
            w,
            lang(x, n)(w) || lang(y, n)(w),
        ),
        means(
            Term::Intersect(Box::new(a), Box::new(b)),
            s,
            n,
            w,
            lang(x, n)(w) && lang(y, n)(w),
        ),
        means(
            Term::Xor(Box::new(a), Box::new(b)),
            s,
            n,
            w,
            lang(x, n)(w) != lang(y, n)(w),
        ),
        means(
            Term::Difference(Box::new(a), Box::new(b)),
            s,
            n,
            w,
            lang(x, n)(w) && !lang(y, n)(w),
        ),
        means(
            Term::Sequence(Box::new(a), Box::new(b)),
            s,
            n,
            w,
            cat(n, lang(x, n), lang(y, n))(w),
        ),
        means(
            Term::LtlUntil(Box::new(a), Box::new(b)),
            s,
            n,
            w,
            until(lang(x, n), lang(y, n))(w),
        ),
        means(Term::Complement(Box::new(a)), s, n, w, !lang(x, n)(w)),
        means(Term::Star(Box::new(a)), s, n, w, star(n, lang(x, n))(w)),
        means(Term::LtlNext(Box::new(a)), s, n, w, next(lang(x, n))(w)),
{
}

/// An expression with an operator can be desugared if and only if its parts can.
pub proof fn law_operators_parts(a: Term, b: Term, s: Scope)
    ensures
        expand(Term::Union(Box::new(a), Box::new(b)), s) is Ok <==> expand(a, s) is Ok && expand(b, s)
            is Ok,
        expand(Term::Intersect(Box::new(a), Box::new(b)), s) is Ok <==> expand(a, s) is Ok && expand(b, s)
            is Ok,
        expand(Term::Xor(Box::new(a), Box::new(b)), s) is Ok <==> expand(a, s) is Ok && expand(b, s)
            is Ok,
        expand(Term::Difference(Box::new(a), Box::new(b)), s) is Ok <==> expand(a, s) is Ok && expand(b, s)
            is Ok,
        expand(Term::Sequence(Box::new(a), Box::new(b)), s) is Ok <==> expand(a, s) is Ok && expand(b, s)
            is Ok,
        expand(Term::LtlUntil(Box::new(a), Box::new(b)), s) is Ok <==> expand(a, s) is Ok && expand(b, s)
            is Ok,
        expand(Term::Complement(Box::new(a)), s) is Ok <==> expand(a, s) is Ok,
        expand(Term::Star(Box::new(a)), s) is Ok <==> expand(a, s) is Ok,
        expand(Term::LtlNext(Box::new(a)), s) is Ok <==> expand(a, s) is Ok,
{
}

// ---- names -------------------------------------------------------------------------------------

/// A bound name stands for what it is bound to, other names for what they did, and binding
/// goes into both sides of an operator.
pub proof fn law_let(x: Seq<char>, y: Seq<char>, a: Term, b: Term, c: Term, s: Scope)
    requires
        expand(a, s) is Ok,
    ensures
        expand(Term::Let(x, Box::new(a), Box::new(Term::Var(x))), s) == expand(a, s),
        y != x ==> expand(Term::Let(x, Box::new(a), Box::new(Term::Var(y))), s) == expand(
            Term::Var(y),
            s,
        ),
        is_core(b) ==> expand(Term::Let(x, Box::new(a), Box::new(b)), s) == expand(b, s),
        expand(
            Term::Let(x, Box::new(a), Box::new(Term::Union(Box::new(b), Box::new(c)))),
            s,
        ) == expand(
            Term::Union(
                Box::new(Term::Let(x, Box::new(a), Box::new(b))),
                Box::new(Term::Let(x, Box::new(a), Box::new(c))),
            ),
            s,
        ),
        expand(
            Term::Let(x, Box::new(a), Box::new(Term::Intersect(Box::new(b), Box::new(c)))),
            s,
        ) == expand(
            Term::Intersect(
                Box::new(Term::Let(x, Box::new(a), Box::new(b))),
                Box::new(Term::Let(x, Box::new(a), Box::new(c))),
            ),
            s,
        ),
        expand(
            Term::Let(x, Box::new(a), Box::new(Term::Xor(Box::new(b), Box::new(c)))),
            s,
        ) == expand(
            Term::Xor(
                Box::new(Term::Let(x, Box::new(a), Box::new(b))),
                Box::new(Term::Let(x, Box::new(a), Box::new(c))),
            ),
            s,
        ),
        expand(
            Term::Let(x, Box::new(a), Box::new(Term::Difference(Box::new(b), Box::new(c)))),
            s,
        ) == expand(
            Term::Difference(
                Box::new(Term::Let(x, Box::new(a), Box::new(b))),
                Box::new(Term::Let(x, Box::new(a), Box::new(c))),
            ),
            s,
        ),
        expand(
            Term::Let(x, Box::new(a), Box::new(Term::Sequence(Box::new(b), Box::new(c)))),
            s,
        ) == expand(
            Term::Sequence(
                Box::new(Term::Let(x, Box::new(a), Box::new(b))),
                Box::new(Term::Let(x, Box::new(a), Box::new(c))),
            ),
            s,
        ),
        expand(
            Term::Let(x, Box::new(a), Box::new(Term::LtlUntil(Box::new(b), Box::new(c)))),
            s,
        ) == expand(
            Term::LtlUntil(
                Box::new(Term::Let(x, Box::new(a), Box::new(b))),
                Box::new(Term::Let(x, Box::new(a), Box::new(c))),
            ),
            s,
        ),
        expand(Term::Let(x, Box::new(a), Box::new(Term::Complement(Box::new(b)))), s) == expand(
            Term::Complement(Box::new(Term::Let(x, Box::new(a), Box::new(b)))),
            s,
        ),
        expand(Term::Let(x, Box::new(a), Box::new(Term::Star(Box::new(b)))), s) == expand(
            Term::Star(Box::new(Term::Let(x, Box::new(a), Box::new(b)))),
            s,
        ),
        expand(Term::Let(x, Box::new(a), Box::new(Term::LtlNext(Box::new(b)))), s) == expand(
            Term::LtlNext(Box::new(Term::Let(x, Box::new(a), Box::new(b)))),
            s,
        ),
        expand(Term::Let(x, Box::new(a), Box::new(Term::TestNegation(Box::new(Term::Var(x))))), s)
            is Ok ==> expand(
            Term::Let(x, Box::new(a), Box::new(Term::TestNegation(Box::new(Term::Var(x))))),
            s,
        ) == negated(expand(a, s)->Ok_0),
{
    reveal_with_fuel(expand, 3);
    if is_core(b) {
        crate::desugar::law_core_unchanged(b, s);
        crate::desugar::law_core_unchanged(b, s.bind(x, expand(a, s)->Ok_0));
    }
}

/// An expression that cannot be desugared cannot be bound.
pub proof fn law_let_fails(x: Seq<char>, a: Term, b: Term, s: Scope)
    ensures
        expand(a, s) is Err ==> expand(Term::Let(x, Box::new(a), Box::new(b)), s) == expand(a, s),
{
}

/// A name for fields stands for them, and goes into both sides of an operator.
pub proof fn law_let_range(
    x: Seq<char>,
    y: Seq<char>,
    f: Field,
    g: Field,
    bits: Seq<bool>,
    pat: Pat,
    b: Term,
    c: Term,
    s: Scope,
)
    ensures
        bits.len() == g - f ==> expand(
            Term::LetBitRange(x, f, g, Box::new(Term::VarTest(x, bits))),
            s,
        ) == expand(Term::BitRangeTest(f, g, bits), s),
        bits.len() == g - f ==> expand(
            Term::LetBitRange(x, f, g, Box::new(Term::VarAssign(x, bits))),
            s,
        ) == expand(Term::BitRangeAssign(f, g, bits), s),
        expand(Term::LetBitRange(x, f, g, Box::new(Term::VarMatch(x, pat))), s) == expand(
            Term::BitRangeMatch(f, g, pat),
            s,
        ),
        y != x ==> expand(Term::LetBitRange(x, f, g, Box::new(Term::VarTest(y, bits))), s)
            == expand(Term::VarTest(y, bits), s),
        y != x ==> expand(Term::LetBitRange(x, f, g, Box::new(Term::VarAssign(y, bits))), s)
            == expand(Term::VarAssign(y, bits), s),
        y != x ==> expand(Term::LetBitRange(x, f, g, Box::new(Term::VarMatch(y, pat))), s)
            == expand(Term::VarMatch(y, pat), s),
        s.vars.contains_key(y) ==> expand(Term::LetBitRange(x, f, g, Box::new(Term::Var(y))), s)
            == expand(Term::Var(y), s),
        expand(
            Term::LetBitRange(x, f, g, Box::new(Term::Union(Box::new(b), Box::new(c)))),
            s,
        ) == expand(
            Term::Union(
                Box::new(Term::LetBitRange(x, f, g, Box::new(b))),
                Box::new(Term::LetBitRange(x, f, g, Box::new(c))),
            ),
            s,
        ),
        expand(
            Term::LetBitRange(x, f, g, Box::new(Term::Intersect(Box::new(b), Box::new(c)))),
            s,
        ) == expand(
            Term::Intersect(
                Box::new(Term::LetBitRange(x, f, g, Box::new(b))),
                Box::new(Term::LetBitRange(x, f, g, Box::new(c))),
            ),
            s,
        ),
        expand(
            Term::LetBitRange(x, f, g, Box::new(Term::Xor(Box::new(b), Box::new(c)))),
            s,
        ) == expand(
            Term::Xor(
                Box::new(Term::LetBitRange(x, f, g, Box::new(b))),
                Box::new(Term::LetBitRange(x, f, g, Box::new(c))),
            ),
            s,
        ),
        expand(
            Term::LetBitRange(x, f, g, Box::new(Term::Difference(Box::new(b), Box::new(c)))),
            s,
        ) == expand(
            Term::Difference(
                Box::new(Term::LetBitRange(x, f, g, Box::new(b))),
                Box::new(Term::LetBitRange(x, f, g, Box::new(c))),
            ),
            s,
        ),
        expand(
            Term::LetBitRange(x, f, g, Box::new(Term::Sequence(Box::new(b), Box::new(c)))),
            s,
        ) == expand(
            Term::Sequence(
                Box::new(Term::LetBitRange(x, f, g, Box::new(b))),
                Box::new(Term::LetBitRange(x, f, g, Box::new(c))),
            ),
            s,
        ),
        expand(
            Term::LetBitRange(x, f, g, Box::new(Term::LtlUntil(Box::new(b), Box::new(c)))),
            s,
        ) == expand(
            Term::LtlUntil(
                Box::new(Term::LetBitRange(x, f, g, Box::new(b))),
                Box::new(Term::LetBitRange(x, f, g, Box::new(c))),
            ),
            s,
        ),
        expand(Term::LetBitRange(x, f, g, Box::new(Term::Complement(Box::new(b)))), s) == expand(
            Term::Complement(Box::new(Term::LetBitRange(x, f, g, Box::new(b)))),
            s,
        ),
        expand(Term::LetBitRange(x, f, g, Box::new(Term::Star(Box::new(b)))), s) == expand(
            Term::Star(Box::new(Term::LetBitRange(x, f, g, Box::new(b)))),
            s,
        ),
        expand(Term::LetBitRange(x, f, g, Box::new(Term::LtlNext(Box::new(b)))), s) == expand(
            Term::LtlNext(Box::new(Term::LetBitRange(x, f, g, Box::new(b)))),
            s,
        ),
{
    reveal_with_fuel(expand, 3);
    if bits.len() == g - f {
        assert(widen(bits, (g - f) as nat) =~= bits);
    }
}

// ---- ranges of fields --------------------------------------------------------------------------

/// The packet with the bits in the fields from `start` on.
pub open spec fn with_bits(p: Pkt, start: int, bits: Seq<bool>) -> Pkt {
    Seq::new(
        p.len(),
        |i: int|
            if start <= i < start + bits.len() {
                bits[i - start]
            } else {
                p[i]
            },
    )
}

proof fn lemma_assign_words(start: int, bits: Seq<bool>, n: nat, w: Word)
    requires
        0 <= start,
        start + bits.len() <= n,
        n <= u32::MAX,
        is_word(n, w),
    ensures
        lang(assign_term(start, bits), n)(w) <==> w.len() == 2 && w[1] == with_bits(
            w[0],
            start,
            bits,
        ),
    decreases bits.len(),
{
    assert(w[0].len() == n && w[1].len() == n);
    if bits.len() == 0 {
        assert(with_bits(w[0], start, bits) =~= w[0]);
    } else if bits.len() == 1 {
        assert(with_bits(w[0], start, bits) =~= w[0].update(start, bits[0]));
    } else {
        let rest = bits.drop_first();
        let a = lang(Term::Assign(start as u32, bits[0]), n);
        let b = lang(assign_term(start + 1, rest), n);
        let p = w[0].update(start, bits[0]);
        assert(with_bits(p, start + 1, rest) =~= with_bits(w[0], start, bits));
        if cat(n, a, b)(w) {
            let (i, m) = choose|i: int, m: Pkt| #[trigger] cut(n, a, b, w, i, m);
            let f = front(w, i, m);
            assert(f.len() == 2);
            assert(f[0] == w[0] && f[1] == m);
            assert(m == p);
            let v = back(w, 0, m);
            assert(is_word(n, v)) by {
                assert forall|k: int| 0 <= k < v.len() implies (#[trigger] v[k]).len() == n by {
                    if k > 0 {
                        assert(v[k] == w[k]);
                    }
                }
            }
            lemma_assign_words(start + 1, rest, n, v);
            assert(v[0] == p && v[1] == w[1]);
        }
        if w.len() == 2 && w[1] == with_bits(w[0], start, bits) {
            let f = front(w, 0, p);
            assert(f.len() == 2 && f[0] == w[0] && f[1] == p);
            let v = back(w, 0, p);
            assert(v[0] == p && v[1] == w[1] && v.len() == 2);
            assert(is_word(n, v));
            lemma_assign_words(start + 1, rest, n, v);
            assert(cut(n, a, b, w, 0, p));
        }
    }
}

/// Assigning bits to a range of fields puts them there and leaves the other fields.
pub proof fn law_range_assign(f: Field, g: Field, bits: Seq<bool>, s: Scope, n: nat, w: Word)
    requires
        bits.len() == g - f,
        g <= n <= u32::MAX,
        is_word(n, w),
    ensures
        means(
            Term::BitRangeAssign(f, g, bits),
            s,
            n,
            w,
            w.len() == 2 && w[1] == with_bits(w[0], f as int, bits),
        ),
{
    lemma_assign_words(f as int, bits, n, w);
}

/// Testing a range of fields for bits passes the packets that have them there.
pub proof fn law_range_tested(f: Field, g: Field, bits: Seq<bool>, s: Scope, n: nat, w: Word)
    requires
        bits.len() == g - f,
        g <= n <= u32::MAX,
        is_word(n, w),
    ensures
        means(
            Term::BitRangeTest(f, g, bits),
            s,
            n,
            w,
            w.len() == 2 && w[0] == w[1] && window(w[0], f as int, g - f) == bits,
        ),
{
    assert(w[0].len() == n);
    lemma_test_plain(f as int, bits);
    law_test_words(test_term(f as int, bits), n, w);
    law_range_test(f as int, bits, w[0]);
}

/// Bits that are not as many as the fields are refused.
pub proof fn law_range_width(f: Field, g: Field, bits: Seq<bool>, s: Scope)
    requires
        bits.len() != g - f,
    ensures
        expand(Term::BitRangeAssign(f, g, bits), s) is Err,
        expand(Term::BitRangeTest(f, g, bits), s) is Err,
{
}

/// Testing named fields for a number passes the packets in whose fields it stands.
pub proof fn law_named_tested(x: Seq<char>, bits: Seq<bool>, s: Scope, n: nat, w: Word)
    requires
        s.ranges.contains_key(x),
        s.ranges[x].0 <= s.ranges[x].1 <= n,
        bits.len() <= s.ranges[x].1 - s.ranges[x].0,
        n <= u32::MAX,
        is_word(n, w),
    ensures
        ({
            let (f, g) = s.ranges[x];
            means(
                Term::VarTest(x, bits),
                s,
                n,
                w,
                w.len() == 2 && w[0] == w[1] && value(window(w[0], f as int, g - f)) == value(bits),
            )
        }),
{
    let (f, g) = s.ranges[x];
    let v = widen(bits, (g - f) as nat);
    assert(w[0].len() == n);
    law_range_tested(f, g, v, s, n, w);
    lemma_value_widen(bits, (g - f) as nat);
    let a = window(w[0], f as int, g - f);
    if value(a) == value(bits) {
        law_value_injective(a, v);
    }
    assert(expand(Term::VarTest(x, bits), s) == expand(Term::BitRangeTest(f, g, v), s));
}

/// Assigning a number to named fields puts it there and leaves the other fields.
pub proof fn law_named_assign(x: Seq<char>, bits: Seq<bool>, s: Scope, n: nat, w: Word)
    requires
        s.ranges.contains_key(x),
        s.ranges[x].0 <= s.ranges[x].1 <= n,
        bits.len() <= s.ranges[x].1 - s.ranges[x].0,
        n <= u32::MAX,
        is_word(n, w),
    ensures
        ({
            let (f, g) = s.ranges[x];
            means(
                Term::VarAssign(x, bits),
                s,
                n,
                w,
                w.len() == 2 && value(window(w[1], f as int, g - f)) == value(bits) && forall|i: int|
                    0 <= i < n && !(f <= i < g) ==> #[trigger] w[1][i] == w[0][i],
            )
        }),
{
    let (f, g) = s.ranges[x];
    let v = widen(bits, (g - f) as nat);
    assert(w[0].len() == n && w[1].len() == n);
    law_range_assign(f, g, v, s, n, w);
    lemma_value_widen(bits, (g - f) as nat);
    let b = window(w[1], f as int, g - f);
    let q = with_bits(w[0], f as int, v);
    assert(expand(Term::VarAssign(x, bits), s) == expand(Term::BitRangeAssign(f, g, v), s));
    if w[1] == q {
        assert(b =~= v);
        assert forall|i: int| 0 <= i < n && !(f <= i < g) implies #[trigger] w[1][i] == w[0][i] by {
            assert(q[i] == w[0][i]);
        }
    }
    if value(b) == value(bits) && forall|i: int|
        0 <= i < n && !(f <= i < g) ==> #[trigger] w[1][i] == w[0][i] {
        law_value_injective(b, v);
        assert forall|i: int| 0 <= i < n implies w[1][i] == q[i] by {
            if f <= i < g {
                assert(b[i - f] == w[1][i]);
            }
        }
        assert(w[1] =~= q);
    }
}

/// A number that the named fields cannot hold is refused, and so is a name for no fields.
pub proof fn law_named_width(x: Seq<char>, bits: Seq<bool>, pat: Pat, s: Scope)
    ensures
        s.ranges.contains_key(x) && bits.len() > s.ranges[x].1 - s.ranges[x].0 ==> expand(
            Term::VarTest(x, bits),
            s,
        ) is Err && expand(Term::VarAssign(x, bits), s) is Err,
        !s.ranges.contains_key(x) ==> expand(Term::VarTest(x, bits), s) is Err && expand(
            Term::VarAssign(x, bits),
            s,
        ) is Err && expand(Term::VarMatch(x, pat), s) is Err,
        !s.vars.contains_key(x) ==> expand(Term::Var(x), s) is Err,
{
}

/// Which patterns fit a range of fields.
pub proof fn law_match_fits(f: Field, g: Field, pat: Pat, s: Scope)
    requires
        f <= g,
    ensures
        expand(Term::BitRangeMatch(f, g, pat), s) is Ok <==> match pat {
            Pat::Exact(bits) => bits.len() <= g - f,
            Pat::Cidr(address, prefix) => prefix <= g - f && address.len() == g - f,
            Pat::Wildcard(address, mask) => address.len() == g - f && mask.len() == g - f,
            Pat::IpRange(lo, hi) => (lo.len() < g - f && hi.len() < g - f || lo.len() == g - f
                && hi.len() == g - f) && g - f <= 128 && value(lo) <= value(hi),
        },
{
    if let Pat::IpRange(lo, hi) = pat {
        if lo.len() < g - f && hi.len() < g - f {
            lemma_value_widen(lo, (g - f) as nat);
            lemma_value_widen(hi, (g - f) as nat);
        }
    }
}

/// Matching a range of fields passes the packets whose bits there match the pattern.
pub proof fn law_range_match(f: Field, g: Field, pat: Pat, s: Scope, n: nat, w: Word)
    requires
        f <= g <= n,
        n <= u32::MAX,
        expand(Term::BitRangeMatch(f, g, pat), s) is Ok,
        is_word(n, w),
    ensures
        means(
            Term::BitRangeMatch(f, g, pat),
            s,
            n,
            w,
            w.len() == 2 && w[0] == w[1] && pattern_holds(pat, window(w[0], f as int, g - f)),
        ),
{
    assert(w[0].len() == n);
    lemma_match_plain(f, g, pat);
    law_test_words(match_term(f, g, pat)->Ok_0, n, w);
    law_match(f, g, pat, w[0]);
}

} // verus!
