//! Tests with sugar, and their negations.
//!
//! An expression that is bound to a name can have sugar.  A test that is made of it is
//! negated all the same, as long as it has no names; what comes of that is without sugar.
use vstd::prelude::*;
use crate::desugar::{
    assign_term, bound_term, bound_terms, bounded, conj, disj, exact_bits,
    expand, high_tests, lemma_match_bounded, lemma_negation_bounded, lemma_test_bounded,
    masked_tests, match_term, named_bits, negated, negation, ranges_ok, test_term, tested, widen,
    Scope,
};
use crate::expr::{is_core, test_fragment, Pat, Term};
use crate::pre::Field;

verus! {

/// A test without sugar.
pub open spec fn plain_test(t: Term) -> bool {
    is_core(t) && test_fragment(t)
}

/// An expression without sugar has no reversed ranges.
pub proof fn lemma_core_ranges(t: Term)
    requires
        is_core(t),
    ensures
        ranges_ok(t),
    decreases t,
{
    match t {
        Term::Union(a, b) => {
            lemma_core_ranges(*a);
            lemma_core_ranges(*b);
        },
        Term::Intersect(a, b) => {
            lemma_core_ranges(*a);
            lemma_core_ranges(*b);
        },
        Term::Xor(a, b) => {
            lemma_core_ranges(*a);
            lemma_core_ranges(*b);
        },
        Term::Difference(a, b) => {
            lemma_core_ranges(*a);
            lemma_core_ranges(*b);
        },
        Term::Sequence(a, b) => {
            lemma_core_ranges(*a);
            lemma_core_ranges(*b);
        },
        Term::LtlUntil(a, b) => {
            lemma_core_ranges(*a);
            lemma_core_ranges(*b);
        },
        Term::Complement(a) => lemma_core_ranges(*a),
        Term::Star(a) => lemma_core_ranges(*a),
        Term::LtlNext(a) => lemma_core_ranges(*a),
        _ => {},
    }
}

/// A scope without sugar has no reversed ranges.
pub proof fn lemma_scope_ordered(s: Scope)
    requires
        s.ok(),
    ensures
        s.ordered(),
{
    assert forall|x: Seq<char>| #[trigger] s.vars.contains_key(x) implies ranges_ok(s.vars[x]) by {
        lemma_core_ranges(s.vars[x]);
    }
}

pub proof fn lemma_assign_core(start: int, bits: Seq<bool>)
    ensures
        is_core(assign_term(start, bits)),
    decreases bits.len(),
{
    reveal_with_fuel(is_core, 3);
    if bits.len() > 1 {
        lemma_assign_core(start + 1, bits.drop_first());
    }
}

pub proof fn lemma_test_plain(start: int, bits: Seq<bool>)
    ensures
        plain_test(test_term(start, bits)),
    decreases bits.len(),
{
    reveal_with_fuel(is_core, 3);
    reveal_with_fuel(test_fragment, 3);
    if bits.len() > 1 {
        lemma_test_plain(start + 1, bits.drop_first());
    }
}

/// All of the expressions are tests without sugar.
pub open spec fn all_plain(ts: Seq<Term>) -> bool {
    forall|i: int| 0 <= i < ts.len() ==> plain_test(#[trigger] ts[i])
}

proof fn lemma_conj_plain(ts: Seq<Term>)
    requires
        all_plain(ts),
    ensures
        plain_test(conj(ts)),
        plain_test(disj(ts)),
    decreases ts.len(),
{
    if ts.len() > 1 {
        assert forall|i: int| 0 <= i < ts.drop_first().len() implies plain_test(
            #[trigger] ts.drop_first()[i],
        ) by {
            assert(ts.drop_first()[i] == ts[i + 1]);
        }
        lemma_conj_plain(ts.drop_first());
        assert(plain_test(ts[0]));
    } else if ts.len() == 1 {
        assert(plain_test(ts[0]));
    }
}

proof fn lemma_high_plain(start: int, bound: Seq<bool>, i: int)
    ensures
        all_plain(high_tests(start, bound, i)),
    decreases bound.len() - i,
{
    if i < bound.len() {
        lemma_high_plain(start, bound, i + 1);
    }
}

proof fn lemma_terms_plain(start: int, bound: Seq<bool>, flag: bool, i: int)
    ensures
        all_plain(bound_terms(start, bound, flag, i)),
    decreases bound.len() - i,
{
    if i < bound.len() {
        lemma_terms_plain(start, bound, flag, i + 1);
        lemma_high_plain(start, bound, i + 1);
        let hs = high_tests(start, bound, i + 1).push(Term::Test((start + i) as u32, !flag));
        assert(all_plain(hs));
        lemma_conj_plain(hs);
    }
}

proof fn lemma_bound_plain(start: int, bound: Seq<bool>, flag: bool)
    ensures
        plain_test(bound_term(start, bound, flag)),
{
    if bound.len() > 0 {
        lemma_terms_plain(start, bound, flag, 0);
        lemma_high_plain(start, bound, 0);
        lemma_conj_plain(high_tests(start, bound, 0));
        let ts = bound_terms(start, bound, flag, 0).push(conj(high_tests(start, bound, 0)));
        assert(all_plain(ts));
        lemma_conj_plain(ts);
    }
}

proof fn lemma_masked_plain(
    start: int,
    address: Seq<bool>,
    mask: Seq<bool>,
    i: int,
)
    ensures
        all_plain(masked_tests(start, address, mask, i)),
    decreases i,
{
    if i > 0 {
        lemma_masked_plain(start, address, mask, i - 1);
    }
}

pub proof fn lemma_match_plain(start: Field, end: Field, pat: Pat)
    ensures
        match_term(start, end, pat) matches Ok(t) ==> plain_test(t),
{
    let width = (end - start) as nat;
    match pat {
        Pat::Exact(bits) => {
            if bits.len() <= width {
                lemma_test_plain(start as int, widen(bits, width));
            }
        },
        Pat::Cidr(address, prefix) => {
            if prefix <= width && address.len() == width {
                lemma_test_plain(
                    start + width - prefix,
                    address.subrange(width - prefix, width as int),
                );
            }
        },
        Pat::Wildcard(address, mask) => {
            lemma_masked_plain(start as int, address, mask, width as int);
            lemma_conj_plain(masked_tests(start as int, address, mask, width as int));
        },
        Pat::IpRange(lo, hi) => {
            let (l, h) = if lo.len() < width && hi.len() < width {
                (widen(lo, width), widen(hi, width))
            } else {
                (lo, hi)
            };
            if l.len() == width && h.len() == width {
                lemma_test_plain(start as int, l);
                lemma_bound_plain(start as int, h, true);
                lemma_bound_plain(start as int, l, false);
            }
        },
    }
}

pub proof fn lemma_negation_plain(t: Term)
    requires
        plain_test(t),
    ensures
        plain_test(negation(t)),
    decreases t,
{
    reveal_with_fuel(is_core, 3);
    reveal_with_fuel(test_fragment, 3);
    match t {
        Term::Union(a, b) => {
            lemma_negation_plain(*a);
            lemma_negation_plain(*b);
        },
        Term::Intersect(a, b) => {
            lemma_negation_plain(*a);
            lemma_negation_plain(*b);
        },
        Term::Xor(a, b) => {
            lemma_negation_plain(*a);
            lemma_negation_plain(*b);
        },
        Term::Difference(a, b) => {
            lemma_negation_plain(*a);
            lemma_negation_plain(*b);
        },
        Term::Sequence(a, b) => {
            lemma_negation_plain(*a);
            lemma_negation_plain(*b);
        },
        _ => {},
    }
}

/// What a test stands for without names is a test without sugar.
pub proof fn lemma_tested_plain(t: Term)
    requires
        test_fragment(t),
    ensures
        tested(t) matches Ok(u) ==> plain_test(u),
    decreases t,
{
    match t {
        Term::BitRangeTest(f, g, bits) => lemma_test_plain(f as int, bits),
        Term::BitRangeMatch(f, g, pat) => lemma_match_plain(f, g, pat),
        Term::Union(a, b) => {
            lemma_tested_plain(*a);
            lemma_tested_plain(*b);
        },
        Term::Intersect(a, b) => {
            lemma_tested_plain(*a);
            lemma_tested_plain(*b);
        },
        Term::Xor(a, b) => {
            lemma_tested_plain(*a);
            lemma_tested_plain(*b);
        },
        Term::Difference(a, b) => {
            lemma_tested_plain(*a);
            lemma_tested_plain(*b);
        },
        Term::Sequence(a, b) => {
            lemma_tested_plain(*a);
            lemma_tested_plain(*b);
        },
        Term::TestNegation(a) => {
            lemma_tested_plain(*a);
            if let Ok(x) = tested(*a) {
                lemma_negation_plain(x);
            }
        },
        _ => {},
    }
}

/// The negation of a test is a test without sugar.
pub proof fn lemma_negated_plain(t: Term)
    requires
        test_fragment(t),
    ensures
        negated(t) matches Ok(u) ==> plain_test(u),
    decreases t,
{
    reveal_with_fuel(is_core, 3);
    reveal_with_fuel(test_fragment, 3);
    lemma_tested_plain(t);
    match t {
        Term::Union(a, b) => {
            lemma_negated_plain(*a);
            lemma_negated_plain(*b);
            lemma_tested_plain(*a);
            lemma_tested_plain(*b);
        },
        Term::Intersect(a, b) => {
            lemma_negated_plain(*a);
            lemma_negated_plain(*b);
            lemma_tested_plain(*a);
            lemma_tested_plain(*b);
        },
        Term::Xor(a, b) => {
            lemma_negated_plain(*a);
            lemma_negated_plain(*b);
            lemma_tested_plain(*a);
            lemma_tested_plain(*b);
        },
        Term::Difference(a, b) => {
            lemma_negated_plain(*a);
            lemma_negated_plain(*b);
            lemma_tested_plain(*a);
            lemma_tested_plain(*b);
        },
        Term::Sequence(a, b) => {
            lemma_negated_plain(*a);
            lemma_negated_plain(*b);
            lemma_tested_plain(*a);
            lemma_tested_plain(*b);
        },
        Term::TestNegation(a) => lemma_tested_plain(*a),
        _ => {
            if let Ok(x) = tested(t) {
                lemma_negation_plain(x);
            }
        },
    }
}

/// A test without sugar stands for itself, and is negated by De Morgan's laws.
pub proof fn law_plain_test(t: Term)
    requires
        plain_test(t),
    ensures
        tested(t) == Ok::<Term, Seq<char>>(t),
        negated(t) == Ok::<Term, Seq<char>>(negation(t)),
    decreases t,
{
    match t {
        Term::Union(a, b) => {
            law_plain_test(*a);
            law_plain_test(*b);
        },
        Term::Intersect(a, b) => {
            law_plain_test(*a);
            law_plain_test(*b);
        },
        Term::Xor(a, b) => {
            law_plain_test(*a);
            law_plain_test(*b);
        },
        Term::Difference(a, b) => {
            law_plain_test(*a);
            law_plain_test(*b);
        },
        Term::Sequence(a, b) => {
            law_plain_test(*a);
            law_plain_test(*b);
        },
        _ => {},
    }
}

/// A test stands for the same as any expression does, without names.
pub proof fn law_tested(t: Term)
    requires
        test_fragment(t),
    ensures
        tested(t) == expand(t, Scope::empty()),
    decreases t,
{
    match t {
        Term::Union(a, b) => {
            law_tested(*a);
            law_tested(*b);
        },
        Term::Intersect(a, b) => {
            law_tested(*a);
            law_tested(*b);
        },
        Term::Xor(a, b) => {
            law_tested(*a);
            law_tested(*b);
        },
        Term::Difference(a, b) => {
            law_tested(*a);
            law_tested(*b);
        },
        Term::Sequence(a, b) => {
            law_tested(*a);
            law_tested(*b);
        },
        Term::TestNegation(a) => {
            law_tested(*a);
            lemma_tested_plain(*a);
            if let Ok(x) = tested(*a) {
                law_plain_test(x);
            }
        },
        _ => {},
    }
}

/// What an expression stands for has no reversed ranges.
pub proof fn lemma_expand_ordered(t: Term, s: Scope)
    requires
        ranges_ok(t),
        s.ordered(),
    ensures
        expand(t, s) matches Ok(u) ==> ranges_ok(u),
    decreases t,
{
    match t {
        Term::VarAssign(x, bits) => lemma_named_ranges(s, x, bits, true),
        Term::VarTest(x, bits) => lemma_named_ranges(s, x, bits, false),
        Term::BitRangeAssign(f, g, bits) => lemma_bits_ranges(f, g, bits, true),
        Term::BitRangeTest(f, g, bits) => lemma_bits_ranges(f, g, bits, false),
        Term::BitRangeMatch(f, g, pat) => lemma_pattern_ranges(f, g, pat),
        Term::VarMatch(x, pat) => {
            if s.ranges.contains_key(x) {
                lemma_pattern_ranges(s.ranges[x].0, s.ranges[x].1, pat);
            }
        },
        Term::Union(a, b) => {
            lemma_expand_ordered(*a, s);
            lemma_expand_ordered(*b, s);
        },
        Term::Intersect(a, b) => {
            lemma_expand_ordered(*a, s);
            lemma_expand_ordered(*b, s);
        },
        Term::Xor(a, b) => {
            lemma_expand_ordered(*a, s);
            lemma_expand_ordered(*b, s);
        },
        Term::Difference(a, b) => {
            lemma_expand_ordered(*a, s);
            lemma_expand_ordered(*b, s);
        },
        Term::Sequence(a, b) => {
            lemma_expand_ordered(*a, s);
            lemma_expand_ordered(*b, s);
        },
        Term::LtlUntil(a, b) => {
            lemma_expand_ordered(*a, s);
            lemma_expand_ordered(*b, s);
        },
        Term::Complement(a) => lemma_expand_ordered(*a, s),
        Term::Star(a) => lemma_expand_ordered(*a, s),
        Term::LtlNext(a) => lemma_expand_ordered(*a, s),
        Term::TestNegation(a) => {
            if let Ok(x) = expand(*a, s) {
                if test_fragment(x) {
                    lemma_negated_ranges(x);
                }
            }
        },
        Term::IfThenElse(a, b, c) => {
            lemma_expand_ordered(*a, s);
            lemma_expand_ordered(*b, s);
            lemma_expand_ordered(*c, s);
            if let (Ok(x), Ok(y), Ok(z)) = (expand(*a, s), expand(*b, s), expand(*c, s)) {
                if test_fragment(x) {
                    lemma_negated_ranges(x);
                    if let Ok(w) = negated(x) {
                        reveal_with_fuel(ranges_ok, 3);
                    }
                }
            }
        },
        Term::Let(x, a, b) => {
            lemma_expand_ordered(*a, s);
            if let Ok(d) = expand(*a, s) {
                lemma_expand_ordered(*b, s.bind(x, d));
            }
        },
        Term::LetBitRange(x, f, g, b) => lemma_expand_ordered(*b, s.name(x, f, g)),
        _ => {},
    }
}

proof fn lemma_negated_ranges(t: Term)
    requires
        test_fragment(t),
    ensures
        negated(t) matches Ok(u) ==> ranges_ok(u),
{
    lemma_negated_plain(t);
    if let Ok(u) = negated(t) {
        lemma_core_ranges(u);
    }
}

proof fn lemma_bits_ranges(f: Field, g: Field, bits: Seq<bool>, assign: bool)
    ensures
        exact_bits(f, g, bits, assign) matches Ok(u) ==> ranges_ok(u),
{
    lemma_assign_core(f as int, bits);
    lemma_test_plain(f as int, bits);
    lemma_core_ranges(assign_term(f as int, bits));
    lemma_core_ranges(test_term(f as int, bits));
}

proof fn lemma_named_ranges(s: Scope, x: Seq<char>, bits: Seq<bool>, assign: bool)
    ensures
        named_bits(s, x, bits, assign) matches Ok(u) ==> ranges_ok(u),
{
    if s.ranges.contains_key(x) {
        let (f, g) = s.ranges[x];
        lemma_bits_ranges(f, g, widen(bits, (g - f) as nat), assign);
    }
}

proof fn lemma_pattern_ranges(f: Field, g: Field, pat: Pat)
    ensures
        match_term(f, g, pat) matches Ok(u) ==> ranges_ok(u),
{
    lemma_match_plain(f, g, pat);
    if let Ok(u) = match_term(f, g, pat) {
        lemma_core_ranges(u);
    }
}

proof fn lemma_tested_bounded(t: Term, n: nat, k: nat)
    requires
        test_fragment(t),
        ranges_ok(t),
        bounded(t, n, k),
        n <= u32::MAX,
    ensures
        tested(t) matches Ok(u) ==> bounded(u, n, k),
    decreases t,
{
    match t {
        Term::BitRangeTest(f, g, bits) => {
            if bits.len() == g - f {
                lemma_test_bounded(f as int, bits, n, k);
            }
        },
        Term::BitRangeMatch(f, g, pat) => lemma_match_bounded(f, g, pat, n, k),
        Term::Union(a, b) => {
            lemma_tested_bounded(*a, n, k);
            lemma_tested_bounded(*b, n, k);
        },
        Term::Intersect(a, b) => {
            lemma_tested_bounded(*a, n, k);
            lemma_tested_bounded(*b, n, k);
        },
        Term::Xor(a, b) => {
            lemma_tested_bounded(*a, n, k);
            lemma_tested_bounded(*b, n, k);
        },
        Term::Difference(a, b) => {
            lemma_tested_bounded(*a, n, k);
            lemma_tested_bounded(*b, n, k);
        },
        Term::Sequence(a, b) => {
            lemma_tested_bounded(*a, n, k);
            lemma_tested_bounded(*b, n, k);
        },
        Term::TestNegation(a) => {
            lemma_tested_bounded(*a, n, k);
            if let Ok(x) = tested(*a) {
                lemma_negation_bounded(x, n, k);
            }
        },
        _ => {},
    }
}

/// Negating a test adds no fields and no holes.
pub proof fn lemma_negated_bounded(t: Term, n: nat, k: nat)
    requires
        test_fragment(t),
        ranges_ok(t),
        bounded(t, n, k),
        n <= u32::MAX,
    ensures
        negated(t) matches Ok(u) ==> bounded(u, n, k),
    decreases t,
{
    reveal_with_fuel(bounded, 3);
    lemma_tested_bounded(t, n, k);
    match t {
        Term::Union(a, b) => {
            lemma_negated_bounded(*a, n, k);
            lemma_negated_bounded(*b, n, k);
            lemma_tested_bounded(*a, n, k);
            lemma_tested_bounded(*b, n, k);
        },
        Term::Intersect(a, b) => {
            lemma_negated_bounded(*a, n, k);
            lemma_negated_bounded(*b, n, k);
            lemma_tested_bounded(*a, n, k);
            lemma_tested_bounded(*b, n, k);
        },
        Term::Xor(a, b) => {
            lemma_negated_bounded(*a, n, k);
            lemma_negated_bounded(*b, n, k);
            lemma_tested_bounded(*a, n, k);
            lemma_tested_bounded(*b, n, k);
        },
        Term::Difference(a, b) => {
            lemma_negated_bounded(*a, n, k);
            lemma_negated_bounded(*b, n, k);
            lemma_tested_bounded(*a, n, k);
            lemma_tested_bounded(*b, n, k);
        },
        Term::Sequence(a, b) => {
            lemma_negated_bounded(*a, n, k);
            lemma_negated_bounded(*b, n, k);
            lemma_tested_bounded(*a, n, k);
            lemma_tested_bounded(*b, n, k);
        },
        Term::TestNegation(a) => lemma_tested_bounded(*a, n, k),
        _ => {
            if let Ok(x) = tested(t) {
                lemma_negation_bounded(x, n, k);
            }
        },
    }
}

} // verus!
