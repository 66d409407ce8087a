//! From surface syntax to core expressions.
//!
//! Desugaring resolves variables and range names, turns operations on bit
//! ranges into operations on single fields, and eliminates test negation with
//! De Morgan's laws.
use vstd::arithmetic::power2::*;
use vstd::prelude::*;
use vstd::string::*;
use crate::expr::fields_of;
use crate::expr::{is_core, passes, test_fragment, text_of, Exp, Expr, Pat, Pattern, Term};
use crate::negation::{
    lemma_core_ranges, lemma_expand_ordered, lemma_negated_bounded, lemma_negated_plain,
    lemma_tested_plain, plain_test,
};
use crate::pre::Field;
use crate::sp::Pkt;
use crate::text::{copy_bits, copy_text, decimal, join2, join3, join5, join7, join8, number};

verus! {

/// What names stand for: variables for expressions, range names for the fields
/// from the first to before the second.
pub struct Scope {
    pub vars: Map<Seq<char>, Term>,
    pub ranges: Map<Seq<char>, (Field, Field)>,
}

impl Scope {
    /// Every bound expression is without sugar, and no range is reversed.
    pub open spec fn ok(self) -> bool {
        &&& forall|x: Seq<char>| #[trigger] self.vars.contains_key(x) ==> is_core(self.vars[x])
        &&& forall|x: Seq<char>| #[trigger]
            self.ranges.contains_key(x) ==> self.ranges[x].0 <= self.ranges[x].1
    }

    /// No range is reversed, among the names and in the bound expressions.
    pub open spec fn ordered(self) -> bool {
        &&& forall|x: Seq<char>| #[trigger] self.vars.contains_key(x) ==> ranges_ok(self.vars[x])
        &&& forall|x: Seq<char>| #[trigger]
            self.ranges.contains_key(x) ==> self.ranges[x].0 <= self.ranges[x].1
    }

    /// The scope in which `x` stands for `t`.
    pub open spec fn bind(self, x: Seq<char>, t: Term) -> Scope {
        Scope { vars: self.vars.insert(x, t), ranges: self.ranges }
    }

    /// The scope in which `x` names the fields from `start` to before `end`.
    pub open spec fn name(self, x: Seq<char>, start: Field, end: Field) -> Scope {
        Scope { vars: self.vars, ranges: self.ranges.insert(x, (start, end)) }
    }

    /// The scope without names.
    pub open spec fn empty() -> Scope {
        Scope { vars: Map::empty(), ranges: Map::empty() }
    }
}

/// No bit range in the expression is reversed.
pub open spec fn ranges_ok(t: Term) -> bool
    decreases t,
{
    match t {
        Term::Union(a, b) => ranges_ok(*a) && ranges_ok(*b),
        Term::Intersect(a, b) => ranges_ok(*a) && ranges_ok(*b),
        Term::Xor(a, b) => ranges_ok(*a) && ranges_ok(*b),
        Term::Difference(a, b) => ranges_ok(*a) && ranges_ok(*b),
        Term::Sequence(a, b) => ranges_ok(*a) && ranges_ok(*b),
        Term::LtlUntil(a, b) => ranges_ok(*a) && ranges_ok(*b),
        Term::Complement(a) => ranges_ok(*a),
        Term::Star(a) => ranges_ok(*a),
        Term::LtlNext(a) => ranges_ok(*a),
        Term::TestNegation(a) => ranges_ok(*a),
        Term::IfThenElse(a, b, c) => ranges_ok(*a) && ranges_ok(*b) && ranges_ok(*c),
        Term::Let(_, a, b) => ranges_ok(*a) && ranges_ok(*b),
        Term::LetBitRange(_, f, g, a) => f <= g && ranges_ok(*a),
        Term::BitRangeAssign(f, g, _) => f <= g,
        Term::BitRangeTest(f, g, _) => f <= g,
        Term::BitRangeMatch(f, g, _) => f <= g,
        _ => true,
    }
}

// ---- messages ------------------------------------------------------------------

pub open spec fn width_mismatch_msg(bits: nat, alias: Seq<char>, expected: nat) -> Seq<char> {
    "Bit width mismatch: value has "@ + decimal(bits) + " bits but alias '"@ + alias + "' expects "@ + decimal(expected) + " bits"@
}

fn width_mismatch(bits: usize, alias: &str, expected: usize) -> (m: String)
    ensures
        m@ == width_mismatch_msg(bits as nat, alias@, expected as nat),
{
    join7("Bit width mismatch: value has ", number(bits).as_str(), " bits but alias '", alias, "' expects ", number(expected).as_str(), " bits")
}

pub open spec fn unknown_in_assignment_msg(alias: Seq<char>) -> Seq<char> {
    "Unknown alias '"@ + alias + "' in assignment"@
}

fn unknown_in_assignment(alias: &str) -> (m: String)
    ensures
        m@ == unknown_in_assignment_msg(alias@),
{
    join3("Unknown alias '", alias, "' in assignment")
}

pub open spec fn unknown_in_test_msg(alias: Seq<char>) -> Seq<char> {
    "Unknown alias '"@ + alias + "' in test"@
}

fn unknown_in_test(alias: &str) -> (m: String)
    ensures
        m@ == unknown_in_test_msg(alias@),
{
    join3("Unknown alias '", alias, "' in test")
}

pub open spec fn unknown_in_match_msg(alias: Seq<char>) -> Seq<char> {
    "Unknown alias '"@ + alias + "' in pattern match"@
}

fn unknown_in_match(alias: &str) -> (m: String)
    ensures
        m@ == unknown_in_match_msg(alias@),
{
    join3("Unknown alias '", alias, "' in pattern match")
}

pub open spec fn not_a_test_msg(text: Seq<char>) -> Seq<char> {
    "Test negation (!) can only be applied to test fragment expressions, but was applied to: "@ + text
}

fn not_a_test(text: &str) -> (m: String)
    ensures
        m@ == not_a_test_msg(text@),
{
    join2("Test negation (!) can only be applied to test fragment expressions, but was applied to: ", text)
}

pub open spec fn not_a_condition_msg(text: Seq<char>) -> Seq<char> {
    "If-then-else condition must be a test fragment expression, but got: "@ + text
}

fn not_a_condition(text: &str) -> (m: String)
    ensures
        m@ == not_a_condition_msg(text@),
{
    join2("If-then-else condition must be a test fragment expression, but got: ", text)
}

pub open spec fn named_match_msg(name: Seq<char>) -> Seq<char> {
    "Cannot negate pattern match with variable '"@ + name + "' - variables must be resolved before negation"@
}

fn named_match(name: &str) -> (m: String)
    ensures
        m@ == named_match_msg(name@),
{
    join3("Cannot negate pattern match with variable '", name, "' - variables must be resolved before negation")
}

pub open spec fn named_test_msg(name: Seq<char>) -> Seq<char> {
    "Cannot negate test with variable '"@ + name + "' - variables must be resolved before negation"@
}

fn named_test(name: &str) -> (m: String)
    ensures
        m@ == named_test_msg(name@),
{
    join3("Cannot negate test with variable '", name, "' - variables must be resolved before negation")
}

pub open spec fn bare_alias_msg(name: Seq<char>) -> Seq<char> {
    "Bit range alias '"@ + name + "' must be used with assignment (:=) or test (==) operations"@
}

fn bare_alias(name: &str) -> (m: String)
    ensures
        m@ == bare_alias_msg(name@),
{
    join3("Bit range alias '", name, "' must be used with assignment (:=) or test (==) operations")
}

pub open spec fn unbound_msg(name: Seq<char>) -> Seq<char> {
    "Unbound variable: "@ + name
}

fn unbound(name: &str) -> (m: String)
    ensures
        m@ == unbound_msg(name@),
{
    join2("Unbound variable: ", name)
}

pub open spec fn range_width_msg(start: nat, end: nat, expected: nat, got: nat) -> Seq<char> {
    "Bit range ["@ + decimal(start) + ", "@ + decimal(end) + ") expects "@ + decimal(expected) + " bits, but got "@ + decimal(got)
}

fn range_width(start: usize, end: usize, expected: usize, got: usize) -> (m: String)
    ensures
        m@ == range_width_msg(start as nat, end as nat, expected as nat, got as nat),
{
    join8("Bit range [", number(start).as_str(), ", ", number(end).as_str(), ") expects ", number(expected).as_str(), " bits, but got ", number(got).as_str())
}

pub open spec fn pattern_too_wide_msg(bits: nat, width: nat) -> Seq<char> {
    "Pattern has "@ + decimal(bits) + " bits but field has only "@ + decimal(width) + " bits"@
}

fn pattern_too_wide(bits: usize, width: usize) -> (m: String)
    ensures
        m@ == pattern_too_wide_msg(bits as nat, width as nat),
{
    join5("Pattern has ", number(bits).as_str(), " bits but field has only ", number(width).as_str(), " bits")
}

pub open spec fn prefix_too_long_msg(prefix: nat, width: nat) -> Seq<char> {
    "CIDR prefix length "@ + decimal(prefix) + " exceeds bit range width "@ + decimal(width) + ""@
}

fn prefix_too_long(prefix: usize, width: usize) -> (m: String)
    ensures
        m@ == prefix_too_long_msg(prefix as nat, width as nat),
{
    join5("CIDR prefix length ", number(prefix).as_str(), " exceeds bit range width ", number(width).as_str(), "")
}

pub open spec fn cidr_width_msg(bits: nat, width: nat) -> Seq<char> {
    "CIDR address has "@ + decimal(bits) + " bits but range expects "@ + decimal(width) + " bits"@
}

fn cidr_width(bits: usize, width: usize) -> (m: String)
    ensures
        m@ == cidr_width_msg(bits as nat, width as nat),
{
    join5("CIDR address has ", number(bits).as_str(), " bits but range expects ", number(width).as_str(), " bits")
}

pub open spec fn wildcard_width_msg(width: nat, address: nat, mask: nat) -> Seq<char> {
    "Wildcard pattern expects "@ + decimal(width) + " bits but got address="@ + decimal(address) + " bits, mask="@ + decimal(mask) + " bits"@
}

fn wildcard_width(width: usize, address: usize, mask: usize) -> (m: String)
    ensures
        m@ == wildcard_width_msg(width as nat, address as nat, mask as nat),
{
    join7("Wildcard pattern expects ", number(width).as_str(), " bits but got address=", number(address).as_str(), " bits, mask=", number(mask).as_str(), " bits")
}

pub open spec fn range_pattern_width_msg(width: nat, start: nat, end: nat) -> Seq<char> {
    "IP range pattern expects "@ + decimal(width) + " bits but got start="@ + decimal(start) + " bits, end="@ + decimal(end) + " bits"@
}

fn range_pattern_width(width: usize, start: usize, end: usize) -> (m: String)
    ensures
        m@ == range_pattern_width_msg(width as nat, start as nat, end as nat),
{
    join7("IP range pattern expects ", number(width).as_str(), " bits but got start=", number(start).as_str(), " bits, end=", number(end).as_str(), " bits")
}

pub open spec fn range_reversed_msg() -> Seq<char> {
    "Invalid range: start is greater than end"@
}

fn range_reversed() -> (m: String)
    ensures
        m@ == range_reversed_msg(),
{
    String::from_str("Invalid range: start is greater than end")
}

pub open spec fn range_too_wide_msg() -> Seq<char> {
    "Bit vector too large for range comparison (max 128 bits)"@
}

fn range_too_wide() -> (m: String)
    ensures
        m@ == range_too_wide_msg(),
{
    String::from_str("Bit vector too large for range comparison (max 128 bits)")
}

// ---- ranges of fields ------------------------------------------------------------

/// The number that bits denote, least significant first.
pub open spec fn value(bits: Seq<bool>) -> nat
    decreases bits.len(),
{
    if bits.len() == 0 {
        0
    } else {
        (if bits[0] {
            1nat
        } else {
            0nat
        }) + 2 * value(bits.drop_first())
    }
}

/// The bits of `p` in the `len` fields from `start`.
pub open spec fn window(p: Pkt, start: int, len: int) -> Seq<bool> {
    p.subrange(start, start + len)
}

/// `bits` with zeros added above, to `width` bits.
pub open spec fn widen(bits: Seq<bool>, width: nat) -> Seq<bool> {
    bits + Seq::new((width - bits.len()) as nat, |i: int| false)
}

/// Assigns `bits` to the fields from `start`, one after the other.
pub open spec fn assign_term(start: int, bits: Seq<bool>) -> Term
    decreases bits.len(),
{
    if bits.len() == 0 {
        Term::One
    } else if bits.len() == 1 {
        Term::Assign(start as u32, bits[0])
    } else {
        Term::Sequence(
            Box::new(Term::Assign(start as u32, bits[0])),
            Box::new(assign_term(start + 1, bits.drop_first())),
        )
    }
}

/// Tests the fields from `start` for `bits`.
pub open spec fn test_term(start: int, bits: Seq<bool>) -> Term
    decreases bits.len(),
{
    if bits.len() == 0 {
        Term::One
    } else if bits.len() == 1 {
        Term::Test(start as u32, bits[0])
    } else {
        Term::Intersect(
            Box::new(Term::Test(start as u32, bits[0])),
            Box::new(test_term(start + 1, bits.drop_first())),
        )
    }
}

/// The conjunction of tests, to the right.
pub open spec fn conj(ts: Seq<Term>) -> Term
    decreases ts.len(),
{
    if ts.len() == 0 {
        Term::One
    } else if ts.len() == 1 {
        ts[0]
    } else {
        Term::Intersect(Box::new(ts[0]), Box::new(conj(ts.drop_first())))
    }
}

/// The disjunction of tests, to the right.
pub open spec fn disj(ts: Seq<Term>) -> Term
    decreases ts.len(),
{
    if ts.len() == 0 {
        Term::Zero
    } else if ts.len() == 1 {
        ts[0]
    } else {
        Term::Union(Box::new(ts[0]), Box::new(disj(ts.drop_first())))
    }
}

/// The tests for the bits of `bound` from the highest down to bit `i`.
pub open spec fn high_tests(start: int, bound: Seq<bool>, i: int) -> Seq<Term>
    decreases bound.len() - i,
{
    if i >= bound.len() {
        Seq::empty()
    } else {
        high_tests(start, bound, i + 1).push(Term::Test((start + i) as u32, bound[i]))
    }
}

/// For every bit of `bound` that is `flag`, from the highest down to bit `i`:
/// the numbers that agree with `bound` above the bit and differ at it.
pub open spec fn bound_terms(start: int, bound: Seq<bool>, flag: bool, i: int) -> Seq<Term>
    decreases bound.len() - i,
{
    if i >= bound.len() {
        Seq::empty()
    } else {
        let above = bound_terms(start, bound, flag, i + 1);
        if bound[i] == flag {
            above.push(
                conj(high_tests(start, bound, i + 1).push(Term::Test((start + i) as u32, !flag))),
            )
        } else {
            above
        }
    }
}

/// The numbers that are at most `bound` (`flag` is on), or at least `bound`.
pub open spec fn bound_term(start: int, bound: Seq<bool>, flag: bool) -> Term {
    if bound.len() == 0 {
        Term::Zero
    } else {
        disj(bound_terms(start, bound, flag, 0).push(conj(high_tests(start, bound, 0))))
    }
}

/// The tests for the bits of `address` from bit `i` on where `mask` is off.
pub open spec fn masked_tests(start: int, address: Seq<bool>, mask: Seq<bool>, i: int) -> Seq<Term>
    decreases i,
{
    if i <= 0 {
        Seq::empty()
    } else {
        let below = masked_tests(start, address, mask, i - 1);
        if mask[i - 1] {
            below
        } else {
            below.push(Term::Test((start + i - 1) as u32, address[i - 1]))
        }
    }
}

pub open spec fn all_on(bits: Seq<bool>) -> bool {
    forall|i: int| 0 <= i < bits.len() ==> #[trigger] bits[i]
}

/// The values from `lo` to `hi`, which have `width` bits.
pub open spec fn between_term(start: int, lo: Seq<bool>, hi: Seq<bool>) -> Result<Term, Seq<char>> {
    if lo.len() > 128 {
        Err(range_too_wide_msg())
    } else if value(lo) > value(hi) {
        Err(range_reversed_msg())
    } else if value(lo) == value(hi) {
        Ok(test_term(start, lo))
    } else if value(lo) == 0 && all_on(hi) {
        Ok(Term::One)
    } else if value(lo) == 0 {
        Ok(bound_term(start, hi, true))
    } else if all_on(hi) {
        Ok(bound_term(start, lo, false))
    } else {
        Ok(
            Term::Intersect(
                Box::new(bound_term(start, lo, false)),
                Box::new(bound_term(start, hi, true)),
            ),
        )
    }
}

/// The test for a pattern on the fields from `start` to before `end`.
pub open spec fn match_term(start: Field, end: Field, pat: Pat) -> Result<Term, Seq<char>> {
    let width = (end - start) as nat;
    match pat {
        Pat::Exact(bits) => if bits.len() > width {
            Err(pattern_too_wide_msg(bits.len(), width))
        } else {
            Ok(test_term(start as int, widen(bits, width)))
        },
        Pat::Cidr(address, prefix) => if prefix > width {
            Err(prefix_too_long_msg(prefix, width))
        } else if address.len() != width {
            Err(cidr_width_msg(address.len(), width))
        } else {
            Ok(
                test_term(
                    start + width - prefix,
                    address.subrange(width - prefix, width as int),
                ),
            )
        },
        Pat::Wildcard(address, mask) => if address.len() != width || mask.len() != width {
            Err(wildcard_width_msg(width, address.len(), mask.len()))
        } else {
            Ok(conj(masked_tests(start as int, address, mask, width as int)))
        },
        Pat::IpRange(lo, hi) => if lo.len() < width && hi.len() < width {
            between_term(start as int, widen(lo, width), widen(hi, width))
        } else if lo.len() == width && hi.len() == width {
            between_term(start as int, lo, hi)
        } else {
            Err(range_pattern_width_msg(width, lo.len(), hi.len()))
        },
    }
}

/// The bits on the fields from `start` to before `end`, if they are as many.
pub open spec fn exact_bits(
    start: Field,
    end: Field,
    bits: Seq<bool>,
    assign: bool,
) -> Result<Term, Seq<char>> {
    if bits.len() != end - start {
        Err(range_width_msg(start as nat, end as nat, (end - start) as nat, bits.len()))
    } else if assign {
        Ok(assign_term(start as int, bits))
    } else {
        Ok(test_term(start as int, bits))
    }
}

/// The bits on the fields that `x` names.
pub open spec fn named_bits(
    s: Scope,
    x: Seq<char>,
    bits: Seq<bool>,
    assign: bool,
) -> Result<Term, Seq<char>> {
    if !s.ranges.contains_key(x) {
        Err(
            if assign {
                unknown_in_assignment_msg(x)
            } else {
                unknown_in_test_msg(x)
            },
        )
    } else {
        let (start, end) = s.ranges[x];
        if bits.len() > end - start {
            Err(width_mismatch_msg(bits.len(), x, (end - start) as nat))
        } else {
            exact_bits(start, end, widen(bits, (end - start) as nat), assign)
        }
    }
}

/// The negation of a test, by De Morgan's laws.
pub open spec fn negation(t: Term) -> Term
    decreases t,
{
    match t {
        Term::Zero => Term::One,
        Term::One => Term::Zero,
        Term::Test(f, v) => Term::Test(f, !v),
        Term::Union(a, b) => Term::Intersect(Box::new(negation(*a)), Box::new(negation(*b))),
        Term::Intersect(a, b) => Term::Union(Box::new(negation(*a)), Box::new(negation(*b))),
        Term::Sequence(a, b) => Term::Union(Box::new(negation(*a)), Box::new(negation(*b))),
        Term::Xor(a, b) => Term::Union(
            Box::new(Term::Intersect(Box::new(negation(*a)), Box::new(negation(*b)))),
            Box::new(Term::Intersect(a, b)),
        ),
        Term::Difference(a, b) => Term::Union(Box::new(negation(*a)), b),
        _ => t,
    }
}

/// Both of the two, or the first message.
pub open spec fn both(a: Result<Term, Seq<char>>, b: Result<Term, Seq<char>>) -> Result<
    (Term, Term),
    Seq<char>,
> {
    match a {
        Err(m) => Err(m),
        Ok(x) => match b {
            Err(m) => Err(m),
            Ok(y) => Ok((x, y)),
        },
    }
}

/// The core expression that a test stands for without names.
pub open spec fn tested(t: Term) -> Result<Term, Seq<char>>
    decreases t,
{
    match t {
        Term::VarTest(x, _) => Err(unknown_in_test_msg(x)),
        Term::VarMatch(x, _) => Err(unknown_in_match_msg(x)),
        Term::BitRangeTest(f, g, bits) => exact_bits(f, g, bits, false),
        Term::BitRangeMatch(f, g, pat) => match_term(f, g, pat),
        Term::Union(a, b) => match both(tested(*a), tested(*b)) {
            Err(m) => Err(m),
            Ok((x, y)) => Ok(Term::Union(Box::new(x), Box::new(y))),
        },
        Term::Intersect(a, b) => match both(tested(*a), tested(*b)) {
            Err(m) => Err(m),
            Ok((x, y)) => Ok(Term::Intersect(Box::new(x), Box::new(y))),
        },
        Term::Xor(a, b) => match both(tested(*a), tested(*b)) {
            Err(m) => Err(m),
            Ok((x, y)) => Ok(Term::Xor(Box::new(x), Box::new(y))),
        },
        Term::Difference(a, b) => match both(tested(*a), tested(*b)) {
            Err(m) => Err(m),
            Ok((x, y)) => Ok(Term::Difference(Box::new(x), Box::new(y))),
        },
        Term::Sequence(a, b) => match both(tested(*a), tested(*b)) {
            Err(m) => Err(m),
            Ok((x, y)) => Ok(Term::Sequence(Box::new(x), Box::new(y))),
        },
        Term::TestNegation(a) => match tested(*a) {
            Err(m) => Err(m),
            Ok(x) => Ok(negation(x)),
        },
        _ => Ok(t),
    }
}

/// The negation of a test that can have sugar.  Names cannot be resolved in it.
pub open spec fn negated(t: Term) -> Result<Term, Seq<char>>
    decreases t,
{
    match t {
        Term::Zero => Ok(Term::One),
        Term::One => Ok(Term::Zero),
        Term::Test(f, v) => Ok(Term::Test(f, !v)),
        Term::VarTest(x, _) => Err(named_test_msg(x)),
        Term::VarMatch(x, _) => Err(named_match_msg(x)),
        Term::BitRangeTest(_, _, _) | Term::BitRangeMatch(_, _, _) => match tested(t) {
            Err(m) => Err(m),
            Ok(x) => Ok(negation(x)),
        },
        Term::Union(a, b) => match both(negated(*a), negated(*b)) {
            Err(m) => Err(m),
            Ok((x, y)) => Ok(Term::Intersect(Box::new(x), Box::new(y))),
        },
        Term::Intersect(a, b) => match both(negated(*a), negated(*b)) {
            Err(m) => Err(m),
            Ok((x, y)) => Ok(Term::Union(Box::new(x), Box::new(y))),
        },
        Term::Sequence(a, b) => match both(negated(*a), negated(*b)) {
            Err(m) => Err(m),
            Ok((x, y)) => Ok(Term::Union(Box::new(x), Box::new(y))),
        },
        Term::Xor(a, b) => match both(negated(*a), negated(*b)) {
            Err(m) => Err(m),
            Ok((x, y)) => match both(tested(*a), tested(*b)) {
                Err(m) => Err(m),
                Ok((d, e)) => Ok(
                    Term::Union(
                        Box::new(Term::Intersect(Box::new(x), Box::new(y))),
                        Box::new(Term::Intersect(Box::new(d), Box::new(e))),
                    ),
                ),
            },
        },
        Term::Difference(a, b) => match both(negated(*a), tested(*b)) {
            Err(m) => Err(m),
            Ok((x, y)) => Ok(Term::Union(Box::new(x), Box::new(y))),
        },
        Term::TestNegation(a) => tested(*a),
        _ => Ok(t),
    }
}

/// The expression that `t` stands for in scope `s`, or the message of the first error.
/// Where the scope is without sugar, so is the expression.
pub open spec fn expand(t: Term, s: Scope) -> Result<Term, Seq<char>>
    decreases t,
{
    match t {
        Term::Zero | Term::One | Term::Top | Term::Dup | Term::End => Ok(t),
        Term::Hole(_) => Ok(t),
        Term::Assign(_, _) => Ok(t),
        Term::Test(_, _) => Ok(t),
        Term::VarAssign(x, bits) => named_bits(s, x, bits, true),
        Term::VarTest(x, bits) => named_bits(s, x, bits, false),
        Term::BitRangeAssign(f, g, bits) => exact_bits(f, g, bits, true),
        Term::BitRangeTest(f, g, bits) => exact_bits(f, g, bits, false),
        Term::BitRangeMatch(f, g, pat) => match_term(f, g, pat),
        Term::VarMatch(x, pat) => if s.ranges.contains_key(x) {
            match_term(s.ranges[x].0, s.ranges[x].1, pat)
        } else {
            Err(unknown_in_match_msg(x))
        },
        Term::Union(a, b) => match expand(*a, s) {
            Err(m) => Err(m),
            Ok(x) => match expand(*b, s) {
                Err(m) => Err(m),
                Ok(y) => Ok(Term::Union(Box::new(x), Box::new(y))),
            },
        },
        Term::Intersect(a, b) => match expand(*a, s) {
            Err(m) => Err(m),
            Ok(x) => match expand(*b, s) {
                Err(m) => Err(m),
                Ok(y) => Ok(Term::Intersect(Box::new(x), Box::new(y))),
            },
        },
        Term::Xor(a, b) => match expand(*a, s) {
            Err(m) => Err(m),
            Ok(x) => match expand(*b, s) {
                Err(m) => Err(m),
                Ok(y) => Ok(Term::Xor(Box::new(x), Box::new(y))),
            },
        },
        Term::Difference(a, b) => match expand(*a, s) {
            Err(m) => Err(m),
            Ok(x) => match expand(*b, s) {
                Err(m) => Err(m),
                Ok(y) => Ok(Term::Difference(Box::new(x), Box::new(y))),
            },
        },
        Term::Sequence(a, b) => match expand(*a, s) {
            Err(m) => Err(m),
            Ok(x) => match expand(*b, s) {
                Err(m) => Err(m),
                Ok(y) => Ok(Term::Sequence(Box::new(x), Box::new(y))),
            },
        },
        Term::LtlUntil(a, b) => match expand(*a, s) {
            Err(m) => Err(m),
            Ok(x) => match expand(*b, s) {
                Err(m) => Err(m),
                Ok(y) => Ok(Term::LtlUntil(Box::new(x), Box::new(y))),
            },
        },
        Term::Complement(a) => match expand(*a, s) {
            Err(m) => Err(m),
            Ok(x) => Ok(Term::Complement(Box::new(x))),
        },
        Term::Star(a) => match expand(*a, s) {
            Err(m) => Err(m),
            Ok(x) => Ok(Term::Star(Box::new(x))),
        },
        Term::LtlNext(a) => match expand(*a, s) {
            Err(m) => Err(m),
            Ok(x) => Ok(Term::LtlNext(Box::new(x))),
        },
        Term::TestNegation(a) => match expand(*a, s) {
            Err(m) => Err(m),
            Ok(x) => if test_fragment(x) {
                negated(x)
            } else {
                Err(not_a_test_msg(text_of(*a)))
            },
        },
        Term::IfThenElse(a, b, c) => match expand(*a, s) {
            Err(m) => Err(m),
            Ok(x) => match expand(*b, s) {
                Err(m) => Err(m),
                Ok(y) => match expand(*c, s) {
                    Err(m) => Err(m),
                    Ok(z) => if test_fragment(x) {
                        match negated(x) {
                            Err(m) => Err(m),
                            Ok(w) => Ok(
                                Term::Union(
                                    Box::new(Term::Sequence(Box::new(x), Box::new(y))),
                                    Box::new(Term::Sequence(Box::new(w), Box::new(z))),
                                ),
                            ),
                        }
                    } else {
                        Err(not_a_condition_msg(text_of(*a)))
                    },
                },
            },
        },
        Term::Let(x, a, b) => match expand(*a, s) {
            Err(m) => Err(m),
            Ok(d) => expand(*b, s.bind(x, d)),
        },
        Term::LetBitRange(x, f, g, b) => expand(*b, s.name(x, f, g)),
        Term::Var(x) => if s.vars.contains_key(x) {
            Ok(s.vars[x])
        } else if s.ranges.contains_key(x) {
            Err(bare_alias_msg(x))
        } else {
            Err(unbound_msg(x))
        },
    }
}

// ---- the environment -------------------------------------------------------------

/// The variables that a list of bindings binds; later ones win.
spec fn bound_vars(bs: Seq<(String, Exp)>) -> Map<Seq<char>, Term>
    decreases bs.len(),
{
    if bs.len() == 0 {
        Map::empty()
    } else {
        bound_vars(bs.drop_last()).insert(bs.last().0@, bs.last().1@)
    }
}

/// The ranges that a list of bindings names; later ones win.
spec fn bound_ranges(bs: Seq<(String, (Field, Field))>) -> Map<Seq<char>, (Field, Field)>
    decreases bs.len(),
{
    if bs.len() == 0 {
        Map::empty()
    } else {
        bound_ranges(bs.drop_last()).insert(bs.last().0@, bs.last().1)
    }
}

/// Variable bindings and range names.
#[derive(Debug)]
pub struct DesugarEnv {
    variables: Vec<(String, Exp)>,
    ranges: Vec<(String, (Field, Field))>,
}

/// Why an expression cannot be desugared.
#[derive(Debug, Clone)]
pub struct DesugarError {
    pub message: String,
}

impl Default for DesugarEnv {
    fn default() -> (e: DesugarEnv)
        ensures
            e@ == Scope::empty(),
    {
        DesugarEnv::new()
    }
}

impl View for DesugarEnv {
    type V = Scope;

    closed spec fn view(&self) -> Scope {
        Scope { vars: bound_vars(self.variables@), ranges: bound_ranges(self.ranges@) }
    }
}

impl DesugarEnv {
    /// An environment without names.
    pub fn new() -> (e: DesugarEnv)
        ensures
            e@ == Scope::empty(),
    {
        DesugarEnv { variables: Vec::new(), ranges: Vec::new() }
    }

    /// Let `name` stand for `expr`.
    pub fn add_variable(&mut self, name: String, expr: Exp)
        ensures
            final(self)@ == old(self)@.bind(name@, expr@),
    {
        self.variables.push((name, expr));
        assert(self.variables@.drop_last() =~= old(self).variables@);
    }

    /// Let `alias` name the fields from `start` to before `end`.
    pub fn add_alias(&mut self, alias: String, start: Field, end: Field)
        ensures
            final(self)@ == old(self)@.name(alias@, start, end),
    {
        self.ranges.push((alias, (start, end)));
        assert(self.ranges@.drop_last() =~= old(self).ranges@);
    }

    /// What the variable stands for, if it is bound.
    pub fn lookup_variable(&self, name: &str) -> (r: Option<&Exp>)
        ensures
            match r {
                Some(e) => self@.vars.contains_key(name@) && self@.vars[name@] == e@,
                None => !self@.vars.contains_key(name@),
            },
    {
        let wanted = String::from_str(name);
        let mut i: usize = self.variables.len();
        assert(self.variables@.take(i as int) =~= self.variables@);
        while i > 0
            invariant
                i <= self.variables@.len(),
                wanted@ == name@,
                self@.vars.contains_key(name@) == bound_vars(
                    self.variables@.take(i as int),
                ).contains_key(name@),
                self@.vars[name@] == bound_vars(self.variables@.take(i as int))[name@],
            decreases i,
        {
            i = i - 1;
            proof {
                let bs = self.variables@.take(i + 1);
                assert(bs.drop_last() =~= self.variables@.take(i as int));
                assert(bs.last() == self.variables@[i as int]);
            }
            if self.variables[i].0 == wanted {
                return Some(&self.variables[i].1);
            }
        }
        None
    }

    /// The fields that the alias names, if it names any.
    pub fn lookup_alias(&self, alias: &str) -> (r: Option<(Field, Field)>)
        ensures
            match r {
                Some(fg) => self@.ranges.contains_key(alias@) && self@.ranges[alias@] == fg,
                None => !self@.ranges.contains_key(alias@),
            },
    {
        let wanted = String::from_str(alias);
        let mut i: usize = self.ranges.len();
        assert(self.ranges@.take(i as int) =~= self.ranges@);
        while i > 0
            invariant
                i <= self.ranges@.len(),
                wanted@ == alias@,
                self@.ranges.contains_key(alias@) == bound_ranges(
                    self.ranges@.take(i as int),
                ).contains_key(alias@),
                self@.ranges[alias@] == bound_ranges(self.ranges@.take(i as int))[alias@],
            decreases i,
        {
            i = i - 1;
            proof {
                let bs = self.ranges@.take(i + 1);
                assert(bs.drop_last() =~= self.ranges@.take(i as int));
                assert(bs.last() == self.ranges@[i as int]);
            }
            if self.ranges[i].0 == wanted {
                return Some(self.ranges[i].1);
            }
        }
        None
    }

    /// The fields that are numbered `sub_start` to before `sub_end` within the
    /// fields of the alias, if the alias is known and has that many.
    pub fn compute_subrange(&self, alias: &str, sub_start: Field, sub_end: Field) -> (r: Option<
        (Field, Field),
    >)
        requires
            self@.ranges.contains_key(alias@) ==> self@.ranges[alias@].0 + sub_start <= u32::MAX
                && self@.ranges[alias@].0 + sub_end <= u32::MAX,
        ensures
            r == (if self@.ranges.contains_key(alias@) && self@.ranges[alias@].0 + sub_end
                <= self@.ranges[alias@].1 {
                Some(
                    (
                        (self@.ranges[alias@].0 + sub_start) as u32,
                        (self@.ranges[alias@].0 + sub_end) as u32,
                    ),
                )
            } else {
                None
            }),
    {
        if let Some((alias_start, alias_end)) = self.lookup_alias(alias) {
            let actual_start: u32 = alias_start + sub_start;
            let actual_end: u32 = alias_start + sub_end;
            if actual_end <= alias_end {
                Some((actual_start, actual_end))
            } else {
                None
            }
        } else {
            None
        }
    }

    /// An environment with the same names.
    pub fn copy(&self) -> (r: DesugarEnv)
        ensures
            r@ == self@,
    {
        let mut variables: Vec<(String, Exp)> = Vec::new();
        let mut i: usize = 0;
        while i < self.variables.len()
            invariant
                i <= self.variables@.len(),
                variables@.len() == i,
                bound_vars(variables@) == bound_vars(self.variables@.take(i as int)),
            decreases self.variables.len() - i,
        {
            let ghost v0 = variables@;
            variables.push(
                (copy_text(&self.variables[i].0), Box::new(self.variables[i].1.copy())),
            );
            proof {
                assert(variables@.drop_last() =~= v0);
                let bs = self.variables@.take(i + 1);
                assert(bs.drop_last() =~= self.variables@.take(i as int));
                assert(bs.last() == self.variables@[i as int]);
            }
            i = i + 1;
        }
        assert(self.variables@.take(i as int) =~= self.variables@);
        let mut ranges: Vec<(String, (Field, Field))> = Vec::new();
        let mut j: usize = 0;
        while j < self.ranges.len()
            invariant
                j <= self.ranges@.len(),
                ranges@.len() == j,
                bound_ranges(ranges@) == bound_ranges(self.ranges@.take(j as int)),
            decreases self.ranges.len() - j,
        {
            let ghost v0 = ranges@;
            ranges.push((copy_text(&self.ranges[j].0), self.ranges[j].1));
            proof {
                assert(ranges@.drop_last() =~= v0);
                let bs = self.ranges@.take(j + 1);
                assert(bs.drop_last() =~= self.ranges@.take(j as int));
                assert(bs.last() == self.ranges@[j as int]);
            }
            j = j + 1;
        }
        assert(self.ranges@.take(j as int) =~= self.ranges@);
        DesugarEnv { variables, ranges }
    }

    /// This environment, with one more variable.
    pub fn with_variable(&self, name: String, expr: Exp) -> (r: DesugarEnv)
        ensures
            r@ == self@.bind(name@, expr@),
    {
        let mut new_env = self.copy();
        new_env.add_variable(name, expr);
        new_env
    }

    /// This environment, with one more range name.
    pub fn with_alias(&self, alias: String, start: Field, end: Field) -> (r: DesugarEnv)
        ensures
            r@ == self@.name(alias@, start, end),
    {
        let mut new_env = self.copy();
        new_env.add_alias(alias, start, end);
        new_env
    }
}

fn fail(message: String) -> (r: Result<Exp, DesugarError>)
    ensures
        shows(r, Err(message@)),
{
    Err(DesugarError { message })
}

/// A result has the value, or the message, that `s` says.
pub open spec fn shows(r: Result<Exp, DesugarError>, s: Result<Term, Seq<char>>) -> bool {
    match r {
        Ok(e) => s == Ok::<Term, Seq<char>>(e@),
        Err(e) => s == Err::<Term, Seq<char>>(e.message@),
    }
}

// ---- desugaring ------------------------------------------------------------------

/// Desugar an expression without a surrounding scope.
pub fn desugar(expr: &Expr) -> (r: Result<Exp, DesugarError>)
    requires
        ranges_ok(expr@),
    ensures
        shows(r, expand(expr@, Scope::empty())),
        r matches Ok(e) ==> is_core(e@),
{
    let env = DesugarEnv::new();
    desugar_with_env(expr, &env)
}

/// Desugar an expression in a scope.
#[verifier::rlimit(90)]
#[verifier::spinoff_prover]
pub fn desugar_with_env(expr: &Expr, env: &DesugarEnv) -> (r: Result<Exp, DesugarError>)
    requires
        ranges_ok(expr@),
        env@.ordered(),
    ensures
        shows(r, expand(expr@, env@)),
        r matches Ok(e) ==> ranges_ok(e@) && (env@.ok() ==> is_core(e@)),
    decreases expr,
{
    match expr {
        Expr::Zero => Ok(Expr::zero()),
        Expr::One => Ok(Expr::one()),
        Expr::Top => Ok(Expr::top()),
        Expr::Dup => Ok(Expr::dup()),
        Expr::End => Ok(Expr::end()),
        Expr::Hole(h) => Ok(Expr::hole(*h)),
        Expr::Assign(f, v) => Ok(Expr::assign(*f, *v)),
        Expr::Test(f, v) => Ok(Expr::test(*f, *v)),
        Expr::VarAssign(var, bits) => desugar_named(env, var, bits, true),
        Expr::VarTest(var, bits) => desugar_named(env, var, bits, false),
        Expr::BitRangeMatch(start, end, pattern) => desugar_pattern_match(*start, *end, pattern),
        Expr::VarMatch(var, pattern) => {
            match env.lookup_alias(var.as_str()) {
                Some((start, end)) => desugar_pattern_match(start, end, pattern),
                None => fail(unknown_in_match(var.as_str())),
            }
        },
        Expr::Union(e1, e2) => {
            match desugar_with_env(e1, env) {
                Err(m) => Err(m),
                Ok(d1) => match desugar_with_env(e2, env) {
                    Err(m) => Err(m),
                    Ok(d2) => Ok(Expr::union(d1, d2)),
                },
            }
        },
        Expr::Intersect(e1, e2) => {
            match desugar_with_env(e1, env) {
                Err(m) => Err(m),
                Ok(d1) => match desugar_with_env(e2, env) {
                    Err(m) => Err(m),
                    Ok(d2) => Ok(Expr::intersect(d1, d2)),
                },
            }
        },
        Expr::Xor(e1, e2) => {
            match desugar_with_env(e1, env) {
                Err(m) => Err(m),
                Ok(d1) => match desugar_with_env(e2, env) {
                    Err(m) => Err(m),
                    Ok(d2) => Ok(Expr::xor(d1, d2)),
                },
            }
        },
        Expr::Difference(e1, e2) => {
            match desugar_with_env(e1, env) {
                Err(m) => Err(m),
                Ok(d1) => match desugar_with_env(e2, env) {
                    Err(m) => Err(m),
                    Ok(d2) => Ok(Expr::difference(d1, d2)),
                },
            }
        },
        Expr::Sequence(e1, e2) => {
            match desugar_with_env(e1, env) {
                Err(m) => Err(m),
                Ok(d1) => match desugar_with_env(e2, env) {
                    Err(m) => Err(m),
                    Ok(d2) => Ok(Expr::sequence(d1, d2)),
                },
            }
        },
        Expr::LtlUntil(e1, e2) => {
            match desugar_with_env(e1, env) {
                Err(m) => Err(m),
                Ok(d1) => match desugar_with_env(e2, env) {
                    Err(m) => Err(m),
                    Ok(d2) => Ok(Expr::ltl_until(d1, d2)),
                },
            }
        },
        Expr::Complement(e) => {
            match desugar_with_env(e, env) {
                Err(m) => Err(m),
                Ok(d) => Ok(Expr::complement(d)),
            }
        },
        Expr::Star(e) => {
            match desugar_with_env(e, env) {
                Err(m) => Err(m),
                Ok(d) => Ok(Expr::star(d)),
            }
        },
        Expr::LtlNext(e) => {
            match desugar_with_env(e, env) {
                Err(m) => Err(m),
                Ok(d) => Ok(Expr::ltl_next(d)),
            }
        },
        Expr::TestNegation(e) => {
            match desugar_with_env(e, env) {
                Err(m) => Err(m),
                Ok(d) => if d.is_test_fragment() {
                    desugar_test_negation(&d)
                } else {
                    fail(not_a_test(e.to_text().as_str()))
                },
            }
        },
        Expr::IfThenElse(cond, then_expr, else_expr) => {
            match desugar_with_env(cond, env) {
                Err(m) => Err(m),
                Ok(d_cond) => match desugar_with_env(then_expr, env) {
                    Err(m) => Err(m),
                    Ok(d_then) => match desugar_with_env(else_expr, env) {
                        Err(m) => Err(m),
                        Ok(d_else) => if d_cond.is_test_fragment() {
                            match desugar_test_negation(&d_cond) {
                                Err(m) => Err(m),
                                Ok(neg_cond) => {
                                    proof {
                                        reveal_with_fuel(is_core, 3);
                                        reveal_with_fuel(ranges_ok, 3);
                                    }
                                    Ok(
                                        Expr::union(
                                            Expr::sequence(d_cond, d_then),
                                            Expr::sequence(neg_cond, d_else),
                                        ),
                                    )
                                },
                            }
                        } else {
                            fail(not_a_condition(cond.to_text().as_str()))
                        },
                    },
                },
            }
        },
        Expr::Let(var, def, body) => {
            match desugar_with_env(def, env) {
                Err(m) => Err(m),
                Ok(d_def) => {
                    let new_env = env.with_variable(copy_text(var), d_def);
                    desugar_with_env(body, &new_env)
                },
            }
        },
        Expr::LetBitRange(alias, start, end, body) => {
            let new_env = env.with_alias(copy_text(alias), *start, *end);
            desugar_with_env(body, &new_env)
        },
        Expr::Var(name) => {
            match env.lookup_variable(name.as_str()) {
                Some(e) => Ok(Box::new(e.copy())),
                None => match env.lookup_alias(name.as_str()) {
                    Some(_) => fail(bare_alias(name.as_str())),
                    None => fail(unbound(name.as_str())),
                },
            }
        },
        Expr::BitRangeAssign(start, end, bits) => desugar_bit_range_assign(*start, *end, bits),
        Expr::BitRangeTest(start, end, bits) => desugar_bit_range_test(*start, *end, bits),
    }
}

/// `bits` with zeros added above, to `width` bits.
fn widened(bits: &Vec<bool>, width: usize) -> (r: Vec<bool>)
    requires
        bits@.len() <= width,
    ensures
        r@ == widen(bits@, width as nat),
{
    let mut r = copy_bits(bits);
    while r.len() < width
        invariant
            bits@.len() <= r@.len() <= width,
            r@ == widen(bits@, r@.len()),
        decreases width - r.len(),
    {
        r.push(false);
        assert(r@ =~= widen(bits@, r@.len()));
    }
    r
}

/// Assigns, or tests, the fields that `var` names.
fn desugar_named(env: &DesugarEnv, var: &String, bits: &Vec<bool>, assign: bool) -> (r: Result<
    Exp,
    DesugarError,
>)
    requires
        env@.ordered(),
    ensures
        shows(r, named_bits(env@, var@, bits@, assign)),
        r matches Ok(e) ==> is_core(e@) && ranges_ok(e@),
{
    match env.lookup_alias(var.as_str()) {
        Some((start, end)) => {
            assert(env@.ranges.contains_key(var@));
            let expected_bits: usize = (end - start) as usize;
            if bits.len() > expected_bits {
                fail(width_mismatch(bits.len(), var.as_str(), expected_bits))
            } else {
                let expanded = widened(bits, expected_bits);
                if assign {
                    desugar_bit_range_assign(start, end, &expanded)
                } else {
                    desugar_bit_range_test(start, end, &expanded)
                }
            }
        },
        None => if assign {
            fail(unknown_in_assignment(var.as_str()))
        } else {
            fail(unknown_in_test(var.as_str()))
        },
    }
}

/// The negation of a test without sugar, by De Morgan's laws.
fn negate_core(expr: &Expr) -> (r: Exp)
    requires
        is_core(expr@),
        test_fragment(expr@),
    ensures
        r@ == negation(expr@),
        is_core(r@),
        test_fragment(r@),
    decreases expr,
{
    proof {
        reveal_with_fuel(is_core, 3);
        reveal_with_fuel(test_fragment, 3);
    }
    match expr {
        Expr::Zero => Expr::one(),
        Expr::One => Expr::zero(),
        Expr::Test(f, v) => Expr::test(*f, !*v),
        Expr::Union(e1, e2) => {
            let n1 = negate_core(e1);
            let n2 = negate_core(e2);
            Expr::intersect(n1, n2)
        },
        Expr::Intersect(e1, e2) => {
            let n1 = negate_core(e1);
            let n2 = negate_core(e2);
            Expr::union(n1, n2)
        },
        Expr::Xor(e1, e2) => {
            let n1 = negate_core(e1);
            let n2 = negate_core(e2);
            let d1 = Box::new(e1.copy());
            let d2 = Box::new(e2.copy());
            Expr::union(Expr::intersect(n1, n2), Expr::intersect(d1, d2))
        },
        Expr::Difference(e1, e2) => {
            let n1 = negate_core(e1);
            let d2 = Box::new(e2.copy());
            Expr::union(n1, d2)
        },
        Expr::Sequence(e1, e2) => {
            let n1 = negate_core(e1);
            let n2 = negate_core(e2);
            Expr::union(n1, n2)
        },
        _ => Box::new(expr.copy()),
    }
}

/// Desugar a test without a surrounding scope.
#[verifier::rlimit(40)]
fn desugar_test(expr: &Expr) -> (r: Result<Exp, DesugarError>)
    requires
        test_fragment(expr@),
        ranges_ok(expr@),
    ensures
        shows(r, tested(expr@)),
        r matches Ok(e) ==> plain_test(e@),
    decreases expr,
{
    proof {
        lemma_tested_plain(expr@);
    }
    match expr {
        Expr::VarTest(var, bits) => fail(unknown_in_test(var.as_str())),
        Expr::VarMatch(var, pattern) => fail(unknown_in_match(var.as_str())),
        Expr::BitRangeTest(start, end, bits) => desugar_bit_range_test(*start, *end, bits),
        Expr::BitRangeMatch(start, end, pattern) => desugar_pattern_match(*start, *end, pattern),
        Expr::Union(e1, e2) => {
            match desugar_test(e1) {
                Err(m) => Err(m),
                Ok(d1) => match desugar_test(e2) {
                    Err(m) => Err(m),
                    Ok(d2) => Ok(Expr::union(d1, d2)),
                },
            }
        },
        Expr::Intersect(e1, e2) => {
            match desugar_test(e1) {
                Err(m) => Err(m),
                Ok(d1) => match desugar_test(e2) {
                    Err(m) => Err(m),
                    Ok(d2) => Ok(Expr::intersect(d1, d2)),
                },
            }
        },
        Expr::Xor(e1, e2) => {
            match desugar_test(e1) {
                Err(m) => Err(m),
                Ok(d1) => match desugar_test(e2) {
                    Err(m) => Err(m),
                    Ok(d2) => Ok(Expr::xor(d1, d2)),
                },
            }
        },
        Expr::Difference(e1, e2) => {
            match desugar_test(e1) {
                Err(m) => Err(m),
                Ok(d1) => match desugar_test(e2) {
                    Err(m) => Err(m),
                    Ok(d2) => Ok(Expr::difference(d1, d2)),
                },
            }
        },
        Expr::Sequence(e1, e2) => {
            match desugar_test(e1) {
                Err(m) => Err(m),
                Ok(d1) => match desugar_test(e2) {
                    Err(m) => Err(m),
                    Ok(d2) => Ok(Expr::sequence(d1, d2)),
                },
            }
        },
        Expr::TestNegation(e) => {
            match desugar_test(e) {
                Err(m) => Err(m),
                Ok(d) => Ok(negate_core(&d)),
            }
        },
        _ => Ok(Box::new(expr.copy())),
    }
}

/// The negation of a test, by De Morgan's laws.
#[verifier::rlimit(40)]
fn desugar_test_negation(expr: &Expr) -> (r: Result<Exp, DesugarError>)
    requires
        test_fragment(expr@),
        ranges_ok(expr@),
    ensures
        shows(r, negated(expr@)),
        r matches Ok(e) ==> is_core(e@) && test_fragment(e@) && ranges_ok(e@),
    decreases expr,
{
    proof {
        lemma_negated_plain(expr@);
        if let Ok(u) = negated(expr@) {
            lemma_core_ranges(u);
        }
    }
    match expr {
        Expr::Zero => Ok(Expr::one()),
        Expr::One => Ok(Expr::zero()),
        Expr::Test(f, v) => Ok(Expr::test(*f, !*v)),
        Expr::Union(e1, e2) => {
            match desugar_test_negation(e1) {
                Err(m) => Err(m),
                Ok(d1) => match desugar_test_negation(e2) {
                    Err(m) => Err(m),
                    Ok(d2) => Ok(Expr::intersect(d1, d2)),
                },
            }
        },
        Expr::Intersect(e1, e2) => {
            match desugar_test_negation(e1) {
                Err(m) => Err(m),
                Ok(d1) => match desugar_test_negation(e2) {
                    Err(m) => Err(m),
                    Ok(d2) => Ok(Expr::union(d1, d2)),
                },
            }
        },
        Expr::Sequence(e1, e2) => {
            match desugar_test_negation(e1) {
                Err(m) => Err(m),
                Ok(d1) => match desugar_test_negation(e2) {
                    Err(m) => Err(m),
                    Ok(d2) => Ok(Expr::union(d1, d2)),
                },
            }
        },
        Expr::Xor(e1, e2) => {
            match desugar_test_negation(e1) {
                Err(m) => Err(m),
                Ok(n1) => match desugar_test_negation(e2) {
                    Err(m) => Err(m),
                    Ok(n2) => match desugar_test(e1) {
                        Err(m) => Err(m),
                        Ok(d1) => match desugar_test(e2) {
                            Err(m) => Err(m),
                            Ok(d2) => Ok(
                                Expr::union(Expr::intersect(n1, n2), Expr::intersect(d1, d2)),
                            ),
                        },
                    },
                },
            }
        },
        Expr::Difference(e1, e2) => {
            match desugar_test_negation(e1) {
                Err(m) => Err(m),
                Ok(n1) => match desugar_test(e2) {
                    Err(m) => Err(m),
                    Ok(d2) => Ok(Expr::union(n1, d2)),
                },
            }
        },
        Expr::TestNegation(e) => desugar_test(e),
        Expr::VarMatch(var, pattern) => fail(named_match(var.as_str())),
        Expr::VarTest(var, bits) => fail(named_test(var.as_str())),
        _ => {
            match desugar_test(expr) {
                Err(m) => Err(m),
                Ok(d) => Ok(negate_core(&d)),
            }
        },
    }
}

/// Assigns `bits` to the fields from `start` to before `end`.
pub fn desugar_bit_range_assign(start: u32, end: u32, bits: &Vec<bool>) -> (r: Result<
    Exp,
    DesugarError,
>)
    requires
        start <= end,
    ensures
        shows(r, exact_bits(start, end, bits@, true)),
        r matches Ok(e) ==> is_core(e@) && ranges_ok(e@),
{
    if bits.len() != (end - start) as usize {
        return fail(
            range_width(start as usize, end as usize, (end - start) as usize, bits.len()),
        );
    }
    if bits.len() == 0 {
        return Ok(Expr::one());
    }
    let mut i: usize = bits.len() - 1;
    let mut result = Expr::assign(start + i as u32, bits[i]);
    proof {
        reveal_with_fuel(is_core, 2);
    }
    assert(bits@.skip(i as int).len() == 1);
    while i > 0
        invariant
            0 <= i < bits@.len(),
            bits@.len() == end - start,
            result@ == assign_term(start + i, bits@.skip(i as int)),
            is_core(result@),
        decreases i,
    {
        i = i - 1;
        proof {
            reveal_with_fuel(is_core, 2);
            assert(bits@.skip(i as int).drop_first() =~= bits@.skip(i + 1));
        }
        result = Expr::sequence(Expr::assign(start + i as u32, bits[i]), result);
    }
    assert(bits@.skip(0) =~= bits@);
    proof {
        lemma_core_ranges(result@);
    }
    Ok(result)
}

/// Tests the fields from `start` to before `end` for `bits`.
pub fn desugar_bit_range_test(start: u32, end: u32, bits: &Vec<bool>) -> (r: Result<
    Exp,
    DesugarError,
>)
    requires
        start <= end,
    ensures
        shows(r, exact_bits(start, end, bits@, false)),
        r matches Ok(e) ==> is_core(e@) && ranges_ok(e@),
{
    if bits.len() != (end - start) as usize {
        return fail(
            range_width(start as usize, end as usize, (end - start) as usize, bits.len()),
        );
    }
    if bits.len() == 0 {
        return Ok(Expr::one());
    }
    let mut i: usize = bits.len() - 1;
    let mut result = Expr::test(start + i as u32, bits[i]);
    assert(bits@.skip(i as int).len() == 1);
    while i > 0
        invariant
            0 <= i < bits@.len(),
            bits@.len() == end - start,
            result@ == test_term(start + i, bits@.skip(i as int)),
            is_core(result@),
        decreases i,
    {
        i = i - 1;
        proof {
            reveal_with_fuel(is_core, 2);
            assert(bits@.skip(i as int).drop_first() =~= bits@.skip(i + 1));
        }
        result = Expr::intersect(Expr::test(start + i as u32, bits[i]), result);
    }
    assert(bits@.skip(0) =~= bits@);
    proof {
        lemma_core_ranges(result@);
    }
    Ok(result)
}

/// The test for a pattern on the fields from `start` to before `end`.
fn desugar_pattern_match(start: u32, end: u32, pattern: &Pattern) -> (r: Result<
    Exp,
    DesugarError,
>)
    requires
        start <= end,
    ensures
        shows(r, match_term(start, end, pattern@)),
        r matches Ok(e) ==> is_core(e@) && ranges_ok(e@),
{
    match match_pattern(start, end, pattern) {
        Ok(e) => {
            proof {
                lemma_core_ranges(e@);
            }
            Ok(e)
        },
        Err(m) => Err(m),
    }
}

/// The test for a pattern, which is without sugar.
fn match_pattern(start: u32, end: u32, pattern: &Pattern) -> (r: Result<Exp, DesugarError>)
    requires
        start <= end,
    ensures
        shows(r, match_term(start, end, pattern@)),
        r matches Ok(e) ==> is_core(e@),
{
    let width: usize = (end - start) as usize;
    match pattern {
        Pattern::Exact(bits) => {
            if bits.len() > width {
                fail(pattern_too_wide(bits.len(), width))
            } else {
                let padded = widened(bits, width);
                desugar_bit_range_test(start, end, &padded)
            }
        },
        Pattern::Cidr { address, prefix_len } => {
            if *prefix_len > width {
                return fail(prefix_too_long(*prefix_len, width));
            }
            if address.len() != width {
                return fail(cidr_width(address.len(), width));
            }
            let prefix_start: usize = width - *prefix_len;
            let mut prefix_bits: Vec<bool> = Vec::new();
            let mut i: usize = prefix_start;
            while i < width
                invariant
                    prefix_start <= i <= width,
                    address@.len() == width,
                    prefix_bits@ == address@.subrange(prefix_start as int, i as int),
                decreases width - i,
            {
                prefix_bits.push(address[i]);
                i = i + 1;
                assert(address@.subrange(prefix_start as int, i as int) =~= address@.subrange(
                    prefix_start as int,
                    i - 1,
                ).push(address@[i - 1]));
            }
            desugar_bit_range_test(start + prefix_start as u32, end, &prefix_bits)
        },
        Pattern::Wildcard { address, mask } => {
            if address.len() != width || mask.len() != width {
                return fail(wildcard_width(width, address.len(), mask.len()));
            }
            let mut tests: Vec<Exp> = Vec::new();
            let mut i: usize = 0;
            while i < width
                invariant
                    i <= width,
                    width == end - start,
                    address@.len() == width,
                    mask@.len() == width,
                    terms(tests@) == masked_tests(start as int, address@, mask@, i as int),
                    all_core(tests@),
                decreases width - i,
            {
                if !mask[i] {
                    let ghost t0 = tests@;
                    tests.push(Expr::test(start + i as u32, address[i]));
                    proof {
                        lemma_terms_push(t0, tests@.last());
                    }
                }
                i = i + 1;
            }
            Ok(conjunction(tests))
        },
        Pattern::IpRange { start: range_start, end: range_end } => {
            if range_start.len() < width && range_end.len() < width {
                let lo = widened(range_start, width);
                let hi = widened(range_end, width);
                desugar_between(start, end, &lo, &hi)
            } else if range_start.len() == width && range_end.len() == width {
                desugar_between(start, end, range_start, range_end)
            } else {
                fail(range_pattern_width(width, range_start.len(), range_end.len()))
            }
        },
    }
}

/// The values from `lo` to `hi` on the fields from `start` to before `end`.
fn desugar_between(start: u32, end: u32, lo: &Vec<bool>, hi: &Vec<bool>) -> (r: Result<
    Exp,
    DesugarError,
>)
    requires
        start <= end,
        lo@.len() == end - start,
        hi@.len() == end - start,
    ensures
        shows(r, between_term(start as int, lo@, hi@)),
        r matches Ok(e) ==> is_core(e@),
{
    let start_val: u128 = match bits_to_u128(lo) {
        None => {
            return fail(range_too_wide());
        },
        Some(v) => v,
    };
    let end_val: u128 = match bits_to_u128(hi) {
        None => {
            return fail(range_too_wide());
        },
        Some(v) => v,
    };
    if start_val > end_val {
        return fail(range_reversed());
    }
    if start_val == end_val {
        return desugar_bit_range_test(start, end, lo);
    }
    let mut full = true;
    let mut i: usize = 0;
    while i < hi.len()
        invariant
            i <= hi@.len(),
            full == all_on(hi@.take(i as int)),
        decreases hi.len() - i,
    {
        let ghost before = hi@.take(i as int);
        if !hi[i] {
            full = false;
        }
        i = i + 1;
        proof {
            let after = hi@.take(i as int);
            assert(forall|j: int| 0 <= j < i - 1 ==> before[j] == after[j]);
            assert(after[i - 1] == hi@[i - 1]);
            if all_on(after) {
                assert forall|j: int| 0 <= j < before.len() implies #[trigger] before[j] by {
                    assert(after[j]);
                }
            }
        }
    }
    assert(hi@.take(i as int) =~= hi@);
    if start_val == 0 && full {
        Ok(Expr::one())
    } else if start_val == 0 {
        Ok(desugar_upper_bound_test(start, hi))
    } else if full {
        Ok(desugar_lower_bound_test(start, lo))
    } else {
        let lower_test = desugar_lower_bound_test(start, lo);
        let upper_test = desugar_upper_bound_test(start, hi);
        Ok(Expr::intersect(lower_test, upper_test))
    }
}

proof fn lemma_value_bound(bits: Seq<bool>)
    ensures
        value(bits) < pow2(bits.len()),
    decreases bits.len(),
{
    if bits.len() == 0 {
        lemma2_to64();
    } else {
        lemma_value_bound(bits.drop_first());
        lemma_pow2_unfold(bits.len());
    }
}

/// The number that at most 128 bits denote, least significant first.
fn bits_to_u128(bits: &Vec<bool>) -> (r: Option<u128>)
    ensures
        r is None <==> bits@.len() > 128,
        r matches Some(v) ==> v == value(bits@),
{
    if bits.len() > 128 {
        return None;
    }
    let mut val: u128 = 0;
    let mut i: usize = bits.len();
    while i > 0
        invariant
            i <= bits@.len(),
            bits@.len() <= 128,
            val == value(bits@.skip(i as int)),
        decreases i,
    {
        i = i - 1;
        proof {
            assert(bits@.skip(i as int).drop_first() =~= bits@.skip(i + 1));
            lemma_value_bound(bits@.skip(i as int));
            lemma2_to64();
            lemma_pow2_adds(64, 64);
            if bits@.len() - i < 128 {
                lemma_pow2_strictly_increases((bits@.len() - i) as nat, 128);
            }
        }
        val =
        val * 2 + (if bits[i] {
            1
        } else {
            0
        });
    }
    assert(bits@.skip(0) =~= bits@);
    Some(val)
}

/// The numbers that are at most `upper_bound`.
fn desugar_upper_bound_test(start_field: u32, upper_bound: &Vec<bool>) -> (r: Exp)
    requires
        start_field + upper_bound@.len() <= u32::MAX,
    ensures
        r@ == bound_term(start_field as int, upper_bound@, true),
        is_core(r@),
{
    bound_test(start_field, upper_bound, true)
}

/// The numbers that are at least `lower_bound`.
fn desugar_lower_bound_test(start_field: u32, lower_bound: &Vec<bool>) -> (r: Exp)
    requires
        start_field + lower_bound@.len() <= u32::MAX,
    ensures
        r@ == bound_term(start_field as int, lower_bound@, false),
        is_core(r@),
{
    bound_test(start_field, lower_bound, false)
}

/// The values of a list of expressions.
spec fn terms(es: Seq<Exp>) -> Seq<Term> {
    es.map_values(|e: Exp| e@)
}

spec fn all_core(es: Seq<Exp>) -> bool {
    forall|i: int| 0 <= i < es.len() ==> is_core((#[trigger] es[i])@)
}

proof fn lemma_terms_push(es: Seq<Exp>, e: Exp)
    ensures
        terms(es.push(e)) == terms(es).push(e@),
{
    assert(terms(es.push(e)) =~= terms(es).push(e@));
}

/// The conjunction of tests, to the right.
fn conjunction(tests: Vec<Exp>) -> (r: Exp)
    requires
        all_core(tests@),
    ensures
        r@ == conj(terms(tests@)),
        is_core(r@),
{
    let mut tests = tests;
    let ghost ts = terms(tests@);
    match tests.pop() {
        None => Expr::one(),
        Some(last) => {
            let mut result = last;
            let ghost n = tests@.len();
            assert(ts.skip(n as int).len() == 1);
            while tests.len() > 0
                invariant
                    all_core(tests@),
                    is_core(result@),
                    tests@.len() <= n,
                    ts.len() == n + 1,
                    terms(tests@) == ts.take(tests@.len() as int),
                    result@ == conj(ts.skip(tests@.len() as int)),
                decreases tests.len(),
            {
                let ghost before = tests@;
                if let Some(test) = tests.pop() {
                    proof {
                        let k = tests@.len() as int;
                        assert(terms(before)[k] == ts.take(k + 1)[k]);
                        assert(terms(tests@) =~= ts.take(k));
                        assert(ts.skip(k).drop_first() =~= ts.skip(k + 1));
                    }
                    result = Expr::intersect(test, result);
                }
            }
            assert(ts.skip(0) =~= ts);
            result
        },
    }
}

/// The disjunction of tests, to the right.
fn disjunction(tests: Vec<Exp>) -> (r: Exp)
    requires
        all_core(tests@),
    ensures
        r@ == disj(terms(tests@)),
        is_core(r@),
{
    let mut tests = tests;
    let ghost ts = terms(tests@);
    match tests.pop() {
        None => Expr::zero(),
        Some(last) => {
            let mut result = last;
            let ghost n = tests@.len();
            assert(ts.skip(n as int).len() == 1);
            while tests.len() > 0
                invariant
                    all_core(tests@),
                    is_core(result@),
                    tests@.len() <= n,
                    ts.len() == n + 1,
                    terms(tests@) == ts.take(tests@.len() as int),
                    result@ == disj(ts.skip(tests@.len() as int)),
                decreases tests.len(),
            {
                let ghost before = tests@;
                if let Some(test) = tests.pop() {
                    proof {
                        let k = tests@.len() as int;
                        assert(terms(before)[k] == ts.take(k + 1)[k]);
                        assert(terms(tests@) =~= ts.take(k));
                        assert(ts.skip(k).drop_first() =~= ts.skip(k + 1));
                    }
                    result = Expr::union(test, result);
                }
            }
            assert(ts.skip(0) =~= ts);
            result
        },
    }
}

fn copy_all(es: &Vec<Exp>) -> (r: Vec<Exp>)
    requires
        all_core(es@),
    ensures
        terms(r@) == terms(es@),
        all_core(r@),
{
    let mut r: Vec<Exp> = Vec::new();
    let mut i: usize = 0;
    while i < es.len()
        invariant
            i <= es@.len(),
            all_core(es@),
            all_core(r@),
            r@.len() == i,
            forall|j: int| 0 <= j < i ==> (#[trigger] r@[j])@ == es@[j]@,
        decreases es.len() - i,
    {
        r.push(Box::new(es[i].copy()));
        i = i + 1;
    }
    assert(terms(r@) =~= terms(es@));
    r
}

/// The numbers that are at most `bound` (`flag` is on), or at least `bound`.
fn bound_test(start: u32, bound: &Vec<bool>, flag: bool) -> (r: Exp)
    requires
        start + bound@.len() <= u32::MAX,
    ensures
        r@ == bound_term(start as int, bound@, flag),
        is_core(r@),
{
    if bound.len() == 0 {
        return Expr::zero();
    }
    let mut alternatives: Vec<Exp> = Vec::new();
    let mut prefix_tests: Vec<Exp> = Vec::new();
    let mut i: usize = bound.len();
    assert(terms(prefix_tests@) =~= high_tests(start as int, bound@, i as int));
    assert(terms(alternatives@) =~= bound_terms(start as int, bound@, flag, i as int));
    while i > 0
        invariant
            i <= bound@.len(),
            start + bound@.len() <= u32::MAX,
            terms(prefix_tests@) == high_tests(start as int, bound@, i as int),
            terms(alternatives@) == bound_terms(start as int, bound@, flag, i as int),
            all_core(prefix_tests@),
            all_core(alternatives@),
        decreases i,
    {
        i = i - 1;
        let field: u32 = start + i as u32;
        if bound[i] == flag {
            let mut parts = copy_all(&prefix_tests);
            let ghost p0 = parts@;
            parts.push(Expr::test(field, !flag));
            proof {
                lemma_terms_push(p0, parts@.last());
            }
            let term = conjunction(parts);
            let ghost a0 = alternatives@;
            alternatives.push(term);
            proof {
                lemma_terms_push(a0, alternatives@.last());
            }
        }
        let ghost q0 = prefix_tests@;
        prefix_tests.push(Expr::test(field, bound[i]));
        proof {
            lemma_terms_push(q0, prefix_tests@.last());
        }
    }
    let exact = conjunction(prefix_tests);
    let ghost a0 = alternatives@;
    alternatives.push(exact);
    proof {
        lemma_terms_push(a0, alternatives@.last());
    }
    disjunction(alternatives)
}

// ---- laws --------------------------------------------------------------------------

/// A packet passes the negation of a test exactly when it does not pass the
/// test.
pub proof fn law_negation(t: Term, p: Pkt)
    requires
        is_core(t),
        test_fragment(t),
    ensures
        passes(negation(t), p) == !passes(t, p),
    decreases t,
{
    reveal_with_fuel(passes, 3);
    match t {
        Term::Union(a, b) => {
            law_negation(*a, p);
            law_negation(*b, p);
        },
        Term::Intersect(a, b) => {
            law_negation(*a, p);
            law_negation(*b, p);
        },
        Term::Sequence(a, b) => {
            law_negation(*a, p);
            law_negation(*b, p);
        },
        Term::Xor(a, b) => {
            law_negation(*a, p);
            law_negation(*b, p);
        },
        Term::Difference(a, b) => {
            law_negation(*a, p);
            law_negation(*b, p);
        },
        _ => {},
    }
}

/// An expression without sugar stands for itself, in every scope.
pub proof fn law_core_unchanged(t: Term, s: Scope)
    requires
        is_core(t),
    ensures
        expand(t, s) == Ok::<Term, Seq<char>>(t),
    decreases t,
{
    match t {
        Term::Union(a, b) => {
            law_core_unchanged(*a, s);
            law_core_unchanged(*b, s);
        },
        Term::Intersect(a, b) => {
            law_core_unchanged(*a, s);
            law_core_unchanged(*b, s);
        },
        Term::Xor(a, b) => {
            law_core_unchanged(*a, s);
            law_core_unchanged(*b, s);
        },
        Term::Difference(a, b) => {
            law_core_unchanged(*a, s);
            law_core_unchanged(*b, s);
        },
        Term::Sequence(a, b) => {
            law_core_unchanged(*a, s);
            law_core_unchanged(*b, s);
        },
        Term::LtlUntil(a, b) => {
            law_core_unchanged(*a, s);
            law_core_unchanged(*b, s);
        },
        Term::Complement(a) => law_core_unchanged(*a, s),
        Term::Star(a) => law_core_unchanged(*a, s),
        Term::LtlNext(a) => law_core_unchanged(*a, s),
        _ => {},
    }
}

/// What a pattern asks of the bits of its fields.
pub open spec fn pattern_holds(pat: Pat, w: Seq<bool>) -> bool {
    match pat {
        Pat::Exact(bits) => value(w) == value(bits),
        Pat::Cidr(address, prefix) => w.subrange(w.len() - prefix, w.len() as int)
            == address.subrange(w.len() - prefix, w.len() as int),
        Pat::Wildcard(address, mask) => forall|i: int|
            0 <= i < w.len() && !(#[trigger] mask[i]) ==> w[i] == address[i],
        Pat::IpRange(lo, hi) => value(lo) <= value(w) <= value(hi),
    }
}

pub proof fn lemma_value_widen(bits: Seq<bool>, width: nat)
    requires
        bits.len() <= width,
    ensures
        value(widen(bits, width)) == value(bits),
    decreases width,
{
    let w = widen(bits, width);
    if bits.len() == 0 {
        if width > 0 {
            assert(w.drop_first() =~= widen(bits, (width - 1) as nat));
            lemma_value_widen(bits, (width - 1) as nat);
        }
    } else {
        assert(w.drop_first() =~= widen(bits.drop_first(), (width - 1) as nat));
        lemma_value_widen(bits.drop_first(), (width - 1) as nat);
    }
}

/// Bits of the same number and the same length are the same.
pub proof fn law_value_injective(a: Seq<bool>, b: Seq<bool>)
    requires
        a.len() == b.len(),
        value(a) == value(b),
    ensures
        a == b,
    decreases a.len(),
{
    if a.len() > 0 {
        law_value_injective(a.drop_first(), b.drop_first());
        assert(a =~= seq![a[0]] + a.drop_first());
        assert(b =~= seq![b[0]] + b.drop_first());
    } else {
        assert(a =~= b);
    }
}

proof fn lemma_value_all_on(a: Seq<bool>, b: Seq<bool>)
    requires
        a.len() == b.len(),
        all_on(b),
    ensures
        value(a) <= value(b),
    decreases a.len(),
{
    if a.len() > 0 {
        assert(b[0]);
        assert forall|i: int| 0 <= i < b.drop_first().len() implies #[trigger] b.drop_first()[i] by {
            assert(b[i + 1]);
        }
        lemma_value_all_on(a.drop_first(), b.drop_first());
    }
}

/// A packet passes the test for `bits` exactly when its fields have them.
pub proof fn law_range_test(start: int, bits: Seq<bool>, p: Pkt)
    requires
        0 <= start,
        start + bits.len() <= p.len(),
        p.len() <= u32::MAX,
    ensures
        passes(test_term(start, bits), p) <==> window(p, start, bits.len() as int) == bits,
    decreases bits.len(),
{
    reveal_with_fuel(passes, 2);
    let w = window(p, start, bits.len() as int);
    if bits.len() == 0 {
        assert(w =~= bits);
    } else if bits.len() == 1 {
        if w[0] == bits[0] {
            assert(w =~= bits);
        }
        assert(w[0] == p[start]);
    } else {
        law_range_test(start + 1, bits.drop_first(), p);
        assert(w.drop_first() =~= window(p, start + 1, bits.len() - 1));
        assert(w =~= seq![w[0]] + w.drop_first());
        assert(bits =~= seq![bits[0]] + bits.drop_first());
        assert(w[0] == p[start]);
    }
}

proof fn lemma_conj(ts: Seq<Term>, p: Pkt)
    ensures
        passes(conj(ts), p) <==> forall|i: int| 0 <= i < ts.len() ==> passes(#[trigger] ts[i], p),
    decreases ts.len(),
{
    if ts.len() > 1 {
        lemma_conj(ts.drop_first(), p);
        if passes(conj(ts), p) {
            assert forall|i: int| 0 <= i < ts.len() implies passes(#[trigger] ts[i], p) by {
                if i > 0 {
                    assert(ts.drop_first()[i - 1] == ts[i]);
                }
            }
        } else if passes(ts[0], p) {
            let i = choose|i: int|
                0 <= i < ts.drop_first().len() && !passes(#[trigger] ts.drop_first()[i], p);
            assert(ts[i + 1] == ts.drop_first()[i]);
        }
    }
}

proof fn lemma_disj(ts: Seq<Term>, p: Pkt)
    ensures
        passes(disj(ts), p) <==> exists|i: int| 0 <= i < ts.len() && passes(#[trigger] ts[i], p),
    decreases ts.len(),
{
    if ts.len() > 1 {
        lemma_disj(ts.drop_first(), p);
        if exists|i: int| 0 <= i < ts.len() && passes(#[trigger] ts[i], p) {
            let i = choose|i: int| 0 <= i < ts.len() && passes(#[trigger] ts[i], p);
            if i > 0 {
                assert(ts.drop_first()[i - 1] == ts[i]);
            }
        }
        if passes(disj(ts), p) && !passes(ts[0], p) {
            let i = choose|i: int|
                0 <= i < ts.drop_first().len() && passes(#[trigger] ts.drop_first()[i], p);
            assert(ts[i + 1] == ts.drop_first()[i]);
        }
    }
}

spec fn any_passes(ts: Seq<Term>, p: Pkt) -> bool {
    exists|i: int| 0 <= i < ts.len() && passes(#[trigger] ts[i], p)
}

spec fn all_pass(ts: Seq<Term>, p: Pkt) -> bool {
    forall|i: int| 0 <= i < ts.len() ==> passes(#[trigger] ts[i], p)
}

proof fn lemma_passes_push(ts: Seq<Term>, t: Term, p: Pkt)
    ensures
        any_passes(ts.push(t), p) <==> any_passes(ts, p) || passes(t, p),
        all_pass(ts.push(t), p) <==> all_pass(ts, p) && passes(t, p),
{
    let us = ts.push(t);
    assert(us[ts.len() as int] == t);
    if any_passes(ts, p) {
        let i = choose|i: int| 0 <= i < ts.len() && passes(#[trigger] ts[i], p);
        assert(us[i] == ts[i]);
    }
    if any_passes(us, p) && !passes(t, p) {
        let i = choose|i: int| 0 <= i < us.len() && passes(#[trigger] us[i], p);
        assert(us[i] == ts[i]);
    }
    if all_pass(us, p) {
        assert forall|i: int| 0 <= i < ts.len() implies passes(#[trigger] ts[i], p) by {
            assert(us[i] == ts[i]);
        }
    }
}

/// Above bit `i`: some alternative passes exactly when the number is on the
/// right side of the bound, and all tests pass exactly when it is the bound.
proof fn lemma_bound(start: int, bound: Seq<bool>, flag: bool, i: int, p: Pkt)
    requires
        0 <= start,
        0 <= i <= bound.len(),
        start + bound.len() <= p.len(),
        p.len() <= u32::MAX,
    ensures
        ({
            let w = window(p, start, bound.len() as int);
            &&& any_passes(bound_terms(start, bound, flag, i), p) <==> (if flag {
                value(w.skip(i)) < value(bound.skip(i))
            } else {
                value(w.skip(i)) > value(bound.skip(i))
            })
            &&& all_pass(high_tests(start, bound, i), p) <==> value(w.skip(i)) == value(
                bound.skip(i),
            )
        }),
    decreases bound.len() - i,
{
    let w = window(p, start, bound.len() as int);
    if i < bound.len() {
        lemma_bound(start, bound, flag, i + 1, p);
        assert(w.skip(i).drop_first() =~= w.skip(i + 1));
        assert(bound.skip(i).drop_first() =~= bound.skip(i + 1));
        assert(w[i] == p[start + i]);
        let above = high_tests(start, bound, i + 1);
        let here = Term::Test((start + i) as u32, bound[i]);
        let differs = Term::Test((start + i) as u32, !flag);
        lemma_passes_push(above, here, p);
        lemma_passes_push(above, differs, p);
        lemma_conj(above.push(differs), p);
        lemma_passes_push(
            bound_terms(start, bound, flag, i + 1),
            conj(above.push(differs)),
            p,
        );
        assert(passes(here, p) == (w[i] == bound[i]));
        assert(passes(differs, p) == (w[i] != flag));
        assert(passes(conj(above.push(differs)), p) == all_pass(above.push(differs), p));
    } else {
        assert(w.skip(i).len() == 0 && bound.skip(i).len() == 0);
    }
}

/// A packet passes a bound test exactly when the number in its fields is at
/// most, or at least, the bound.
pub proof fn law_bound_test(start: int, bound: Seq<bool>, flag: bool, p: Pkt)
    requires
        0 <= start,
        bound.len() > 0,
        start + bound.len() <= p.len(),
        p.len() <= u32::MAX,
    ensures
        passes(bound_term(start, bound, flag), p) <==> (if flag {
            value(window(p, start, bound.len() as int)) <= value(bound)
        } else {
            value(window(p, start, bound.len() as int)) >= value(bound)
        }),
{
    let w = window(p, start, bound.len() as int);
    lemma_bound(start, bound, flag, 0, p);
    assert(w.skip(0) =~= w);
    assert(bound.skip(0) =~= bound);
    let exact = conj(high_tests(start, bound, 0));
    lemma_conj(high_tests(start, bound, 0), p);
    let ts = bound_terms(start, bound, flag, 0);
    lemma_passes_push(ts, exact, p);
    lemma_disj(ts.push(exact), p);
    assert(passes(exact, p) == all_pass(high_tests(start, bound, 0), p));
}

proof fn lemma_masked(start: int, address: Seq<bool>, mask: Seq<bool>, i: int, p: Pkt)
    requires
        0 <= start,
        0 <= i <= address.len(),
        mask.len() == address.len(),
        start + address.len() <= p.len(),
        p.len() <= u32::MAX,
    ensures
        all_pass(masked_tests(start, address, mask, i), p) <==> forall|j: int|
            0 <= j < i && !(#[trigger] mask[j]) ==> p[start + j] == address[j],
    decreases i,
{
    if i > 0 {
        lemma_masked(start, address, mask, i - 1, p);
        let t = Term::Test((start + i - 1) as u32, address[i - 1]);
        lemma_passes_push(masked_tests(start, address, mask, i - 1), t, p);
        assert(passes(t, p) == (p[start + i - 1] == address[i - 1]));
        if mask[i - 1] {
        } else {
            if all_pass(masked_tests(start, address, mask, i), p) {
                assert forall|j: int| 0 <= j < i && !(#[trigger] mask[j]) implies p[start + j]
                    == address[j] by {}
            }
        }
    }
}

/// A packet passes the test for a pattern exactly when the bits of its fields
/// match the pattern.
pub proof fn law_match(start: Field, end: Field, pat: Pat, p: Pkt)
    requires
        start <= end,
        end <= p.len(),
        p.len() <= u32::MAX,
        match_term(start, end, pat) is Ok,
    ensures
        passes(match_term(start, end, pat)->Ok_0, p) <==> pattern_holds(
            pat,
            window(p, start as int, end - start),
        ),
{
    let width = (end - start) as nat;
    let w = window(p, start as int, end - start);
    let t = match_term(start, end, pat)->Ok_0;
    match pat {
        Pat::Exact(bits) => {
            lemma_value_widen(bits, width);
            law_range_test(start as int, widen(bits, width), p);
            if value(w) == value(bits) {
                law_value_injective(w, widen(bits, width));
            }
        },
        Pat::Cidr(address, prefix) => {
            let high = address.subrange(width - prefix, width as int);
            law_range_test(start + width - prefix, high, p);
            assert(window(p, start + width - prefix, prefix as int) =~= w.subrange(
                width - prefix,
                width as int,
            ));
        },
        Pat::Wildcard(address, mask) => {
            lemma_masked(start as int, address, mask, width as int, p);
            lemma_conj(masked_tests(start as int, address, mask, width as int), p);
            assert(forall|i: int| 0 <= i < width ==> #[trigger] w[i] == p[start + i]);
            if pattern_holds(pat, w) {
                assert forall|j: int| 0 <= j < width && !(#[trigger] mask[j]) implies p[start + j]
                    == address[j] by {
                    assert(w[j] == address[j]);
                }
            }
            if passes(t, p) {
                assert forall|j: int| 0 <= j < w.len() && !(#[trigger] mask[j]) implies w[j]
                    == address[j] by {
                    assert(p[start + j] == address[j]);
                }
            }
        },
        Pat::IpRange(lo, hi) => {
            let l = if lo.len() < width {
                widen(lo, width)
            } else {
                lo
            };
            let h = if hi.len() < width {
                widen(hi, width)
            } else {
                hi
            };
            if lo.len() < width {
                lemma_value_widen(lo, width);
            }
            if hi.len() < width {
                lemma_value_widen(hi, width);
            }
            law_range_test(start as int, l, p);
            if width > 0 {
                law_bound_test(start as int, l, false, p);
                law_bound_test(start as int, h, true, p);
            }
            if all_on(h) {
                lemma_value_all_on(w, h);
            }
            if value(l) == value(h) && value(w) == value(l) {
                law_value_injective(w, l);
            }
            reveal_with_fuel(passes, 2);
        },
    }
}


// ---- fields and holes ----------------------------------------------------------------------------

/// The fields of the expression are below `n`, and its holes below `k`.
pub open spec fn bounded(t: Term, n: nat, k: nat) -> bool
    decreases t,
{
    match t {
        Term::Hole(h) => h.0 < k,
        Term::Assign(f, _) => f < n,
        Term::Test(f, _) => f < n,
        Term::Union(a, b) => bounded(*a, n, k) && bounded(*b, n, k),
        Term::Intersect(a, b) => bounded(*a, n, k) && bounded(*b, n, k),
        Term::Xor(a, b) => bounded(*a, n, k) && bounded(*b, n, k),
        Term::Difference(a, b) => bounded(*a, n, k) && bounded(*b, n, k),
        Term::Sequence(a, b) => bounded(*a, n, k) && bounded(*b, n, k),
        Term::LtlUntil(a, b) => bounded(*a, n, k) && bounded(*b, n, k),
        Term::Complement(a) => bounded(*a, n, k),
        Term::Star(a) => bounded(*a, n, k),
        Term::LtlNext(a) => bounded(*a, n, k),
        Term::TestNegation(a) => bounded(*a, n, k),
        Term::IfThenElse(a, b, c) => bounded(*a, n, k) && bounded(*b, n, k) && bounded(*c, n, k),
        Term::Let(_, a, b) => bounded(*a, n, k) && bounded(*b, n, k),
        Term::LetBitRange(_, _, g, a) => g <= n && bounded(*a, n, k),
        Term::BitRangeAssign(_, g, _) => g <= n,
        Term::BitRangeTest(_, g, _) => g <= n,
        Term::BitRangeMatch(_, g, _) => g <= n,
        _ => true,
    }
}

/// The expressions and the ranges of the scope are bounded.
pub open spec fn scope_bounded(s: Scope, n: nat, k: nat) -> bool {
    &&& forall|x: Seq<char>| #[trigger] s.vars.contains_key(x) ==> bounded(s.vars[x], n, k)
    &&& forall|x: Seq<char>| #[trigger] s.ranges.contains_key(x) ==> s.ranges[x].0
        <= s.ranges[x].1 <= n
}

/// An expression without holes is bounded by the number of its fields.
pub proof fn lemma_bounded(t: Term, m: nat, n: nat, k: nat)
    requires
        bounded(t, m, 0),
        fields_of(t) <= n,
    ensures
        bounded(t, n, k),
    decreases t,
{
    match t {
        Term::Union(a, b) => {
            lemma_bounded(*a, m, n, k);
            lemma_bounded(*b, m, n, k);
        },
        Term::Intersect(a, b) => {
            lemma_bounded(*a, m, n, k);
            lemma_bounded(*b, m, n, k);
        },
        Term::Xor(a, b) => {
            lemma_bounded(*a, m, n, k);
            lemma_bounded(*b, m, n, k);
        },
        Term::Difference(a, b) => {
            lemma_bounded(*a, m, n, k);
            lemma_bounded(*b, m, n, k);
        },
        Term::Sequence(a, b) => {
            lemma_bounded(*a, m, n, k);
            lemma_bounded(*b, m, n, k);
        },
        Term::LtlUntil(a, b) => {
            lemma_bounded(*a, m, n, k);
            lemma_bounded(*b, m, n, k);
        },
        Term::Complement(a) => lemma_bounded(*a, m, n, k),
        Term::Star(a) => lemma_bounded(*a, m, n, k),
        Term::LtlNext(a) => lemma_bounded(*a, m, n, k),
        Term::TestNegation(a) => lemma_bounded(*a, m, n, k),
        Term::IfThenElse(a, b, c) => {
            lemma_bounded(*a, m, n, k);
            lemma_bounded(*b, m, n, k);
            lemma_bounded(*c, m, n, k);
        },
        Term::Let(_, a, b) => {
            lemma_bounded(*a, m, n, k);
            lemma_bounded(*b, m, n, k);
        },
        Term::LetBitRange(_, _, _, a) => lemma_bounded(*a, m, n, k),
        _ => {},
    }
}

/// A bounded expression names no more fields.
pub proof fn lemma_fields(t: Term, n: nat, k: nat)
    requires
        bounded(t, n, k),
    ensures
        fields_of(t) <= n,
    decreases t,
{
    match t {
        Term::Union(a, b) => {
            lemma_fields(*a, n, k);
            lemma_fields(*b, n, k);
        },
        Term::Intersect(a, b) => {
            lemma_fields(*a, n, k);
            lemma_fields(*b, n, k);
        },
        Term::Xor(a, b) => {
            lemma_fields(*a, n, k);
            lemma_fields(*b, n, k);
        },
        Term::Difference(a, b) => {
            lemma_fields(*a, n, k);
            lemma_fields(*b, n, k);
        },
        Term::Sequence(a, b) => {
            lemma_fields(*a, n, k);
            lemma_fields(*b, n, k);
        },
        Term::LtlUntil(a, b) => {
            lemma_fields(*a, n, k);
            lemma_fields(*b, n, k);
        },
        Term::Complement(a) => lemma_fields(*a, n, k),
        Term::Star(a) => lemma_fields(*a, n, k),
        Term::LtlNext(a) => lemma_fields(*a, n, k),
        Term::TestNegation(a) => lemma_fields(*a, n, k),
        Term::IfThenElse(a, b, c) => {
            lemma_fields(*a, n, k);
            lemma_fields(*b, n, k);
            lemma_fields(*c, n, k);
        },
        Term::Let(_, a, b) => {
            lemma_fields(*a, n, k);
            lemma_fields(*b, n, k);
        },
        Term::LetBitRange(_, _, _, a) => lemma_fields(*a, n, k),
        _ => {},
    }
}

/// A core expression without holes is closed over its fields.
pub proof fn lemma_closed(t: Term, n: nat)
    requires
        is_core(t),
        bounded(t, n, 0),
    ensures
        crate::lang::closed_over(t, n),
    decreases t,
{
    match t {
        Term::Union(a, b) => {
            lemma_closed(*a, n);
            lemma_closed(*b, n);
        },
        Term::Intersect(a, b) => {
            lemma_closed(*a, n);
            lemma_closed(*b, n);
        },
        Term::Xor(a, b) => {
            lemma_closed(*a, n);
            lemma_closed(*b, n);
        },
        Term::Difference(a, b) => {
            lemma_closed(*a, n);
            lemma_closed(*b, n);
        },
        Term::Sequence(a, b) => {
            lemma_closed(*a, n);
            lemma_closed(*b, n);
        },
        Term::LtlUntil(a, b) => {
            lemma_closed(*a, n);
            lemma_closed(*b, n);
        },
        Term::Complement(a) => lemma_closed(*a, n),
        Term::Star(a) => lemma_closed(*a, n),
        Term::LtlNext(a) => lemma_closed(*a, n),
        _ => {},
    }
}

proof fn lemma_assign_bounded(start: int, bits: Seq<bool>, n: nat, k: nat)
    requires
        0 <= start,
        start + bits.len() <= n,
        n <= u32::MAX,
    ensures
        bounded(assign_term(start, bits), n, k),
    decreases bits.len(),
{
    reveal_with_fuel(bounded, 3);
    if bits.len() > 1 {
        lemma_assign_bounded(start + 1, bits.drop_first(), n, k);
    }
}

pub proof fn lemma_test_bounded(start: int, bits: Seq<bool>, n: nat, k: nat)
    requires
        0 <= start,
        start + bits.len() <= n,
        n <= u32::MAX,
    ensures
        bounded(test_term(start, bits), n, k),
    decreases bits.len(),
{
    reveal_with_fuel(bounded, 3);
    if bits.len() > 1 {
        lemma_test_bounded(start + 1, bits.drop_first(), n, k);
    }
}

/// All of the expressions are bounded.
pub open spec fn all_bounded(ts: Seq<Term>, n: nat, k: nat) -> bool {
    forall|i: int| 0 <= i < ts.len() ==> bounded(#[trigger] ts[i], n, k)
}

proof fn lemma_conj_bounded(ts: Seq<Term>, n: nat, k: nat)
    requires
        all_bounded(ts, n, k),
    ensures
        bounded(conj(ts), n, k),
        bounded(disj(ts), n, k),
    decreases ts.len(),
{
    if ts.len() > 1 {
        assert forall|i: int| 0 <= i < ts.drop_first().len() implies bounded(
            #[trigger] ts.drop_first()[i],
            n,
            k,
        ) by {
            assert(ts.drop_first()[i] == ts[i + 1]);
        }
        lemma_conj_bounded(ts.drop_first(), n, k);
        assert(bounded(ts[0], n, k));
    } else if ts.len() == 1 {
        assert(bounded(ts[0], n, k));
    }
}

proof fn lemma_high_bounded(start: int, bound: Seq<bool>, i: int, n: nat, k: nat)
    requires
        0 <= start,
        0 <= i,
        start + bound.len() <= n,
        n <= u32::MAX,
    ensures
        all_bounded(high_tests(start, bound, i), n, k),
    decreases bound.len() - i,
{
    if i < bound.len() {
        lemma_high_bounded(start, bound, i + 1, n, k);
    }
}

proof fn lemma_terms_bounded(start: int, bound: Seq<bool>, flag: bool, i: int, n: nat, k: nat)
    requires
        0 <= start,
        0 <= i,
        start + bound.len() <= n,
        n <= u32::MAX,
    ensures
        all_bounded(bound_terms(start, bound, flag, i), n, k),
    decreases bound.len() - i,
{
    if i < bound.len() {
        lemma_terms_bounded(start, bound, flag, i + 1, n, k);
        lemma_high_bounded(start, bound, i + 1, n, k);
        let hs = high_tests(start, bound, i + 1).push(Term::Test((start + i) as u32, !flag));
        assert(all_bounded(hs, n, k));
        lemma_conj_bounded(hs, n, k);
    }
}

proof fn lemma_bound_bounded(start: int, bound: Seq<bool>, flag: bool, n: nat, k: nat)
    requires
        0 <= start,
        start + bound.len() <= n,
        n <= u32::MAX,
    ensures
        bounded(bound_term(start, bound, flag), n, k),
{
    if bound.len() > 0 {
        lemma_terms_bounded(start, bound, flag, 0, n, k);
        lemma_high_bounded(start, bound, 0, n, k);
        lemma_conj_bounded(high_tests(start, bound, 0), n, k);
        let ts = bound_terms(start, bound, flag, 0).push(conj(high_tests(start, bound, 0)));
        assert(all_bounded(ts, n, k));
        lemma_conj_bounded(ts, n, k);
    }
}

proof fn lemma_masked_bounded(
    start: int,
    address: Seq<bool>,
    mask: Seq<bool>,
    i: int,
    n: nat,
    k: nat,
)
    requires
        0 <= start,
        start + i <= n,
        n <= u32::MAX,
    ensures
        all_bounded(masked_tests(start, address, mask, i), n, k),
    decreases i,
{
    if i > 0 {
        lemma_masked_bounded(start, address, mask, i - 1, n, k);
    }
}

pub proof fn lemma_match_bounded(start: Field, end: Field, pat: Pat, n: nat, k: nat)
    requires
        start <= end <= n,
        n <= u32::MAX,
    ensures
        match_term(start, end, pat) matches Ok(t) ==> bounded(t, n, k),
{
    let width = (end - start) as nat;
    match pat {
        Pat::Exact(bits) => {
            if bits.len() <= width {
                lemma_test_bounded(start as int, widen(bits, width), n, k);
            }
        },
        Pat::Cidr(address, prefix) => {
            if prefix <= width && address.len() == width {
                lemma_test_bounded(
                    start + width - prefix,
                    address.subrange(width - prefix, width as int),
                    n,
                    k,
                );
            }
        },
        Pat::Wildcard(address, mask) => {
            lemma_masked_bounded(start as int, address, mask, width as int, n, k);
            lemma_conj_bounded(masked_tests(start as int, address, mask, width as int), n, k);
        },
        Pat::IpRange(lo, hi) => {
            let (l, h) = if lo.len() < width && hi.len() < width {
                (widen(lo, width), widen(hi, width))
            } else {
                (lo, hi)
            };
            if l.len() == width && h.len() == width {
                lemma_test_bounded(start as int, l, n, k);
                lemma_bound_bounded(start as int, h, true, n, k);
                lemma_bound_bounded(start as int, l, false, n, k);
            }
        },
    }
}

pub proof fn lemma_negation_bounded(t: Term, n: nat, k: nat)
    requires
        bounded(t, n, k),
    ensures
        bounded(negation(t), n, k),
    decreases t,
{
    reveal_with_fuel(bounded, 3);
    match t {
        Term::Union(a, b) => {
            lemma_negation_bounded(*a, n, k);
            lemma_negation_bounded(*b, n, k);
        },
        Term::Intersect(a, b) => {
            lemma_negation_bounded(*a, n, k);
            lemma_negation_bounded(*b, n, k);
        },
        Term::Sequence(a, b) => {
            lemma_negation_bounded(*a, n, k);
            lemma_negation_bounded(*b, n, k);
        },
        Term::Xor(a, b) => {
            lemma_negation_bounded(*a, n, k);
            lemma_negation_bounded(*b, n, k);
        },
        Term::Difference(a, b) => {
            lemma_negation_bounded(*a, n, k);
        },
        _ => {},
    }
}

proof fn lemma_choice_bounded(x: Term, w: Term, y: Term, z: Term, n: nat, k: nat)
    requires
        bounded(x, n, k),
        bounded(w, n, k),
        bounded(y, n, k),
        bounded(z, n, k),
    ensures
        bounded(
            Term::Union(
                Box::new(Term::Sequence(Box::new(x), Box::new(y))),
                Box::new(Term::Sequence(Box::new(w), Box::new(z))),
            ),
            n,
            k,
        ),
{
    reveal_with_fuel(bounded, 3);
}

/// Taking the sugar out of an expression adds no fields and no holes.
#[verifier::rlimit(80)]
pub proof fn law_expand_bounded(t: Term, s: Scope, n: nat, k: nat)
    requires
        ranges_ok(t),
        bounded(t, n, k),
        scope_bounded(s, n, k),
        s.ordered(),
        n <= u32::MAX,
    ensures
        expand(t, s) matches Ok(u) ==> bounded(u, n, k),
    decreases t,
{
    match t {
        Term::VarAssign(x, bits) => {
            if s.ranges.contains_key(x) {
                let (f, g) = s.ranges[x];
                if bits.len() <= g - f {
                    lemma_assign_bounded(f as int, widen(bits, (g - f) as nat), n, k);
                }
            }
        },
        Term::VarTest(x, bits) => {
            if s.ranges.contains_key(x) {
                let (f, g) = s.ranges[x];
                if bits.len() <= g - f {
                    lemma_test_bounded(f as int, widen(bits, (g - f) as nat), n, k);
                }
            }
        },
        Term::BitRangeAssign(f, g, bits) => {
            if bits.len() == g - f {
                lemma_assign_bounded(f as int, bits, n, k);
            }
        },
        Term::BitRangeTest(f, g, bits) => {
            if bits.len() == g - f {
                lemma_test_bounded(f as int, bits, n, k);
            }
        },
        Term::BitRangeMatch(f, g, pat) => lemma_match_bounded(f, g, pat, n, k),
        Term::VarMatch(x, pat) => {
            if s.ranges.contains_key(x) {
                lemma_match_bounded(s.ranges[x].0, s.ranges[x].1, pat, n, k);
            }
        },
        Term::Union(a, b) => {
            law_expand_bounded(*a, s, n, k);
            law_expand_bounded(*b, s, n, k);
        },
        Term::Intersect(a, b) => {
            law_expand_bounded(*a, s, n, k);
            law_expand_bounded(*b, s, n, k);
        },
        Term::Xor(a, b) => {
            law_expand_bounded(*a, s, n, k);
            law_expand_bounded(*b, s, n, k);
        },
        Term::Difference(a, b) => {
            law_expand_bounded(*a, s, n, k);
            law_expand_bounded(*b, s, n, k);
        },
        Term::Sequence(a, b) => {
            law_expand_bounded(*a, s, n, k);
            law_expand_bounded(*b, s, n, k);
        },
        Term::LtlUntil(a, b) => {
            law_expand_bounded(*a, s, n, k);
            law_expand_bounded(*b, s, n, k);
        },
        Term::Complement(a) => law_expand_bounded(*a, s, n, k),
        Term::Star(a) => law_expand_bounded(*a, s, n, k),
        Term::LtlNext(a) => law_expand_bounded(*a, s, n, k),
        Term::TestNegation(a) => {
            law_expand_bounded(*a, s, n, k);
            lemma_expand_ordered(*a, s);
            if let Ok(x) = expand(*a, s) {
                if test_fragment(x) {
                    lemma_negated_bounded(x, n, k);
                }
            }
        },
        Term::IfThenElse(a, b, c) => {
            law_expand_bounded(*a, s, n, k);
            law_expand_bounded(*b, s, n, k);
            law_expand_bounded(*c, s, n, k);
            if let (Ok(x), Ok(y), Ok(z)) = (expand(*a, s), expand(*b, s), expand(*c, s)) {
                if test_fragment(x) {
                    lemma_expand_ordered(*a, s);
                    lemma_negated_bounded(x, n, k);
                    if let Ok(w) = negated(x) {
                        lemma_choice_bounded(x, w, y, z, n, k);
                    }
                }
            }
        },
        Term::Let(x, a, b) => {
            law_expand_bounded(*a, s, n, k);
            lemma_expand_ordered(*a, s);
            if let Ok(d) = expand(*a, s) {
                law_expand_bounded(*b, s.bind(x, d), n, k);
            }
        },
        Term::LetBitRange(x, f, g, b) => {
            law_expand_bounded(*b, s.name(x, f, g), n, k);
        },
        _ => {},
    }
}


// ---- lists of expressions ------------------------------------------------------------------------

/// The expressions without sugar, for those that have no error.
pub open spec fn expanded(ts: Seq<Term>) -> Seq<Term>
    decreases ts.len(),
{
    if ts.len() == 0 {
        Seq::empty()
    } else {
        match expand(ts.last(), Scope::empty()) {
            Ok(t) => expanded(ts.drop_last()).push(t),
            Err(_) => expanded(ts.drop_last()),
        }
    }
}

/// The expressions that have an error, by their index, and the messages.
pub open spec fn rejected(ts: Seq<Term>) -> Seq<(int, Seq<char>)>
    decreases ts.len(),
{
    if ts.len() == 0 {
        Seq::empty()
    } else {
        match expand(ts.last(), Scope::empty()) {
            Ok(_) => rejected(ts.drop_last()),
            Err(m) => rejected(ts.drop_last()).push((ts.len() - 1, m)),
        }
    }
}

/// Takes the sugar out of all expressions, one by one: those without errors, in
/// order, and the errors of the others.
pub fn desugar_all(exprs: &Vec<Exp>) -> (r: (Vec<Exp>, Vec<(usize, DesugarError)>))
    requires
        forall|i: int| 0 <= i < exprs@.len() ==> ranges_ok((#[trigger] exprs@[i])@),
    ensures
        r.0@.map_values(|e: Exp| e@) == expanded(exprs@.map_values(|e: Exp| e@)),
        r.1@.map_values(|e: (usize, DesugarError)| (e.0 as int, e.1.message@)) == rejected(
            exprs@.map_values(|e: Exp| e@),
        ),
{
    let ghost ts = exprs@.map_values(|e: Exp| e@);
    let mut good: Vec<Exp> = Vec::new();
    let mut bad: Vec<(usize, DesugarError)> = Vec::new();
    let mut i: usize = 0;
    proof {
        assert(ts.take(0).len() == 0);
        assert(good@.map_values(|e: Exp| e@) =~= Seq::<Term>::empty());
        assert(bad@.map_values(|e: (usize, DesugarError)| (e.0 as int, e.1.message@))
            =~= Seq::<(int, Seq<char>)>::empty());
    }
    while i < exprs.len()
        invariant
            forall|i: int| 0 <= i < exprs@.len() ==> ranges_ok((#[trigger] exprs@[i])@),
            ts == exprs@.map_values(|e: Exp| e@),
            i <= exprs@.len(),
            good@.map_values(|e: Exp| e@) == expanded(ts.take(i as int)),
            bad@.map_values(|e: (usize, DesugarError)| (e.0 as int, e.1.message@)) == rejected(
                ts.take(i as int),
            ),
        decreases exprs.len() - i,
    {
        let ghost good0 = good@.map_values(|e: Exp| e@);
        let ghost bad0 = bad@.map_values(|e: (usize, DesugarError)| (e.0 as int, e.1.message@));
        proof {
            assert(ts.take(i + 1).drop_last() =~= ts.take(i as int));
            assert(ts.take(i + 1).last() == exprs@[i as int]@);
        }
        match desugar(&exprs[i]) {
            Ok(e) => {
                let ghost t = e@;
                good.push(e);
                proof {
                    assert(good@.map_values(|e: Exp| e@) =~= good0.push(t));
                }
            },
            Err(e) => {
                let ghost m = e.message@;
                bad.push((i, e));
                proof {
                    assert(bad@.map_values(
                        |e: (usize, DesugarError)| (e.0 as int, e.1.message@),
                    ) =~= bad0.push((i as int, m)));
                }
            },
        }
        i = i + 1;
    }
    proof {
        assert(ts.take(ts.len() as int) =~= ts);
    }
    (good, bad)
}

} // verus!
