//! The formulas and the solver of Z3, as far as the learner uses them.
//!
//! A formula is built from truth values, named constants and applications of named
//! functions to truth values and numbers.  What it means is stated over
//! interpretations: what each name is, as a function to truth values.
use vstd::prelude::*;

verus! {

/// An argument of a named function.
pub enum Value {
    Bit(bool),
    Num(u64),
}

/// What each name stands for: a truth value for each list of arguments.  A constant
/// has none.
pub type Interp = spec_fn(Seq<char>, Seq<Value>) -> bool;

/// A formula of Z3, `z3::ast::Bool`.
#[verifier::external_body]
pub struct Formula {
    inner: z3::ast::Bool,
}

/// A term of Z3 of any sort, `z3::ast::Dynamic`.
#[verifier::external_body]
pub struct AnyTerm {
    inner: z3::ast::Dynamic,
}

/// A named function of Z3.
#[verifier::external_type_specification]
#[verifier::external_body]
pub struct ExFuncDecl(z3::FuncDecl);

/// A solver of Z3.
#[verifier::external_type_specification]
#[verifier::external_body]
pub struct ExSolver(z3::Solver);

/// A model that Z3 found.
#[verifier::external_type_specification]
#[verifier::external_body]
pub struct ExModel(z3::Model);

/// Whether the formula is true under the interpretation.
pub uninterp spec fn meaning(b: Formula, i: Interp) -> bool;

/// What the term is under the interpretation.
pub uninterp spec fn value_of(d: AnyTerm, i: Interp) -> Value;

/// The name of the function, and which of its arguments are truth values; the
/// others are numbers.
pub uninterp spec fn declared(f: z3::FuncDecl) -> (Seq<char>, Seq<bool>);

/// Whether everything that was asserted is true under the interpretation.
pub uninterp spec fn asserted(s: z3::Solver, i: Interp) -> bool;

/// The interpretation of a model, with what the model leaves open filled in.
pub uninterp spec fn interp_of(m: z3::Model) -> Interp;

/// The name has no zero character.
pub open spec fn is_name(s: Seq<char>) -> bool {
    forall|i: int| 0 <= i < s.len() ==> #[trigger] s[i] != '\0'
}

/// What the terms are under the interpretation.
pub open spec fn values_of(args: Seq<AnyTerm>, i: Interp) -> Seq<Value> {
    args.map_values(|d: AnyTerm| value_of(d, i))
}

/// Each argument is a truth value or a number as the function wants it.
pub open spec fn well_sorted(f: z3::FuncDecl, args: Seq<AnyTerm>) -> bool {
    &&& args.len() == declared(f).1.len()
    &&& forall|k: int, i: Interp|
        #![trigger value_of(args[k], i)]
        0 <= k < args.len() ==> (value_of(args[k], i) is Bit) == declared(f).1[k]
}

/// Some formula of the list is true under the interpretation.
pub open spec fn any_true(v: Seq<Formula>, i: Interp) -> bool {
    exists|k: int| 0 <= k < v.len() && meaning(#[trigger] v[k], i)
}

/// What the solver found out of what was asserted.
pub enum Answer {
    /// Nothing makes all of it true.
    Unsat,
    /// The solver gave up.
    Unknown,
    /// The interpretation of the model does.
    Sat(z3::Model),
}

/// The formula that is true, or the one that is false: `z3::ast::Bool::from_bool`.
#[verifier::external_body]
pub(crate) fn bool_value(b: bool) -> (r: Formula)
    ensures
        forall|i: Interp| #[trigger] meaning(r, i) == b,
{
    Formula { inner: z3::ast::Bool::from_bool(b) }
}

/// The constant of a name: `z3::ast::Bool::new_const`.  It is true where the
/// interpretation makes the name true.
#[verifier::external_body]
pub(crate) fn bool_const(name: &str) -> (r: Formula)
    requires
        is_name(name@),
        name@.len() > 0,
    ensures
        forall|i: Interp| #[trigger] meaning(r, i) == i(name@, Seq::empty()),
{
    Formula { inner: z3::ast::Bool::new_const(name) }
}

/// The negation: `z3::ast::Bool::not`.
#[verifier::external_body]
pub(crate) fn bool_not(b: &Formula) -> (r: Formula)
    ensures
        forall|i: Interp| #[trigger] meaning(r, i) == !meaning(*b, i),
{
    Formula { inner: b.inner.not() }
}

/// The disjunction: `z3::ast::Bool::or`.
#[verifier::external_body]
pub(crate) fn bool_or(v: &Vec<Formula>) -> (r: Formula)
    requires
        0 < v@.len() <= u32::MAX,
    ensures
        forall|i: Interp| #[trigger] meaning(r, i) == any_true(v@, i),
{
    let inner: Vec<&z3::ast::Bool> = v.iter().map(|f| &f.inner).collect();
    Formula { inner: z3::ast::Bool::or(&inner) }
}

/// The first formula if the condition is true and the second if not:
/// `z3::ast::Bool::ite`.
#[verifier::external_body]
pub(crate) fn bool_ite(c: &Formula, a: &Formula, b: &Formula) -> (r: Formula)
    ensures
        forall|i: Interp| #[trigger]
            meaning(r, i) == (if meaning(*c, i) {
                meaning(*a, i)
            } else {
                meaning(*b, i)
            }),
{
    Formula { inner: c.inner.ite(&a.inner, &b.inner) }
}

/// A formula as an argument: `z3::ast::Dynamic::from_ast`.
#[verifier::external_body]
pub(crate) fn bit_term(b: &Formula) -> (r: AnyTerm)
    ensures
        forall|i: Interp| #[trigger] value_of(r, i) == Value::Bit(meaning(*b, i)),
{
    AnyTerm { inner: z3::ast::Dynamic::from_ast(&b.inner) }
}

/// A number as an argument: `z3::ast::Int::from_u64`.
#[verifier::external_body]
pub(crate) fn num_term(n: u64) -> (r: AnyTerm)
    ensures
        forall|i: Interp| #[trigger] value_of(r, i) == Value::Num(n),
{
    AnyTerm { inner: z3::ast::Dynamic::from_ast(&z3::ast::Int::from_u64(n)) }
}

/// A named function from truth values and numbers to truth values:
/// `z3::FuncDecl::new`.
#[verifier::external_body]
pub(crate) fn declare(name: &str, bits: &Vec<bool>) -> (f: z3::FuncDecl)
    requires
        is_name(name@),
        name@.len() > 0,
        bits@.len() <= u32::MAX,
    ensures
        declared(f) == (name@, bits@),
{
    let bit = z3::Sort::bool();
    let num = z3::Sort::int();
    let domain: Vec<&z3::Sort> = bits.iter().map(|b| if *b { &bit } else { &num }).collect();
    z3::FuncDecl::new(name, &domain, &bit)
}

/// A named function, applied to arguments: `z3::FuncDecl::apply`.  The result is
/// true where the interpretation makes the name true of what the arguments are.
#[verifier::external_body]
pub(crate) fn apply(f: &z3::FuncDecl, args: &Vec<AnyTerm>) -> (r: Formula)
    requires
        well_sorted(*f, args@),
    ensures
        forall|i: Interp| #[trigger]
            meaning(r, i) == i(declared(*f).0, values_of(args@, i)),
{
    let refs: Vec<&dyn z3::ast::Ast> = args.iter().map(|a| &a.inner as &dyn z3::ast::Ast).collect();
    Formula { inner: f.apply(&refs).as_bool().unwrap() }
}

/// A solver to which nothing is asserted: `z3::Solver::new`.
#[verifier::external_body]
pub(crate) fn new_solver() -> (s: z3::Solver)
    ensures
        forall|i: Interp| #[trigger] asserted(s, i),
{
    z3::Solver::new()
}

/// Assert a formula: `z3::Solver::assert`.
#[verifier::external_body]
pub(crate) fn assert_formula(s: &mut z3::Solver, b: &Formula)
    ensures
        forall|i: Interp| #[trigger]
            asserted(*final(s), i) == (asserted(*old(s), i) && meaning(*b, i)),
{
    s.assert(&b.inner)
}

/// Ask whether what was asserted can be true: `z3::Solver::check`, and the model
/// that it found from `z3::Solver::get_model`.  An answer is right; that there is
/// one is not claimed.
#[verifier::external_body]
pub(crate) fn solve(s: &z3::Solver) -> (r: Answer)
    ensures
        r is Unsat ==> forall|i: Interp| !#[trigger] asserted(*s, i),
        r matches Answer::Sat(m) ==> asserted(*s, interp_of(m)),
{
    match s.check() {
        z3::SatResult::Unsat => Answer::Unsat,
        z3::SatResult::Unknown => Answer::Unknown,
        z3::SatResult::Sat => match s.get_model() {
            Some(m) => Answer::Sat(m),
            None => Answer::Unknown,
        },
    }
}

/// The truth value of a formula under a model: `z3::Model::eval`, with what the
/// model leaves open filled in.  That there is a value is not claimed.
#[verifier::external_body]
pub(crate) fn eval(m: &z3::Model, b: &Formula) -> (r: Option<bool>)
    ensures
        r matches Some(x) ==> x == meaning(*b, interp_of(*m)),
{
    match m.eval(&b.inner, true) {
        Some(v) => v.as_bool(),
        None => None,
    }
}

} // verus!
