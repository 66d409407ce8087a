//! NetKAT expressions, with the sugar of the surface syntax.
use vstd::prelude::*;
use vstd::string::*;
use crate::pre::Field;
use crate::sp::Pkt;
use crate::text::{
    bit_digits, bits_text, copy_bits, copy_text, decimal, join2, join3, join5, join7, number,
};

verus! {

/// A formal hole that stands for an unknown sub-program.
#[derive(Clone, Copy, Debug, PartialEq, Eq, PartialOrd, Ord, Hash, Structural)]
pub struct Hole(pub u32);

/// An expression on the heap.
pub type Exp = Box<Expr>;

/// What a bit range is matched against.  Bits are given least significant
/// first.
#[derive(Debug, Clone, PartialEq, Eq)]
pub enum Pattern {
    /// One value.
    Exact(Vec<bool>),
    /// The values that agree with `address` on the `prefix_len` highest bits.
    Cidr { address: Vec<bool>, prefix_len: usize },
    /// The values that agree with `address` where `mask` is off.
    Wildcard { address: Vec<bool>, mask: Vec<bool> },
    /// The values from `start` to `end`, both included in the range.
    IpRange { start: Vec<bool>, end: Vec<bool> },
}

/// A pattern as a mathematical value.
pub enum Pat {
    Exact(Seq<bool>),
    Cidr(Seq<bool>, nat),
    Wildcard(Seq<bool>, Seq<bool>),
    IpRange(Seq<bool>, Seq<bool>),
}

impl View for Pattern {
    type V = Pat;

    open spec fn view(&self) -> Pat {
        match *self {
            Pattern::Exact(bits) => Pat::Exact(bits@),
            Pattern::Cidr { address, prefix_len } => Pat::Cidr(address@, prefix_len as nat),
            Pattern::Wildcard { address, mask } => Pat::Wildcard(address@, mask@),
            Pattern::IpRange { start, end } => Pat::IpRange(start@, end@),
        }
    }
}

impl Pattern {
    /// A pattern of the same bits.
    pub fn copy(&self) -> (r: Pattern)
        ensures
            r@ == self@,
    {
        match self {
            Pattern::Exact(bits) => Pattern::Exact(copy_bits(bits)),
            Pattern::Cidr { address, prefix_len } => Pattern::Cidr {
                address: copy_bits(address),
                prefix_len: *prefix_len,
            },
            Pattern::Wildcard { address, mask } => Pattern::Wildcard {
                address: copy_bits(address),
                mask: copy_bits(mask),
            },
            Pattern::IpRange { start, end } => Pattern::IpRange {
                start: copy_bits(start),
                end: copy_bits(end),
            },
        }
    }
}


/// A NetKAT expression.
#[derive(Debug, PartialEq, Eq)]
pub enum Expr {
    /// Drops every packet.
    Zero,
    /// Passes every packet unchanged.
    One,
    /// Every string of packets.
    Top,
    /// Records the packet in the trace.
    Dup,
    /// Turns any packet into any other, in one step.
    End,
    /// An unknown sub-program.
    Hole(Hole),
    /// Sets a field.
    Assign(Field, bool),
    /// Passes the packets whose field has the value.
    Test(Field, bool),
    /// Either.
    Union(Exp, Exp),
    /// Both.
    Intersect(Exp, Exp),
    /// Exactly one.
    Xor(Exp, Exp),
    /// The first, not the second.
    Difference(Exp, Exp),
    /// Every string that the expression does not have.
    Complement(Exp),
    /// One after the other.
    Sequence(Exp, Exp),
    /// Any number of times.
    Star(Exp),
    /// In the next step.
    LtlNext(Exp),
    /// The first, until the second.
    LtlUntil(Exp, Exp),
    /// The packets that the test does not pass.
    TestNegation(Exp),
    /// The second where the test holds, else the third.
    IfThenElse(Exp, Exp, Exp),
    /// A variable.
    Var(String),
    /// A variable bound in a body.
    Let(String, Exp, Exp),
    /// A name for the fields from the first to before the second, in a body.
    LetBitRange(String, Field, Field, Exp),
    /// Sets the fields of a named range.
    VarAssign(String, Vec<bool>),
    /// Tests the fields of a named range.
    VarTest(String, Vec<bool>),
    /// Sets the fields of a range.
    BitRangeAssign(Field, Field, Vec<bool>),
    /// Tests the fields of a range.
    BitRangeTest(Field, Field, Vec<bool>),
    /// Matches the fields of a range.
    BitRangeMatch(Field, Field, Pattern),
    /// Matches the fields of a named range.
    VarMatch(String, Pattern),
}

/// An expression as a mathematical value.
pub enum Term {
    Zero,
    One,
    Top,
    Dup,
    End,
    Hole(Hole),
    Assign(Field, bool),
    Test(Field, bool),
    Union(Box<Term>, Box<Term>),
    Intersect(Box<Term>, Box<Term>),
    Xor(Box<Term>, Box<Term>),
    Difference(Box<Term>, Box<Term>),
    Complement(Box<Term>),
    Sequence(Box<Term>, Box<Term>),
    Star(Box<Term>),
    LtlNext(Box<Term>),
    LtlUntil(Box<Term>, Box<Term>),
    TestNegation(Box<Term>),
    IfThenElse(Box<Term>, Box<Term>, Box<Term>),
    Var(Seq<char>),
    Let(Seq<char>, Box<Term>, Box<Term>),
    LetBitRange(Seq<char>, Field, Field, Box<Term>),
    VarAssign(Seq<char>, Seq<bool>),
    VarTest(Seq<char>, Seq<bool>),
    BitRangeAssign(Field, Field, Seq<bool>),
    BitRangeTest(Field, Field, Seq<bool>),
    BitRangeMatch(Field, Field, Pat),
    VarMatch(Seq<char>, Pat),
}

/// The mathematical value of an expression.
pub open spec fn term_of(e: Expr) -> Term
    decreases e,
{
    match e {
        Expr::Zero => Term::Zero,
        Expr::One => Term::One,
        Expr::Top => Term::Top,
        Expr::Dup => Term::Dup,
        Expr::End => Term::End,
        Expr::Hole(a) => Term::Hole(a),
        Expr::Assign(a, b) => Term::Assign(a, b),
        Expr::Test(a, b) => Term::Test(a, b),
        Expr::Union(a, b) => Term::Union(Box::new(term_of(*a)), Box::new(term_of(*b))),
        Expr::Intersect(a, b) => Term::Intersect(Box::new(term_of(*a)), Box::new(term_of(*b))),
        Expr::Xor(a, b) => Term::Xor(Box::new(term_of(*a)), Box::new(term_of(*b))),
        Expr::Difference(a, b) => Term::Difference(Box::new(term_of(*a)), Box::new(term_of(*b))),
        Expr::Complement(a) => Term::Complement(Box::new(term_of(*a))),
        Expr::Sequence(a, b) => Term::Sequence(Box::new(term_of(*a)), Box::new(term_of(*b))),
        Expr::Star(a) => Term::Star(Box::new(term_of(*a))),
        Expr::LtlNext(a) => Term::LtlNext(Box::new(term_of(*a))),
        Expr::LtlUntil(a, b) => Term::LtlUntil(Box::new(term_of(*a)), Box::new(term_of(*b))),
        Expr::TestNegation(a) => Term::TestNegation(Box::new(term_of(*a))),
        Expr::IfThenElse(a, b, c) => Term::IfThenElse(Box::new(term_of(*a)), Box::new(term_of(*b)), Box::new(term_of(*c))),
        Expr::Var(a) => Term::Var(a@),
        Expr::Let(a, b, c) => Term::Let(a@, Box::new(term_of(*b)), Box::new(term_of(*c))),
        Expr::LetBitRange(a, b, c, d) => Term::LetBitRange(a@, b, c, Box::new(term_of(*d))),
        Expr::VarAssign(a, b) => Term::VarAssign(a@, b@),
        Expr::VarTest(a, b) => Term::VarTest(a@, b@),
        Expr::BitRangeAssign(a, b, c) => Term::BitRangeAssign(a, b, c@),
        Expr::BitRangeTest(a, b, c) => Term::BitRangeTest(a, b, c@),
        Expr::BitRangeMatch(a, b, c) => Term::BitRangeMatch(a, b, c@),
        Expr::VarMatch(a, b) => Term::VarMatch(a@, b@),
    }
}

impl View for Expr {
    type V = Term;

    open spec fn view(&self) -> Term {
        term_of(*self)
    }
}

impl Clone for Expr {
    fn clone(&self) -> (r: Expr)
        ensures
            r@ == self@,
    {
        self.copy()
    }
}

impl Expr {
    pub fn zero() -> (e: Exp)
        ensures
            e@ == Term::Zero,
            *e == Expr::Zero,
    {
        Box::new(Expr::Zero)
    }

    pub fn one() -> (e: Exp)
        ensures
            e@ == Term::One,
            *e == Expr::One,
    {
        Box::new(Expr::One)
    }

    pub fn top() -> (e: Exp)
        ensures
            e@ == Term::Top,
            *e == Expr::Top,
    {
        Box::new(Expr::Top)
    }

    pub fn dup() -> (e: Exp)
        ensures
            e@ == Term::Dup,
            *e == Expr::Dup,
    {
        Box::new(Expr::Dup)
    }

    pub fn end() -> (e: Exp)
        ensures
            e@ == Term::End,
            *e == Expr::End,
    {
        Box::new(Expr::End)
    }

    pub fn hole(a: Hole) -> (e: Exp)
        ensures
            e@ == Term::Hole(a),
            *e == Expr::Hole(a),
    {
        Box::new(Expr::Hole(a))
    }

    pub fn assign(a: Field, b: bool) -> (e: Exp)
        ensures
            e@ == Term::Assign(a, b),
            *e == Expr::Assign(a, b),
    {
        Box::new(Expr::Assign(a, b))
    }

    pub fn test(a: Field, b: bool) -> (e: Exp)
        ensures
            e@ == Term::Test(a, b),
            *e == Expr::Test(a, b),
    {
        Box::new(Expr::Test(a, b))
    }

    pub fn union(a: Exp, b: Exp) -> (e: Exp)
        ensures
            e@ == Term::Union(Box::new(a@), Box::new(b@)),
            *e == Expr::Union(a, b),
    {
        Box::new(Expr::Union(a, b))
    }

    pub fn intersect(a: Exp, b: Exp) -> (e: Exp)
        ensures
            e@ == Term::Intersect(Box::new(a@), Box::new(b@)),
            *e == Expr::Intersect(a, b),
    {
        Box::new(Expr::Intersect(a, b))
    }

    pub fn xor(a: Exp, b: Exp) -> (e: Exp)
        ensures
            e@ == Term::Xor(Box::new(a@), Box::new(b@)),
            *e == Expr::Xor(a, b),
    {
        Box::new(Expr::Xor(a, b))
    }

    pub fn difference(a: Exp, b: Exp) -> (e: Exp)
        ensures
            e@ == Term::Difference(Box::new(a@), Box::new(b@)),
            *e == Expr::Difference(a, b),
    {
        Box::new(Expr::Difference(a, b))
    }

    pub fn complement(a: Exp) -> (e: Exp)
        ensures
            e@ == Term::Complement(Box::new(a@)),
            *e == Expr::Complement(a),
    {
        Box::new(Expr::Complement(a))
    }

    pub fn sequence(a: Exp, b: Exp) -> (e: Exp)
        ensures
            e@ == Term::Sequence(Box::new(a@), Box::new(b@)),
            *e == Expr::Sequence(a, b),
    {
        Box::new(Expr::Sequence(a, b))
    }

    pub fn star(a: Exp) -> (e: Exp)
        ensures
            e@ == Term::Star(Box::new(a@)),
            *e == Expr::Star(a),
    {
        Box::new(Expr::Star(a))
    }

    pub fn ltl_next(a: Exp) -> (e: Exp)
        ensures
            e@ == Term::LtlNext(Box::new(a@)),
            *e == Expr::LtlNext(a),
    {
        Box::new(Expr::LtlNext(a))
    }

    pub fn ltl_until(a: Exp, b: Exp) -> (e: Exp)
        ensures
            e@ == Term::LtlUntil(Box::new(a@), Box::new(b@)),
            *e == Expr::LtlUntil(a, b),
    {
        Box::new(Expr::LtlUntil(a, b))
    }

    pub fn test_negation(a: Exp) -> (e: Exp)
        ensures
            e@ == Term::TestNegation(Box::new(a@)),
            *e == Expr::TestNegation(a),
    {
        Box::new(Expr::TestNegation(a))
    }

    pub fn if_then_else(a: Exp, b: Exp, c: Exp) -> (e: Exp)
        ensures
            e@ == Term::IfThenElse(Box::new(a@), Box::new(b@), Box::new(c@)),
            *e == Expr::IfThenElse(a, b, c),
    {
        Box::new(Expr::IfThenElse(a, b, c))
    }

    pub fn var(a: String) -> (e: Exp)
        ensures
            e@ == Term::Var(a@),
            *e == Expr::Var(a),
    {
        Box::new(Expr::Var(a))
    }

    pub fn let_in(a: String, b: Exp, c: Exp) -> (e: Exp)
        ensures
            e@ == Term::Let(a@, Box::new(b@), Box::new(c@)),
            *e == Expr::Let(a, b, c),
    {
        Box::new(Expr::Let(a, b, c))
    }

    pub fn let_bit_range(a: String, b: Field, c: Field, d: Exp) -> (e: Exp)
        ensures
            e@ == Term::LetBitRange(a@, b, c, Box::new(d@)),
            *e == Expr::LetBitRange(a, b, c, d),
    {
        Box::new(Expr::LetBitRange(a, b, c, d))
    }

    pub fn var_assign(a: String, b: Vec<bool>) -> (e: Exp)
        ensures
            e@ == Term::VarAssign(a@, b@),
            *e == Expr::VarAssign(a, b),
    {
        Box::new(Expr::VarAssign(a, b))
    }

    pub fn var_test(a: String, b: Vec<bool>) -> (e: Exp)
        ensures
            e@ == Term::VarTest(a@, b@),
            *e == Expr::VarTest(a, b),
    {
        Box::new(Expr::VarTest(a, b))
    }

    pub fn bit_range_assign(a: Field, b: Field, c: Vec<bool>) -> (e: Exp)
        ensures
            e@ == Term::BitRangeAssign(a, b, c@),
            *e == Expr::BitRangeAssign(a, b, c),
    {
        Box::new(Expr::BitRangeAssign(a, b, c))
    }

    pub fn bit_range_test(a: Field, b: Field, c: Vec<bool>) -> (e: Exp)
        ensures
            e@ == Term::BitRangeTest(a, b, c@),
            *e == Expr::BitRangeTest(a, b, c),
    {
        Box::new(Expr::BitRangeTest(a, b, c))
    }

    pub fn bit_range_match(a: Field, b: Field, c: Pattern) -> (e: Exp)
        ensures
            e@ == Term::BitRangeMatch(a, b, c@),
            *e == Expr::BitRangeMatch(a, b, c),
    {
        Box::new(Expr::BitRangeMatch(a, b, c))
    }

    pub fn var_match(a: String, b: Pattern) -> (e: Exp)
        ensures
            e@ == Term::VarMatch(a@, b@),
            *e == Expr::VarMatch(a, b),
    {
        Box::new(Expr::VarMatch(a, b))
    }

    /// An expression of the same value.
    pub fn copy(&self) -> (r: Expr)
        ensures
            r@ == self@,
        decreases self,
    {
        match self {
            Expr::Zero => Expr::Zero,
            Expr::One => Expr::One,
            Expr::Top => Expr::Top,
            Expr::Dup => Expr::Dup,
            Expr::End => Expr::End,
            Expr::Hole(a) => Expr::Hole(*a),
            Expr::Assign(a, b) => Expr::Assign(*a, *b),
            Expr::Test(a, b) => Expr::Test(*a, *b),
            Expr::Union(a, b) => Expr::Union(Box::new(a.copy()), Box::new(b.copy())),
            Expr::Intersect(a, b) => Expr::Intersect(Box::new(a.copy()), Box::new(b.copy())),
            Expr::Xor(a, b) => Expr::Xor(Box::new(a.copy()), Box::new(b.copy())),
            Expr::Difference(a, b) => Expr::Difference(Box::new(a.copy()), Box::new(b.copy())),
            Expr::Complement(a) => Expr::Complement(Box::new(a.copy())),
            Expr::Sequence(a, b) => Expr::Sequence(Box::new(a.copy()), Box::new(b.copy())),
            Expr::Star(a) => Expr::Star(Box::new(a.copy())),
            Expr::LtlNext(a) => Expr::LtlNext(Box::new(a.copy())),
            Expr::LtlUntil(a, b) => Expr::LtlUntil(Box::new(a.copy()), Box::new(b.copy())),
            Expr::TestNegation(a) => Expr::TestNegation(Box::new(a.copy())),
            Expr::IfThenElse(a, b, c) => Expr::IfThenElse(Box::new(a.copy()), Box::new(b.copy()), Box::new(c.copy())),
            Expr::Var(a) => Expr::Var(copy_text(a)),
            Expr::Let(a, b, c) => Expr::Let(copy_text(a), Box::new(b.copy()), Box::new(c.copy())),
            Expr::LetBitRange(a, b, c, d) => Expr::LetBitRange(copy_text(a), *b, *c, Box::new(d.copy())),
            Expr::VarAssign(a, b) => Expr::VarAssign(copy_text(a), copy_bits(b)),
            Expr::VarTest(a, b) => Expr::VarTest(copy_text(a), copy_bits(b)),
            Expr::BitRangeAssign(a, b, c) => Expr::BitRangeAssign(*a, *b, copy_bits(c)),
            Expr::BitRangeTest(a, b, c) => Expr::BitRangeTest(*a, *b, copy_bits(c)),
            Expr::BitRangeMatch(a, b, c) => Expr::BitRangeMatch(*a, *b, c.copy()),
            Expr::VarMatch(a, b) => Expr::VarMatch(copy_text(a), b.copy()),
        }
    }

    /// Whether the expression lies in the test fragment, on which `!` is
    /// defined.
    pub fn is_test_fragment(&self) -> (b: bool)
        ensures
            b == test_fragment(self@),
        decreases self,
    {
        match self {
            Expr::Zero | Expr::One => true,
            Expr::Test(_, _) => true,
            Expr::VarTest(_, _) => true,
            Expr::BitRangeTest(_, _, _) => true,
            Expr::BitRangeMatch(_, _, _) => true,
            Expr::VarMatch(_, _) => true,
            Expr::Union(a, b) => a.is_test_fragment() && b.is_test_fragment(),
            Expr::Intersect(a, b) => a.is_test_fragment() && b.is_test_fragment(),
            Expr::Xor(a, b) => a.is_test_fragment() && b.is_test_fragment(),
            Expr::Difference(a, b) => a.is_test_fragment() && b.is_test_fragment(),
            Expr::Sequence(a, b) => a.is_test_fragment() && b.is_test_fragment(),
            Expr::TestNegation(a) => a.is_test_fragment(),
            _ => false,
        }
    }

    /// The number of fields that the expression needs: one more than the
    /// largest field it names.
    pub fn num_fields(&self) -> (n: u32)
        requires
            fields_of(self@) <= u32::MAX,
        ensures
            n == fields_of(self@),
        decreases self,
    {
        match self {
            Expr::Zero => 0,
            Expr::One => 0,
            Expr::Top => 0,
            Expr::Dup => 0,
            Expr::End => 0,
            Expr::Hole(_) => 0,
            Expr::Assign(a, _) => *a + 1,
            Expr::Test(a, _) => *a + 1,
            Expr::Union(a, b) => max_u32(a.num_fields(), b.num_fields()),
            Expr::Intersect(a, b) => max_u32(a.num_fields(), b.num_fields()),
            Expr::Xor(a, b) => max_u32(a.num_fields(), b.num_fields()),
            Expr::Difference(a, b) => max_u32(a.num_fields(), b.num_fields()),
            Expr::Complement(a) => a.num_fields(),
            Expr::Sequence(a, b) => max_u32(a.num_fields(), b.num_fields()),
            Expr::Star(a) => a.num_fields(),
            Expr::LtlNext(a) => a.num_fields(),
            Expr::LtlUntil(a, b) => max_u32(a.num_fields(), b.num_fields()),
            Expr::TestNegation(a) => a.num_fields(),
            Expr::IfThenElse(a, b, c) => max_u32(max_u32(a.num_fields(), b.num_fields()), c.num_fields()),
            Expr::Var(_) => 0,
            Expr::Let(_, b, c) => max_u32(b.num_fields(), c.num_fields()),
            Expr::LetBitRange(_, _, c, d) => max_u32(*c, d.num_fields()),
            Expr::VarAssign(_, _) => 0,
            Expr::VarTest(_, _) => 0,
            Expr::BitRangeAssign(_, b, _) => *b,
            Expr::BitRangeTest(_, b, _) => *b,
            Expr::BitRangeMatch(_, b, _) => *b,
            Expr::VarMatch(_, _) => 0,
        }
    }

    /// The expression in text form.
    pub fn to_text(&self) -> (s: String)
        ensures
            s@ == text_of(self@),
        decreases self,
    {
        match self {
            Expr::Zero => String::from_str("0"),
            Expr::One => String::from_str("1"),
            Expr::Top => String::from_str("T"),
            Expr::Dup => String::from_str("dup"),
            Expr::End => String::from_str("end"),
            Expr::Hole(h) => join2("?", number(h.0 as usize).as_str()),
            Expr::Assign(f, v) => join5("x", number(*f as usize).as_str(), " := ", if *v { "1" } else { "0" }, ""),
            Expr::Test(f, v) => join5("x", number(*f as usize).as_str(), " == ", if *v { "1" } else { "0" }, ""),
            Expr::Union(a, b) => join5("(", a.to_text().as_str(), " + ", b.to_text().as_str(), ")"),
            Expr::Intersect(a, b) => join5("(", a.to_text().as_str(), " & ", b.to_text().as_str(), ")"),
            Expr::Xor(a, b) => join5("(", a.to_text().as_str(), " ^ ", b.to_text().as_str(), ")"),
            Expr::Difference(a, b) => join5("(", a.to_text().as_str(), " - ", b.to_text().as_str(), ")"),
            Expr::Complement(a) => join3("~(", a.to_text().as_str(), ")"),
            Expr::Sequence(a, b) => join5("(", a.to_text().as_str(), " ; ", b.to_text().as_str(), ")"),
            Expr::Star(a) => join3("(", a.to_text().as_str(), ")*"),
            Expr::LtlNext(a) => join3("X(", a.to_text().as_str(), ")"),
            Expr::LtlUntil(a, b) => join5("(", a.to_text().as_str(), " U ", b.to_text().as_str(), ")"),
            Expr::TestNegation(a) => join3("!(", a.to_text().as_str(), ")"),
            Expr::IfThenElse(a, b, c) => join7("if ", a.to_text().as_str(), " then ", b.to_text().as_str(), " else ", c.to_text().as_str(), ""),
            Expr::Var(x) => copy_text(x),
            Expr::Let(x, a, b) => join7("let ", x.as_str(), " = ", a.to_text().as_str(), " in ", b.to_text().as_str(), ""),
            Expr::LetBitRange(x, f, g, a) => join7("let ", x.as_str(), " = &", range_text(*f, *g).as_str(), " in ", a.to_text().as_str(), ""),
            Expr::VarAssign(x, v) => join3(x.as_str(), " := 0b", bits_text(v).as_str()),
            Expr::VarTest(x, v) => join3(x.as_str(), " == 0b", bits_text(v).as_str()),
            Expr::BitRangeAssign(f, g, v) => join3(range_text(*f, *g).as_str(), " := 0b", bits_text(v).as_str()),
            Expr::BitRangeTest(f, g, v) => join3(range_text(*f, *g).as_str(), " == 0b", bits_text(v).as_str()),
            Expr::BitRangeMatch(f, g, p) => join3(range_text(*f, *g).as_str(), " ~ ", p.to_text().as_str()),
            Expr::VarMatch(x, p) => join3(x.as_str(), " ~ ", p.to_text().as_str()),
        }
    }
}

impl Pattern {
    /// The pattern in text form.
    pub fn to_text(&self) -> (s: String)
        ensures
            s@ == pat_text(self@),
    {
        match self {
            Pattern::Exact(bits) => join2("0b", bits_text(bits).as_str()),
            Pattern::Cidr { address, prefix_len } => join5(
                "0b",
                bits_text(address).as_str(),
                "/",
                number(*prefix_len).as_str(),
                "",
            ),
            Pattern::Wildcard { address, mask } => join5(
                "0b",
                bits_text(address).as_str(),
                " mask 0b",
                bits_text(mask).as_str(),
                "",
            ),
            Pattern::IpRange { start, end } => join5(
                "0b",
                bits_text(start).as_str(),
                "-0b",
                bits_text(end).as_str(),
                "",
            ),
        }
    }
}

fn range_text(f: Field, g: Field) -> (s: String)
    ensures
        s@ == range_of(f, g),
{
    join5("x[", number(f as usize).as_str(), "..", number(g as usize).as_str(), "]")
}

pub(crate) fn max_u32(a: u32, b: u32) -> (r: u32)
    ensures
        r == larger(a as nat, b as nat),
{
    if a < b {
        b
    } else {
        a
    }
}

/// The larger of two numbers.
pub open spec fn larger(a: nat, b: nat) -> nat {
    if a < b {
        b
    } else {
        a
    }
}

/// The fields from `f` to before `g` in text form.
pub open spec fn range_of(f: Field, g: Field) -> Seq<char> {
    "x["@ + decimal(f as nat) + ".."@ + decimal(g as nat) + "]"@
}

/// A pattern in text form.
pub open spec fn pat_text(p: Pat) -> Seq<char> {
    match p {
        Pat::Exact(bits) => "0b"@ + bit_digits(bits),
        Pat::Cidr(address, prefix) => "0b"@ + bit_digits(address) + "/"@ + decimal(prefix) + ""@,
        Pat::Wildcard(address, mask) => "0b"@ + bit_digits(address) + " mask 0b"@ + bit_digits(
            mask,
        ) + ""@,
        Pat::IpRange(start, end) => "0b"@ + bit_digits(start) + "-0b"@ + bit_digits(end) + ""@,
    }
}

/// An expression in text form.
pub open spec fn text_of(t: Term) -> Seq<char>
    decreases t,
{
    match t {
        Term::Zero => "0"@,
        Term::One => "1"@,
        Term::Top => "T"@,
        Term::Dup => "dup"@,
        Term::End => "end"@,
        Term::Hole(h) => "?"@ + decimal(h.0 as nat),
        Term::Assign(f, v) => "x"@ + decimal(f as nat) + " := "@ + (if v { "1"@ } else { "0"@ }) + ""@,
        Term::Test(f, v) => "x"@ + decimal(f as nat) + " == "@ + (if v { "1"@ } else { "0"@ }) + ""@,
        Term::Union(a, b) => "("@ + text_of(*a) + " + "@ + text_of(*b) + ")"@,
        Term::Intersect(a, b) => "("@ + text_of(*a) + " & "@ + text_of(*b) + ")"@,
        Term::Xor(a, b) => "("@ + text_of(*a) + " ^ "@ + text_of(*b) + ")"@,
        Term::Difference(a, b) => "("@ + text_of(*a) + " - "@ + text_of(*b) + ")"@,
        Term::Complement(a) => "~("@ + text_of(*a) + ")"@,
        Term::Sequence(a, b) => "("@ + text_of(*a) + " ; "@ + text_of(*b) + ")"@,
        Term::Star(a) => "("@ + text_of(*a) + ")*"@,
        Term::LtlNext(a) => "X("@ + text_of(*a) + ")"@,
        Term::LtlUntil(a, b) => "("@ + text_of(*a) + " U "@ + text_of(*b) + ")"@,
        Term::TestNegation(a) => "!("@ + text_of(*a) + ")"@,
        Term::IfThenElse(a, b, c) => "if "@ + text_of(*a) + " then "@ + text_of(*b) + " else "@ + text_of(*c) + ""@,
        Term::Var(x) => x,
        Term::Let(x, a, b) => "let "@ + x + " = "@ + text_of(*a) + " in "@ + text_of(*b) + ""@,
        Term::LetBitRange(x, f, g, a) => "let "@ + x + " = &"@ + range_of(f, g) + " in "@ + text_of(*a) + ""@,
        Term::VarAssign(x, v) => x + " := 0b"@ + bit_digits(v),
        Term::VarTest(x, v) => x + " == 0b"@ + bit_digits(v),
        Term::BitRangeAssign(f, g, v) => range_of(f, g) + " := 0b"@ + bit_digits(v),
        Term::BitRangeTest(f, g, v) => range_of(f, g) + " == 0b"@ + bit_digits(v),
        Term::BitRangeMatch(f, g, p) => range_of(f, g) + " ~ "@ + pat_text(p),
        Term::VarMatch(x, p) => x + " ~ "@ + pat_text(p),
    }
}

/// The test fragment: constants, tests, and the Boolean operators on them.
pub open spec fn test_fragment(t: Term) -> bool
    decreases t,
{
    match t {
        Term::Zero | Term::One => true,
        Term::Test(_, _) => true,
        Term::VarTest(_, _) => true,
        Term::BitRangeTest(_, _, _) => true,
        Term::BitRangeMatch(_, _, _) => true,
        Term::VarMatch(_, _) => true,
        Term::Union(a, b) => test_fragment(*a) && test_fragment(*b),
        Term::Intersect(a, b) => test_fragment(*a) && test_fragment(*b),
        Term::Xor(a, b) => test_fragment(*a) && test_fragment(*b),
        Term::Difference(a, b) => test_fragment(*a) && test_fragment(*b),
        Term::Sequence(a, b) => test_fragment(*a) && test_fragment(*b),
        Term::TestNegation(a) => test_fragment(*a),
        _ => false,
    }
}

/// The number of fields that an expression needs.
pub open spec fn fields_of(t: Term) -> nat
    decreases t,
{
    match t {
        Term::Zero => 0,
        Term::One => 0,
        Term::Top => 0,
        Term::Dup => 0,
        Term::End => 0,
        Term::Hole(_) => 0,
        Term::Assign(a, _) => (a + 1) as nat,
        Term::Test(a, _) => (a + 1) as nat,
        Term::Union(a, b) => larger(fields_of(*a), fields_of(*b)),
        Term::Intersect(a, b) => larger(fields_of(*a), fields_of(*b)),
        Term::Xor(a, b) => larger(fields_of(*a), fields_of(*b)),
        Term::Difference(a, b) => larger(fields_of(*a), fields_of(*b)),
        Term::Complement(a) => fields_of(*a),
        Term::Sequence(a, b) => larger(fields_of(*a), fields_of(*b)),
        Term::Star(a) => fields_of(*a),
        Term::LtlNext(a) => fields_of(*a),
        Term::LtlUntil(a, b) => larger(fields_of(*a), fields_of(*b)),
        Term::TestNegation(a) => fields_of(*a),
        Term::IfThenElse(a, b, c) => larger(larger(fields_of(*a), fields_of(*b)), fields_of(*c)),
        Term::Var(_) => 0,
        Term::Let(_, b, c) => larger(fields_of(*b), fields_of(*c)),
        Term::LetBitRange(_, _, c, d) => larger(c as nat, fields_of(*d)),
        Term::VarAssign(_, _) => 0,
        Term::VarTest(_, _) => 0,
        Term::BitRangeAssign(_, b, _) => b as nat,
        Term::BitRangeTest(_, b, _) => b as nat,
        Term::BitRangeMatch(_, b, _) => b as nat,
        Term::VarMatch(_, _) => 0,
    }
}

/// An expression without sugar: what [`crate::desugar`] produces.
pub open spec fn is_core(t: Term) -> bool
    decreases t,
{
    match t {
        Term::Zero | Term::One | Term::Top | Term::Dup | Term::End => true,
        Term::Hole(_) => true,
        Term::Assign(_, _) => true,
        Term::Test(_, _) => true,
        Term::Union(a, b) => is_core(*a) && is_core(*b),
        Term::Intersect(a, b) => is_core(*a) && is_core(*b),
        Term::Xor(a, b) => is_core(*a) && is_core(*b),
        Term::Difference(a, b) => is_core(*a) && is_core(*b),
        Term::Sequence(a, b) => is_core(*a) && is_core(*b),
        Term::LtlUntil(a, b) => is_core(*a) && is_core(*b),
        Term::Complement(a) => is_core(*a),
        Term::Star(a) => is_core(*a),
        Term::LtlNext(a) => is_core(*a),
        _ => false,
    }
}

/// Whether a packet passes a test without sugar.
pub open spec fn passes(t: Term, p: Pkt) -> bool
    decreases t,
{
    match t {
        Term::One => true,
        Term::Test(f, v) => p[f as int] == v,
        Term::Union(a, b) => passes(*a, p) || passes(*b, p),
        Term::Intersect(a, b) => passes(*a, p) && passes(*b, p),
        Term::Sequence(a, b) => passes(*a, p) && passes(*b, p),
        Term::Xor(a, b) => passes(*a, p) != passes(*b, p),
        Term::Difference(a, b) => passes(*a, p) && !passes(*b, p),
        _ => false,
    }
}

} // verus!
