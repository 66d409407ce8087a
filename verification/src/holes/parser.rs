//! Synthesis files: holes, definitions, and goals.
//!
//! A file is a list of statements: `hole NAME`, `def NAME = EXPR`, `assert EXPR <= EXPR`
//! and `assert EXPR == EXPR`.  Holes and definitions are referred to by their names.
use vstd::prelude::*;
use vstd::string::*;
use crate::desugar::{
    bounded, desugar_with_env, expand, law_expand_bounded, lemma_bounded, lemma_closed,
    scope_bounded, DesugarEnv, DesugarError, Scope,
};
use crate::expr::{fields_of, is_core, larger, max_u32, Exp, Expr, Hole, Term};
use crate::holes::aut::{enfa_lang, ENFA};
use crate::holes::explicit::expr_to_dfa;
use crate::holes::nk_with_holes::{
    drawn_from, dup_lang, filled, lemma_filled_ext, mentions, Expr as HExpr, Fill,
};
use crate::holes::problem::{Constraint, ProblemInstance};
use crate::holes::program::{
    first_error, holes_before, law_file_error, lemma_states_program, states_program,
};
use crate::lang::{cat, is_word, lang, same, star, unit, Lang, Word};
use crate::negation::lemma_scope_ordered;
use crate::parser::{
    at, expr_at, fails_at, kinds, span_at, tokens_from, unexpected, well_read, Lexer,
    ParseError, Parser, Span, Tok, TokenKind,
};
use crate::sp::Pkt;
use crate::spp::SPPstore;
use crate::text::{copy_text, decimal, join2, join3, wide_number};

verus! {

/// The statements of a file.
#[derive(Debug, Clone, PartialEq)]
pub struct Program {
    pub statements: Vec<Stmt>,
}

/// A statement.
#[derive(Debug, Clone, PartialEq)]
pub enum Stmt {
    /// A hole to fill.
    Hole(String),
    /// A name for an expression.
    Def(String, Exp),
    /// A goal.
    Assert { lhs: Exp, op: AssertOp, rhs: Exp },
}

/// The relation of a goal.
#[derive(Debug, Clone, Copy, PartialEq, Eq, Structural)]
pub enum AssertOp {
    /// The words of the left are words of the right.
    Leq,
    /// Both have the same words.
    Eq,
}

/// A statement as a mathematical value.
pub enum Line {
    Hole(Seq<char>),
    Def(Seq<char>, Term),
    Assert(Term, AssertOp, Term),
}

impl View for Stmt {
    type V = Line;

    open spec fn view(&self) -> Line {
        match *self {
            Stmt::Hole(x) => Line::Hole(x@),
            Stmt::Def(x, e) => Line::Def(x@, e@),
            Stmt::Assert { lhs, op, rhs } => Line::Assert(lhs@, op, rhs@),
        }
    }
}

/// The statements as mathematical values.
pub open spec fn lines(v: Seq<Stmt>) -> Seq<Line> {
    v.map_values(|s: Stmt| s@)
}

// ---- statements --------------------------------------------------------------------------------

/// What was expected where a file is none, and the token that was found.
pub enum Fault {
    Statement(Tok),
    Name(Seq<char>, Tok),
    Equals(Tok),
    Operator(Tok),
    Expression,
}

/// The statement at token `i`, and where it ends; or where it fails and what was
/// expected there.
pub open spec fn line_at(ts: Seq<Tok>, i: int) -> Result<(Line, int), (int, Fault)> {
    match at(ts, i) {
        Tok::Hole => match at(ts, i + 1) {
            Tok::Ident(x) => Ok((Line::Hole(x), i + 2)),
            _ => Err((i + 1, Fault::Name("hole"@, at(ts, i + 1)))),
        },
        Tok::Def => match at(ts, i + 1) {
            Tok::Ident(x) => if at(ts, i + 2) != Tok::Eq {
                Err((i + 2, Fault::Equals(at(ts, i + 2))))
            } else {
                match expr_at(ts, i + 3, 0) {
                    Ok((e, j)) => Ok((Line::Def(x, e), j)),
                    Err(j) => Err((j, Fault::Expression)),
                }
            },
            _ => Err((i + 1, Fault::Name("def"@, at(ts, i + 1)))),
        },
        Tok::Ident(x) => if x != "assert"@ {
            Err((i, Fault::Statement(at(ts, i))))
        } else {
            match expr_at(ts, i + 1, 0) {
                Err(j) => Err((j, Fault::Expression)),
                Ok((l, j)) => if at(ts, j) != Tok::Lte && at(ts, j) != Tok::Eq {
                    Err((j, Fault::Operator(at(ts, j))))
                } else {
                    match expr_at(ts, j + 1, 0) {
                        Err(k) => Err((k, Fault::Expression)),
                        Ok((r, k)) => Ok(
                            (
                                Line::Assert(
                                    l,
                                    if at(ts, j) == Tok::Lte {
                                        AssertOp::Leq
                                    } else {
                                        AssertOp::Eq
                                    },
                                    r,
                                ),
                                k,
                            ),
                        ),
                    }
                },
            }
        },
        _ => Err((i, Fault::Statement(at(ts, i)))),
    }
}

/// The statements from token `i` on, up to the end.
pub open spec fn lines_from(ts: Seq<Tok>, i: int) -> Result<Seq<Line>, (int, Fault)>
    decreases ts.len() - i,
{
    if at(ts, i) == Tok::Eof {
        Ok(Seq::empty())
    } else {
        match line_at(ts, i) {
            Err(e) => Err(e),
            Ok((l, j)) => if i < j <= ts.len() && 0 <= i {
                match lines_from(ts, j) {
                    Ok(ls) => Ok(seq![l] + ls),
                    Err(e) => Err(e),
                }
            } else {
                Err((j, Fault::Statement(at(ts, j))))
            },
        }
    }
}

/// The values of bits, with commas between them.
pub open spec fn bits_text(v: Seq<bool>) -> Seq<char>
    decreases v.len(),
{
    if v.len() == 0 {
        ""@
    } else {
        let last = if v.last() {
            "true"@
        } else {
            "false"@
        };
        if v.len() == 1 {
            last
        } else {
            bits_text(v.drop_last()) + ", "@ + last
        }
    }
}

/// The name of a token's kind, and what the token holds.
pub open spec fn kind_text(t: Tok) -> Seq<char> {
    match t {
        Tok::Ident(x) => "Ident(\""@ + x + "\")"@,
        Tok::Field(f) => "Field("@ + decimal(f as nat) + ")"@,
        Tok::Num(n) => "Num("@ + decimal(n as nat) + ")"@,
        Tok::Lit(v) => "Lit(["@ + bits_text(v) + "])"@,
        Tok::Bits => "Bits"@,
        Tok::Top => "Top"@,
        Tok::LtlNext => "LtlNext"@,
        Tok::LtlUntil => "LtlUntil"@,
        Tok::Dup => "Dup"@,
        Tok::If => "If"@,
        Tok::Then => "Then"@,
        Tok::Else => "Else"@,
        Tok::Let => "Let"@,
        Tok::In => "In"@,
        Tok::Mask => "Mask"@,
        Tok::Hole => "Hole"@,
        Tok::Def => "Def"@,
        Tok::Plus => "Plus"@,
        Tok::Amp => "Amp"@,
        Tok::Caret => "Caret"@,
        Tok::Minus => "Minus"@,
        Tok::Semi => "Semi"@,
        Tok::Star => "Star"@,
        Tok::Tilde => "Tilde"@,
        Tok::Bang => "Bang"@,
        Tok::Slash => "Slash"@,
        Tok::LParen => "LParen"@,
        Tok::RParen => "RParen"@,
        Tok::LBracket => "LBracket"@,
        Tok::RBracket => "RBracket"@,
        Tok::DotDot => "DotDot"@,
        Tok::Assign => "Assign"@,
        Tok::Eq => "Eq"@,
        Tok::Lte => "Lte"@,
        Tok::Eof => "Eof"@,
    }
}

fn bits_to_text(v: &Vec<bool>) -> (s: String)
    ensures
        s@ == bits_text(v@),
{
    let mut s = String::from_str("");
    let mut i: usize = 0;
    proof {
        assert(v@.take(0).len() == 0);
    }
    while i < v.len()
        invariant
            i <= v@.len(),
            s@ == bits_text(v@.take(i as int)),
        decreases v.len() - i,
    {
        proof {
            assert(v@.take(i + 1).drop_last() =~= v@.take(i as int));
            assert(v@.take(i + 1).last() == v@[i as int]);
        }
        let last = if v[i] {
            "true"
        } else {
            "false"
        };
        s = if i == 0 {
            String::from_str(last)
        } else {
            join3(s.as_str(), ", ", last)
        };
        i = i + 1;
    }
    proof {
        assert(v@.take(i as int) =~= v@);
    }
    s
}

fn kind_to_text(t: &TokenKind) -> (s: String)
    ensures
        s@ == kind_text(t@),
{
    match t {
        TokenKind::Ident(x) => join3("Ident(\"", x.as_str(), "\")"),
        TokenKind::Field(f) => join3("Field(", wide_number(*f as u64).as_str(), ")"),
        TokenKind::Num(n) => join3("Num(", wide_number(*n).as_str(), ")"),
        TokenKind::Lit(v) => join3("Lit([", bits_to_text(v).as_str(), "])"),
        TokenKind::Bits => String::from_str("Bits"),
        TokenKind::Top => String::from_str("Top"),
        TokenKind::LtlNext => String::from_str("LtlNext"),
        TokenKind::LtlUntil => String::from_str("LtlUntil"),
        TokenKind::Dup => String::from_str("Dup"),
        TokenKind::If => String::from_str("If"),
        TokenKind::Then => String::from_str("Then"),
        TokenKind::Else => String::from_str("Else"),
        TokenKind::Let => String::from_str("Let"),
        TokenKind::In => String::from_str("In"),
        TokenKind::Mask => String::from_str("Mask"),
        TokenKind::Hole => String::from_str("Hole"),
        TokenKind::Def => String::from_str("Def"),
        TokenKind::Plus => String::from_str("Plus"),
        TokenKind::Amp => String::from_str("Amp"),
        TokenKind::Caret => String::from_str("Caret"),
        TokenKind::Minus => String::from_str("Minus"),
        TokenKind::Semi => String::from_str("Semi"),
        TokenKind::Star => String::from_str("Star"),
        TokenKind::Tilde => String::from_str("Tilde"),
        TokenKind::Bang => String::from_str("Bang"),
        TokenKind::Slash => String::from_str("Slash"),
        TokenKind::LParen => String::from_str("LParen"),
        TokenKind::RParen => String::from_str("RParen"),
        TokenKind::LBracket => String::from_str("LBracket"),
        TokenKind::RBracket => String::from_str("RBracket"),
        TokenKind::DotDot => String::from_str("DotDot"),
        TokenKind::Assign => String::from_str("Assign"),
        TokenKind::Eq => String::from_str("Eq"),
        TokenKind::Lte => String::from_str("Lte"),
        TokenKind::Eof => String::from_str("Eof"),
    }
}

/// What is said of a part of the text where something else was expected.
pub open spec fn fault_text(s: Seq<char>, at: Span, f: Fault) -> Seq<char> {
    match f {
        Fault::Statement(t) => "Expected `hole`, `def`, or `assert` at start of statement, found "@
            + kind_text(t),
        Fault::Name(context, t) => "Expected an identifier name after `"@ + context + "`, found "@
            + kind_text(t),
        Fault::Equals(t) => "Expected `=` after definition name, found "@ + kind_text(t),
        Fault::Operator(t) => "Expected `<=` or `==` in assertion, found "@ + kind_text(t),
        Fault::Expression => unexpected(s, at),
    }
}

/// The error is that of the text.
pub open spec fn is_fault(e: ParseError, s: Seq<char>, ts: Seq<(Tok, Span)>, j: int, f: Fault) -> bool {
    e.span == span_at(ts, s.len(), j) && e.message@ == fault_text(s, e.span, f)
}

/// The error that says which token was found.
fn err(before: &str, found: &TokenKind, span: Span) -> (e: ParseError)
    ensures
        e.span == span,
        e.message@ == before@ + kind_text(found@),
{
    ParseError { message: join2(before, kind_to_text(found).as_str()), span }
}

/// Reads a name.
fn expect_ident(parser: &mut Parser, context: &str) -> (r: Result<String, ParseError>)
    requires
        old(parser).wf(),
    ensures
        final(parser).wf(),
        final(parser).input == old(parser).input,
        final(parser).tokens == old(parser).tokens,
        r is Ok ==> final(parser).pos == old(parser).pos + 1,
        match r {
            Ok(x) => old(parser).next() == Tok::Ident(x@),
            Err(e) => !(old(parser).next() is Ident) && is_fault(
                e,
                old(parser).input@,
                kinds(old(parser).tokens@),
                old(parser).pos as int,
                Fault::Name(context@, old(parser).next()),
            ),
        },
{
    let t = parser.advance();
    match t.kind {
        TokenKind::Ident(x) => Ok(x),
        other => {
            let before = join3("Expected an identifier name after `", context, "`, found ");
            Err(err(before.as_str(), &other, t.span))
        },
    }
}

/// Reads the `=` of a definition.
fn expect_eq(parser: &mut Parser) -> (r: Result<(), ParseError>)
    requires
        old(parser).wf(),
    ensures
        final(parser).wf(),
        final(parser).input == old(parser).input,
        final(parser).tokens == old(parser).tokens,
        r is Ok ==> final(parser).pos == old(parser).pos + 1,
        match r {
            Ok(_) => old(parser).next() == Tok::Eq,
            Err(e) => old(parser).next() != Tok::Eq && is_fault(
                e,
                old(parser).input@,
                kinds(old(parser).tokens@),
                old(parser).pos as int,
                Fault::Equals(old(parser).next()),
            ),
        },
{
    let t = parser.advance();
    match t.kind {
        TokenKind::Eq => Ok(()),
        other => Err(err("Expected `=` after definition name, found ", &other, t.span)),
    }
}

/// Reads the relation of a goal.
fn expect_assert_op(parser: &mut Parser) -> (r: Result<AssertOp, ParseError>)
    requires
        old(parser).wf(),
    ensures
        final(parser).wf(),
        final(parser).input == old(parser).input,
        final(parser).tokens == old(parser).tokens,
        r is Ok ==> final(parser).pos == old(parser).pos + 1,
        match r {
            Ok(AssertOp::Leq) => old(parser).next() == Tok::Lte,
            Ok(AssertOp::Eq) => old(parser).next() == Tok::Eq,
            Err(e) => old(parser).next() != Tok::Lte && old(parser).next() != Tok::Eq && is_fault(
                e,
                old(parser).input@,
                kinds(old(parser).tokens@),
                old(parser).pos as int,
                Fault::Operator(old(parser).next()),
            ),
        },
{
    let t = parser.advance();
    match t.kind {
        TokenKind::Lte => Ok(AssertOp::Leq),
        TokenKind::Eq => Ok(AssertOp::Eq),
        other => Err(err("Expected `<=` or `==` in assertion, found ", &other, t.span)),
    }
}

/// The error is that of the statement at token `i`.
pub open spec fn line_fails(
    e: ParseError,
    s: Seq<char>,
    ks: Seq<(Tok, Span)>,
    ts: Seq<Tok>,
    i: int,
) -> bool {
    line_at(ts, i) is Err && is_fault(e, s, ks, line_at(ts, i)->Err_0.0, line_at(ts, i)->Err_0.1)
}

/// Expressions that can be read.
pub open spec fn line_ok(l: Line) -> bool {
    match l {
        Line::Hole(_) => true,
        Line::Def(_, e) => well_read(e),
        Line::Assert(a, _, b) => well_read(a) && well_read(b),
    }
}

/// The statement that is next.
fn parse_statement(parser: &mut Parser) -> (r: Result<Stmt, ParseError>)
    requires
        old(parser).wf(),
    ensures
        final(parser).wf(),
        final(parser).input == old(parser).input,
        final(parser).tokens == old(parser).tokens,
        match r {
            Ok(s) => line_at(old(parser).toks(), old(parser).pos as int) == Ok::<
                (Line, int),
                (int, Fault),
            >((s@, final(parser).pos as int)) && final(parser).pos > old(parser).pos && line_ok(s@),
            Err(e) => line_fails(
                e,
                old(parser).input@,
                kinds(old(parser).tokens@),
                old(parser).toks(),
                old(parser).pos as int,
            ),
        },
{
    let ghost p0 = *parser;
    let ghost s = p0.input@;
    let ghost ks = kinds(p0.tokens@);
    let ghost ts = p0.toks();
    let ghost i = p0.pos as int;
    let t = parser.peek_cloned();
    let word = match t.kind {
        TokenKind::Hole => {
            let _ = parser.advance();
            return match expect_ident(parser, "hole") {
                Ok(x) => Ok(Stmt::Hole(x)),
                Err(e) => {
                    proof {
                        let f = Fault::Name("hole"@, at(ts, i + 1));
                        assert(is_fault(e, s, ks, i + 1, f));
                        assert(line_at(ts, i) == Err::<(Line, int), (int, Fault)>((i + 1, f)));
                    }
                    Err(e)
                },
            };
        },
        TokenKind::Def => {
            let _ = parser.advance();
            let x = match expect_ident(parser, "def") {
                Ok(x) => x,
                Err(e) => {
                    proof {
                        let f = Fault::Name("def"@, at(ts, i + 1));
                        assert(is_fault(e, s, ks, i + 1, f));
                        assert(line_at(ts, i) == Err::<(Line, int), (int, Fault)>((i + 1, f)));
                    }
                    return Err(e);
                },
            };
            match expect_eq(parser) {
                Ok(_) => {},
                Err(e) => {
                    assert(is_fault(e, s, ks, i + 2, Fault::Equals(at(ts, i + 2))));
                    return Err(e);
                },
            }
            return match parser.parse_single_expression() {
                Ok(e) => Ok(Stmt::Def(x, e)),
                Err(e) => {
                    proof {
                        let j = choose|j: int| #[trigger]
                            fails_at(ts, i + 3, j) && e.span == span_at(ks, s.len(), j)
                                && e.message@ == unexpected(s, e.span);
                        assert(is_fault(e, s, ks, j, Fault::Expression));
                    }
                    Err(e)
                },
            };
        },
        TokenKind::Ident(x) => x,
        other => {
            let e = err(
                "Expected `hole`, `def`, or `assert` at start of statement, found ",
                &other,
                t.span,
            );
            assert(is_fault(e, s, ks, i, Fault::Statement(at(ts, i))));
            return Err(e);
        },
    };
    if word != String::from_str("assert") {
        let e = err(
            "Expected `hole`, `def`, or `assert` at start of statement, found ",
            &TokenKind::Ident(word),
            t.span,
        );
        assert(is_fault(e, s, ks, i, Fault::Statement(at(ts, i))));
        return Err(e);
    }
    let _ = parser.advance();
    let lhs = match parser.parse_single_expression() {
        Ok(e) => e,
        Err(e) => {
            proof {
                let j = choose|j: int| #[trigger]
                    fails_at(ts, i + 1, j) && e.span == span_at(ks, s.len(), j) && e.message@
                        == unexpected(s, e.span);
                assert(is_fault(e, s, ks, j, Fault::Expression));
            }
            return Err(e);
        },
    };
    let ghost j0 = parser.pos as int;
    let op = match expect_assert_op(parser) {
        Ok(op) => op,
        Err(e) => {
            assert(is_fault(e, s, ks, j0, Fault::Operator(at(ts, j0))));
            return Err(e);
        },
    };
    match parser.parse_single_expression() {
        Ok(rhs) => Ok(Stmt::Assert { lhs, op, rhs }),
        Err(e) => {
            proof {
                let j = choose|j: int| #[trigger]
                    fails_at(ts, j0 + 1, j) && e.span == span_at(ks, s.len(), j) && e.message@
                        == unexpected(s, e.span);
                assert(is_fault(e, s, ks, j, Fault::Expression));
            }
            Err(e)
        },
    }
}

/// The statements of a text, or the fault and where it is.
pub open spec fn text_lines(s: Seq<char>) -> Result<Seq<Line>, (Span, Fault)> {
    match tokens_from(s, 0) {
        Err(j) => Err((Span { start: j as usize, end: (j + 1) as usize }, Fault::Expression)),
        Ok(ts) => match lines_from(crate::parser::only_toks(ts), 0) {
            Ok(ls) => Ok(ls),
            Err((j, f)) => Err((span_at(ts, s.len(), j), f)),
        },
    }
}

/// The statements of a file.  The error says what was expected and where.
pub fn parse_program(input: &str) -> (r: Result<Program, ParseError>)
    requires
        input@.len() + 64 <= usize::MAX,
    ensures
        match r {
            Ok(p) => text_lines(input@) == Ok::<Seq<Line>, (Span, Fault)>(lines(p.statements@))
                && program_ok(lines(p.statements@)),
            Err(e) => text_lines(input@) is Err && e.span == text_lines(input@)->Err_0.0
                && e.message@ == fault_text(input@, e.span, text_lines(input@)->Err_0.1),
        },
{
    let mut parser = match Parser::new(Lexer::new(input)) {
        Ok(p) => p,
        Err(e) => {
            return Err(e);
        },
    };
    let ghost ks = kinds(parser.tokens@);
    let ghost ts = crate::parser::only_toks(ks);
    let mut statements: Vec<Stmt> = Vec::new();
    proof {
        assert(parser.toks() =~= ts);
        if let Ok(rest) = lines_from(ts, 0) {
            assert(lines(statements@) + rest =~= rest);
        }
    }
    loop
        invariant
            parser.wf(),
            parser.input == input,
            ks == kinds(parser.tokens@),
            ts == crate::parser::only_toks(ks),
            parser.toks() == ts,
            ts.len() == parser.tokens@.len(),
            tokens_from(input@, 0) == Ok::<Seq<(Tok, Span)>, int>(ks),
            program_ok(lines(statements@)),
            lines_from(ts, 0) == (match lines_from(ts, parser.pos as int) {
                Ok(rest) => Ok::<Seq<Line>, (int, Fault)>(lines(statements@) + rest),
                Err(e) => Err::<Seq<Line>, (int, Fault)>(e),
            }),
        decreases parser.tokens@.len() - parser.pos,
    {
        let ghost before = lines(statements@);
        match parser.peek_cloned().kind {
            TokenKind::Eof => {
                proof {
                    assert(before + Seq::<Line>::empty() =~= before);
                }
                return Ok(Program { statements });
            },
            _ => {},
        }
        match parse_statement(&mut parser) {
            Ok(s) => {
                let ghost l = s@;
                statements.push(s);
                proof {
                    assert(lines(statements@) =~= before.push(l));
                    if let Ok(rest) = lines_from(ts, parser.pos as int) {
                        assert(lines(statements@) + rest =~= before + (seq![l] + rest));
                    }
                }
            },
            Err(e) => {
                return Err(e);
            },
        }
    }
}

/// The expressions of the statements can be read.
pub open spec fn program_ok(ls: Seq<Line>) -> bool {
    forall|i: int| 0 <= i < ls.len() ==> line_ok(#[trigger] ls[i])
}

// ---- fields and holes --------------------------------------------------------------------------

/// The number of fields that the statements need.
pub open spec fn fields_in(ls: Seq<Line>) -> nat
    decreases ls.len(),
{
    if ls.len() == 0 {
        0
    } else {
        larger(
            fields_in(ls.drop_last()),
            match ls.last() {
                Line::Hole(_) => 0,
                Line::Def(_, e) => fields_of(e),
                Line::Assert(a, _, b) => larger(fields_of(a), fields_of(b)),
            },
        )
    }
}

/// No statement needs more fields than all do.
proof fn lemma_fields_in(ls: Seq<Line>, i: int)
    requires
        0 <= i < ls.len(),
    ensures
        match ls[i] {
            Line::Hole(_) => true,
            Line::Def(_, e) => fields_of(e) <= fields_in(ls),
            Line::Assert(a, _, b) => fields_of(a) <= fields_in(ls) && fields_of(b) <= fields_in(ls),
        },
    decreases ls.len(),
{
    if i < ls.len() - 1 {
        lemma_fields_in(ls.drop_last(), i);
        assert(ls.drop_last()[i] == ls[i]);
    }
}

/// The number of fields that a file needs: the most that an expression in it does.
pub fn num_fields(program: &Program) -> (n: u32)
    requires
        program_ok(lines(program.statements@)),
    ensures
        n == fields_in(lines(program.statements@)),
{
    let ghost ls = lines(program.statements@);
    let mut most: u32 = 0;
    let mut i: usize = 0;
    while i < program.statements.len()
        invariant
            ls == lines(program.statements@),
            program_ok(ls),
            i <= program.statements@.len(),
            most == fields_in(ls.take(i as int)),
        decreases program.statements.len() - i,
    {
        proof {
            assert(ls.take(i + 1).drop_last() =~= ls.take(i as int));
            assert(line_ok(ls[i as int]));
            assert(ls[i as int] == program.statements@[i as int]@);
        }
        match &program.statements[i] {
            Stmt::Hole(_) => {},
            Stmt::Def(_, e) => {
                proof {
                    crate::desugar::lemma_fields(e@, u32::MAX as nat, 0);
                }
                most = max_u32(most, e.num_fields());
            },
            Stmt::Assert { lhs, op, rhs } => {
                proof {
                    crate::desugar::lemma_fields(lhs@, u32::MAX as nat, 0);
                    crate::desugar::lemma_fields(rhs@, u32::MAX as nat, 0);
                }
                most = max_u32(most, max_u32(lhs.num_fields(), rhs.num_fields()));
            },
        }
        i = i + 1;
    }
    proof {
        assert(ls.take(ls.len() as int) =~= ls);
    }
    most
}

/// The expression has a hole.
pub open spec fn holey(t: Term) -> bool
    decreases t,
{
    match t {
        Term::Hole(_) => true,
        Term::Union(a, b) => holey(*a) || holey(*b),
        Term::Intersect(a, b) => holey(*a) || holey(*b),
        Term::Xor(a, b) => holey(*a) || holey(*b),
        Term::Difference(a, b) => holey(*a) || holey(*b),
        Term::Sequence(a, b) => holey(*a) || holey(*b),
        Term::LtlUntil(a, b) => holey(*a) || holey(*b),
        Term::Complement(a) => holey(*a),
        Term::TestNegation(a) => holey(*a),
        Term::Star(a) => holey(*a),
        Term::LtlNext(a) => holey(*a),
        Term::IfThenElse(a, b, c) => holey(*a) || holey(*b) || holey(*c),
        Term::Let(_, a, b) => holey(*a) || holey(*b),
        Term::LetBitRange(_, _, _, a) => holey(*a),
        _ => false,
    }
}

/// Whether an expression has a hole.
pub fn has_holes(expr: &Expr) -> (b: bool)
    ensures
        b == holey(expr@),
    decreases expr,
{
    match expr {
        Expr::Hole(_) => true,
        Expr::Union(a, b) => has_holes(a) || has_holes(b),
        Expr::Intersect(a, b) => has_holes(a) || has_holes(b),
        Expr::Xor(a, b) => has_holes(a) || has_holes(b),
        Expr::Difference(a, b) => has_holes(a) || has_holes(b),
        Expr::Sequence(a, b) => has_holes(a) || has_holes(b),
        Expr::LtlUntil(a, b) => has_holes(a) || has_holes(b),
        Expr::Complement(a) => has_holes(a),
        Expr::TestNegation(a) => has_holes(a),
        Expr::Star(a) => has_holes(a),
        Expr::LtlNext(a) => has_holes(a),
        Expr::IfThenElse(a, b, c) => has_holes(a) || has_holes(b) || has_holes(c),
        Expr::Let(_, a, b) => has_holes(a) || has_holes(b),
        Expr::LetBitRange(_, _, _, a) => has_holes(a),
        _ => false,
    }
}

/// An expression without holes needs none.
proof fn lemma_no_holes(t: Term, n: nat, k: nat)
    requires
        !holey(t),
        bounded(t, n, k),
    ensures
        bounded(t, n, 0),
    decreases t,
{
    match t {
        Term::Union(a, b) => {
            lemma_no_holes(*a, n, k);
            lemma_no_holes(*b, n, k);
        },
        Term::Intersect(a, b) => {
            lemma_no_holes(*a, n, k);
            lemma_no_holes(*b, n, k);
        },
        Term::Xor(a, b) => {
            lemma_no_holes(*a, n, k);
            lemma_no_holes(*b, n, k);
        },
        Term::Difference(a, b) => {
            lemma_no_holes(*a, n, k);
            lemma_no_holes(*b, n, k);
        },
        Term::Sequence(a, b) => {
            lemma_no_holes(*a, n, k);
            lemma_no_holes(*b, n, k);
        },
        Term::LtlUntil(a, b) => {
            lemma_no_holes(*a, n, k);
            lemma_no_holes(*b, n, k);
        },
        Term::Complement(a) => lemma_no_holes(*a, n, k),
        Term::TestNegation(a) => lemma_no_holes(*a, n, k),
        Term::Star(a) => lemma_no_holes(*a, n, k),
        Term::LtlNext(a) => lemma_no_holes(*a, n, k),
        Term::IfThenElse(a, b, c) => {
            lemma_no_holes(*a, n, k);
            lemma_no_holes(*b, n, k);
            lemma_no_holes(*c, n, k);
        },
        Term::Let(_, a, b) => {
            lemma_no_holes(*a, n, k);
            lemma_no_holes(*b, n, k);
        },
        Term::LetBitRange(_, _, _, a) => lemma_no_holes(*a, n, k),
        _ => {},
    }
}


// ---- from expressions to constraints -----------------------------------------------------------

/// The expression is made of what expressions with holes are made of.
pub open spec fn supported(t: Term) -> bool
    decreases t,
{
    match t {
        Term::Zero | Term::One | Term::Top | Term::Dup => true,
        Term::Assign(_, _) => true,
        Term::Test(_, _) => true,
        Term::Hole(_) => true,
        Term::Union(a, b) => supported(*a) && supported(*b),
        Term::Sequence(a, b) => supported(*a) && supported(*b),
        Term::Star(a) => supported(*a),
        _ => false,
    }
}

/// Whether the expression is made of what expressions with holes are made of.
fn is_supported(expr: &Expr) -> (b: bool)
    ensures
        b == supported(expr@),
    decreases expr,
{
    match expr {
        Expr::Zero => true,
        Expr::One => true,
        Expr::Top => true,
        Expr::Dup => true,
        Expr::Assign(_, _) => true,
        Expr::Test(_, _) => true,
        Expr::Hole(_) => true,
        Expr::Union(a, b) => is_supported(a) && is_supported(b),
        Expr::Sequence(a, b) => is_supported(a) && is_supported(b),
        Expr::Star(a) => is_supported(a),
        _ => false,
    }
}

/// The language of an expression, with its holes filled.  `T` is one step here.
pub open spec fn hole_lang(t: Term, n: nat, hs: Fill) -> Lang
    decreases t,
{
    match t {
        Term::One => unit(),
        Term::Top => |w: Word| w.len() == 2,
        Term::Dup => dup_lang(),
        Term::Assign(f, v) => |w: Word| w.len() == 2 && w[1] == w[0].update(f as int, v),
        Term::Test(f, v) => |w: Word| w.len() == 2 && w[0] == w[1] && w[0][f as int] == v,
        Term::Hole(h) => hs(h),
        Term::Union(a, b) => |w: Word| hole_lang(*a, n, hs)(w) || hole_lang(*b, n, hs)(w),
        Term::Sequence(a, b) => cat(n, hole_lang(*a, n, hs), hole_lang(*b, n, hs)),
        Term::Star(a) => star(n, hole_lang(*a, n, hs)),
        _ => |w: Word| false,
    }
}

/// The expression with holes has the words and the holes of the expression.
pub open spec fn carries(e: HExpr, st: SPPstore, t: Term, k: nat) -> bool {
    &&& drawn_from(e, &st)
    &&& forall|hs: Fill| same(st.n(), #[trigger] filled(e, st, hs), hole_lang(t, st.n(), hs))
    &&& forall|h: Hole| #[trigger] mentions(e, h) ==> h.0 < k
}

proof fn lemma_carries(e: HExpr, st: SPPstore, o: SPPstore, t: Term, k: nat)
    requires
        o.wf(),
        st.wf(),
        st.extends(&o),
        carries(e, o, t, k),
    ensures
        carries(e, st, t, k),
{
    lemma_filled_ext(e, o, st);
    assert forall|hs: Fill| same(st.n(), #[trigger] filled(e, st, hs), hole_lang(t, st.n(), hs)) by {
        assert(same(o.n(), filled(e, o, hs), hole_lang(t, o.n(), hs)));
        assert forall|w: Word| is_word(o.n(), w) implies filled(e, st, hs)(w) == hole_lang(
            t,
            o.n(),
            hs,
        )(w) by {
            assert(filled(e, st, hs)(w) == filled(e, o, hs)(w));
        }
    }
}

/// The expression with holes is the same tree, with relations for what is one step.
pub open spec fn mirrors(e: HExpr, st: SPPstore, t: Term) -> bool
    decreases t,
{
    match t {
        Term::Zero => e == HExpr::Spp(st.zero),
        Term::One => e == HExpr::Spp(st.one),
        Term::Top => e == HExpr::Spp(st.top),
        Term::Dup => e == HExpr::Dup,
        Term::Hole(h) => e == HExpr::Hole(h),
        Term::Assign(f, v) => e matches HExpr::Spp(s) && st.has(s) && forall|p: Pkt, q: Pkt|
            p.len() == st.n() && q.len() == st.n() ==> (#[trigger] st.rel(s, p, q) <==> q
                == p.update(f as int, v)),
        Term::Test(f, v) => e matches HExpr::Spp(s) && st.has(s) && forall|p: Pkt, q: Pkt|
            p.len() == st.n() && q.len() == st.n() ==> (#[trigger] st.rel(s, p, q) <==> p == q
                && p[f as int] == v),
        Term::Union(a, b) => e matches HExpr::Union(x, y) && mirrors(*x, st, *a) && mirrors(
            *y,
            st,
            *b,
        ),
        Term::Sequence(a, b) => e matches HExpr::Sequence(x, y) && mirrors(*x, st, *a) && mirrors(
            *y,
            st,
            *b,
        ),
        Term::Star(a) => e matches HExpr::Star(x) && mirrors(*x, st, *a),
        _ => false,
    }
}

/// The tree stays the same when the store grows.
proof fn lemma_mirrors(e: HExpr, st: SPPstore, o: SPPstore, t: Term)
    requires
        st.extends(&o),
        mirrors(e, o, t),
    ensures
        mirrors(e, st, t),
    decreases t,
{
    match t {
        Term::Assign(f, v) => {
            let s = e->Spp_0;
            assert forall|p: Pkt, q: Pkt| p.len() == st.n() && q.len() == st.n() implies (
            #[trigger] st.rel(s, p, q) <==> q == p.update(f as int, v)) by {
                assert(o.rel(s, p, q) <==> q == p.update(f as int, v));
            }
        },
        Term::Test(f, v) => {
            let s = e->Spp_0;
            assert forall|p: Pkt, q: Pkt| p.len() == st.n() && q.len() == st.n() implies (
            #[trigger] st.rel(s, p, q) <==> p == q && p[f as int] == v) by {
                assert(o.rel(s, p, q) <==> p == q && p[f as int] == v);
            }
        },
        Term::Union(a, b) => {
            if let HExpr::Union(x, y) = e {
                lemma_mirrors(*x, st, o, *a);
                lemma_mirrors(*y, st, o, *b);
            }
        },
        Term::Sequence(a, b) => {
            if let HExpr::Sequence(x, y) = e {
                lemma_mirrors(*x, st, o, *a);
                lemma_mirrors(*y, st, o, *b);
            }
        },
        Term::Star(a) => {
            if let HExpr::Star(x) = e {
                lemma_mirrors(*x, st, o, *a);
            }
        },
        _ => {},
    }
}

/// The expression with holes that an expression without sugar is.
fn lower_expr(expr: &Expr, store: &mut SPPstore, Ghost(k): Ghost<nat>) -> (r: HExpr)
    requires
        old(store).wf(),
        supported(expr@),
        bounded(expr@, old(store).n(), k),
    ensures
        final(store).wf(),
        final(store).extends(old(store)),
        carries(r, *final(store), expr@, k),
        mirrors(r, *final(store), expr@),
    decreases expr,
{
    let ghost o = *store;
    let ghost n = o.n();
    proof {
        o.lemma_wf();
    }
    match expr {
        Expr::Zero => {
            let r = HExpr::spp(store.zero);
            proof {
                assert forall|hs: Fill| same(n, #[trigger] filled(r, o, hs), hole_lang(
                    expr@,
                    n,
                    hs,
                )) by {}
            }
            r
        },
        Expr::One => {
            let r = HExpr::spp(store.one);
            proof {
                assert forall|hs: Fill| same(n, #[trigger] filled(r, o, hs), hole_lang(
                    expr@,
                    n,
                    hs,
                )) by {}
            }
            r
        },
        Expr::Top => {
            let r = HExpr::spp(store.top);
            proof {
                assert forall|hs: Fill| same(n, #[trigger] filled(r, o, hs), hole_lang(
                    expr@,
                    n,
                    hs,
                )) by {
                    assert forall|w: Word| is_word(n, w) implies filled(r, o, hs)(w) == hole_lang(
                        expr@,
                        n,
                        hs,
                    )(w) by {
                        if w.len() == 2 {
                            assert(o.rel(o.top, w[0], w[1]));
                        }
                    }
                }
            }
            r
        },
        Expr::Dup => HExpr::dup(),
        Expr::Hole(h) => HExpr::hole(*h),
        Expr::Assign(f, v) => {
            let s = store.assign(*f, *v);
            let r = HExpr::spp(s);
            proof {
                let st = *store;
                assert forall|hs: Fill| same(n, #[trigger] filled(r, st, hs), hole_lang(
                    expr@,
                    n,
                    hs,
                )) by {}
            }
            r
        },
        Expr::Test(f, v) => {
            let s = store.test(*f, *v);
            let r = HExpr::spp(s);
            proof {
                let st = *store;
                assert forall|hs: Fill| same(n, #[trigger] filled(r, st, hs), hole_lang(
                    expr@,
                    n,
                    hs,
                )) by {}
            }
            r
        },
        Expr::Union(a, b) => {
            let x = lower_expr(a, store, Ghost(k));
            let ghost s1 = *store;
            let y = lower_expr(b, store, Ghost(k));
            let ghost s2 = *store;
            proof {
                lemma_carries(x, s2, s1, a@, k);
                lemma_mirrors(x, s2, s1, a@);
            }
            let ghost (x0, y0) = (x, y);
            let r = HExpr::union(x, y);
            proof {
                assert forall|hs: Fill| same(n, #[trigger] filled(r, s2, hs), hole_lang(
                    expr@,
                    n,
                    hs,
                )) by {
                    assert(same(n, filled(x0, s2, hs), hole_lang(a@, n, hs)));
                    assert(same(n, filled(y0, s2, hs), hole_lang(b@, n, hs)));
                }
                assert forall|h: Hole| #[trigger] mentions(r, h) implies h.0 < k by {
                    assert(mentions(x0, h) || mentions(y0, h));
                }
            }
            r
        },
        Expr::Sequence(a, b) => {
            let x = lower_expr(a, store, Ghost(k));
            let ghost s1 = *store;
            let y = lower_expr(b, store, Ghost(k));
            let ghost s2 = *store;
            proof {
                lemma_carries(x, s2, s1, a@, k);
                lemma_mirrors(x, s2, s1, a@);
            }
            let ghost (x0, y0) = (x, y);
            let r = HExpr::sequence(x, y);
            proof {
                assert forall|hs: Fill| same(n, #[trigger] filled(r, s2, hs), hole_lang(
                    expr@,
                    n,
                    hs,
                )) by {
                    assert(same(n, filled(x0, s2, hs), hole_lang(a@, n, hs)));
                    assert(same(n, filled(y0, s2, hs), hole_lang(b@, n, hs)));
                    crate::lang::lemma_cat_same(
                        n,
                        filled(x0, s2, hs),
                        filled(y0, s2, hs),
                        hole_lang(a@, n, hs),
                        hole_lang(b@, n, hs),
                    );
                }
                assert forall|h: Hole| #[trigger] mentions(r, h) implies h.0 < k by {
                    assert(mentions(x0, h) || mentions(y0, h));
                }
            }
            r
        },
        Expr::Star(a) => {
            let x = lower_expr(a, store, Ghost(k));
            let ghost s2 = *store;
            let ghost x0 = x;
            let r = HExpr::star(x);
            proof {
                assert forall|hs: Fill| same(n, #[trigger] filled(r, s2, hs), hole_lang(
                    expr@,
                    n,
                    hs,
                )) by {
                    assert(same(n, filled(x0, s2, hs), hole_lang(a@, n, hs)));
                    crate::lang::lemma_star_same_lang(
                        n,
                        filled(x0, s2, hs),
                        hole_lang(a@, n, hs),
                    );
                }
                assert forall|h: Hole| #[trigger] mentions(r, h) implies h.0 < k by {
                    assert(mentions(x0, h));
                }
            }
            r
        },
        _ => {
            assert(false);
            HExpr::dup()
        },
    }
}

/// The expression with holes that an expression without sugar is: the same tree, with
/// relations for what is one step.
pub fn to_hole_expr(expr: &Expr, store: &mut SPPstore) -> (r: HExpr)
    requires
        old(store).wf(),
        supported(expr@),
        bounded(expr@, old(store).n(), 0x1_0000_0000),
    ensures
        final(store).wf(),
        final(store).extends(old(store)),
        carries(r, *final(store), expr@, 0x1_0000_0000),
        mirrors(r, *final(store), expr@),
{
    lower_expr(expr, store, Ghost(0x1_0000_0000))
}

/// The side of a goal that is the automaton with holes: the one that has a hole, or
/// the left.
pub open spec fn hole_side(l: Term, r: Term) -> Term {
    if holey(r) {
        r
    } else {
        l
    }
}

/// The side of a goal that is the bound.
pub open spec fn bound_side(l: Term, r: Term) -> Term {
    if holey(r) {
        l
    } else {
        r
    }
}

/// The constraint is the goal.
pub open spec fn states_goal(
    c: Constraint,
    st: SPPstore,
    op: AssertOp,
    l: Term,
    r: Term,
    k: nat,
) -> bool {
    &&& c.ok(st)
    &&& match op {
        AssertOp::Eq => c is Equality,
        AssertOp::Leq => if holey(r) {
            c is LowerBound
        } else {
            c is UpperBound
        },
    }
    &&& forall|w: Word|
        is_word(st.n(), w) ==> #[trigger] enfa_lang(&c.the_dfa(), st)(w) == lang(
            bound_side(l, r),
            st.n(),
        )(w)
    &&& forall|hs: Fill, w: Word|
        is_word(st.n(), w) ==> #[trigger] c.lang(st, hs)(w) == hole_lang(
            hole_side(l, r),
            st.n(),
            hs,
        )(w)
    &&& forall|h: Hole| #[trigger] c.the_aut().uses(h) ==> h.0 < k
}

proof fn lemma_goal_kept(
    c: Constraint,
    st: SPPstore,
    o: SPPstore,
    op: AssertOp,
    l: Term,
    r: Term,
    k: nat,
    j: nat,
)
    requires
        o.wf(),
        st.wf(),
        st.extends(&o),
        states_goal(c, o, op, l, r, k),
        k <= j,
    ensures
        states_goal(c, st, op, l, r, j),
{
    c.lemma_ok(st, o);
    assert forall|w: Word| is_word(st.n(), w) implies #[trigger] enfa_lang(&c.the_dfa(), st)(w)
        == lang(bound_side(l, r), st.n())(w) by {
        assert(enfa_lang(&c.the_dfa(), st)(w) == enfa_lang(&c.the_dfa(), o)(w));
    }
    assert forall|hs: Fill, w: Word| is_word(st.n(), w) implies #[trigger] c.lang(st, hs)(w)
        == hole_lang(hole_side(l, r), st.n(), hs)(w) by {
        assert(c.lang(st, hs)(w) == c.lang(o, hs)(w));
    }
}

/// Why a goal is none, if it is none.
pub open spec fn goal_error(l: Term, r: Term) -> Option<Seq<char>> {
    if holey(l) && holey(r) {
        Some("both sides of an assertion contain holes; at least one side must be hole-free"@)
    } else if !supported(hole_side(l, r)) {
        Some("construct not supported by expressions with holes"@)
    } else {
        None
    }
}

/// The constraint of a goal.  The side with holes becomes the automaton, the other
/// the bound.
fn build_constraint(
    store: &mut SPPstore,
    lhs: &Expr,
    op: AssertOp,
    rhs: &Expr,
    Ghost(k): Ghost<nat>,
) -> (r: Result<Constraint, DesugarError>)
    requires
        old(store).wf(),
        is_core(lhs@),
        is_core(rhs@),
        bounded(lhs@, old(store).n(), k),
        bounded(rhs@, old(store).n(), k),
    ensures
        final(store).wf(),
        final(store).extends(old(store)),
        match r {
            Ok(c) => goal_error(lhs@, rhs@) is None && states_goal(
                c,
                *final(store),
                op,
                lhs@,
                rhs@,
                k,
            ),
            Err(e) => goal_error(lhs@, rhs@) == Some(e.message@),
        },
{
    let ghost o = *store;
    let ghost n = o.n();
    let on_left = has_holes(lhs);
    let on_right = has_holes(rhs);
    if on_left && on_right {
        return Err(
            DesugarError {
                message: String::from_str(
                    "both sides of an assertion contain holes; at least one side must be hole-free",
                ),
            },
        );
    }
    let (holes, bound) = if on_right {
        (rhs, lhs)
    } else {
        (lhs, rhs)
    };
    if !is_supported(holes) {
        return Err(
            DesugarError {
                message: String::from_str("construct not supported by expressions with holes"),
            },
        );
    }
    proof {
        lemma_no_holes(bound@, n, k);
        lemma_closed(bound@, n);
    }
    let dfa = expr_to_dfa(bound, store);
    let ghost s1 = *store;
    let hole_expr = lower_expr(holes, store, Ghost(k));
    let ghost s2 = *store;
    let ghost d0 = dfa;
    proof {
        d0.lemma_valid(s2, s1);
        d0.lemma_states(s1);
    }
    let c = match op {
        AssertOp::Eq => Constraint::equality(store, &hole_expr, dfa),
        AssertOp::Leq => if on_right {
            Constraint::lower_bound(store, &hole_expr, dfa)
        } else {
            Constraint::upper_bound(store, &hole_expr, dfa)
        },
    };
    proof {
        let s3 = *store;
        assert forall|w: Word| is_word(n, w) implies #[trigger] enfa_lang(&c.the_dfa(), s3)(w)
            == lang(bound_side(lhs@, rhs@), n)(w) by {
            crate::holes::aut::lemma_lang_valid(&d0, s3, s1, d0.init(), w);
            assert(enfa_lang(&d0, s1)(w) == lang(bound@, n)(w));
        }
        assert forall|hs: Fill, w: Word| is_word(n, w) implies #[trigger] c.lang(s3, hs)(w)
            == hole_lang(hole_side(lhs@, rhs@), n, hs)(w) by {
            assert(c.the_aut().accepts(s3, hs, c.the_start().aexpr, w) <==> filled(
                hole_expr,
                s2,
                hs,
            )(w));
            assert(same(n, filled(hole_expr, s2, hs), hole_lang(holes@, n, hs)));
        }
        assert forall|h: Hole| #[trigger] c.the_aut().uses(h) implies h.0 < k by {
            assert(mentions(hole_expr, h));
        }
    }
    Ok(c)
}


// ---- from files to problems --------------------------------------------------------------------

/// What the statements of a file say: the names, the number of holes, and the goals,
/// without sugar.
pub struct Lowered {
    pub scope: Scope,
    pub holes: nat,
    pub goals: Seq<(Term, AssertOp, Term)>,
}

/// What the statements say, or the message of the first error.
pub open spec fn lowered(ls: Seq<Line>) -> Result<Lowered, Seq<char>>
    decreases ls.len(),
{
    if ls.len() == 0 {
        Ok(Lowered { scope: Scope::empty(), holes: 0, goals: Seq::empty() })
    } else {
        match lowered(ls.drop_last()) {
            Err(m) => Err(m),
            Ok(d) => match ls.last() {
                Line::Hole(x) => Ok(
                    Lowered {
                        scope: d.scope.bind(x, Term::Hole(Hole(d.holes as u32))),
                        holes: d.holes + 1,
                        goals: d.goals,
                    },
                ),
                Line::Def(x, e) => match expand(e, d.scope) {
                    Err(m) => Err(m),
                    Ok(t) => Ok(
                        Lowered { scope: d.scope.bind(x, t), holes: d.holes, goals: d.goals },
                    ),
                },
                Line::Assert(a, op, b) => match expand(a, d.scope) {
                    Err(m) => Err(m),
                    Ok(l) => match expand(b, d.scope) {
                        Err(m) => Err(m),
                        Ok(r) => match goal_error(l, r) {
                            Some(m) => Err(m),
                            None => Ok(
                                Lowered {
                                    scope: d.scope,
                                    holes: d.holes,
                                    goals: d.goals.push((l, op, r)),
                                },
                            ),
                        },
                    },
                },
            },
        }
    }
}

/// The first error of a part is that of the whole.
proof fn lemma_lowered_err(ls: Seq<Line>, i: int)
    requires
        0 <= i <= ls.len(),
        lowered(ls.take(i)) is Err,
    ensures
        lowered(ls) == lowered(ls.take(i)),
    decreases ls.len(),
{
    if i < ls.len() {
        assert(ls.drop_last().take(i) =~= ls.take(i));
        lemma_lowered_err(ls.drop_last(), i);
    } else {
        assert(ls.take(i) =~= ls);
    }
}

/// The constraints are the goals.
pub open spec fn states_goals(
    cs: Seq<Constraint>,
    st: SPPstore,
    goals: Seq<(Term, AssertOp, Term)>,
    k: nat,
) -> bool {
    &&& cs.len() == goals.len()
    &&& forall|i: int|
        0 <= i < cs.len() ==> #[trigger] states_goal(
            cs[i],
            st,
            goals[i].1,
            goals[i].0,
            goals[i].2,
            k,
        )
}

/// The holes are numbered from zero.
pub open spec fn numbered(holes: Seq<Hole>) -> bool {
    forall|i: int| 0 <= i < holes.len() ==> (#[trigger] holes[i]).0 == i
}

/// The problem that a file states: a store with as many fields as the file needs, its
/// holes, and a constraint for each assertion, which holds if and only if the constraint is
/// met.  The error is that of the first statement that has one.
pub fn desugar(program: &Program) -> (r: Result<ProblemInstance, DesugarError>)
    requires
        program_ok(lines(program.statements@)),
        program.statements@.len() <= u32::MAX,
    ensures
        match r {
            Ok(p) => {
                let d = lowered(lines(program.statements@));
                &&& d is Ok
                &&& p.wf()
                &&& p.store.n() == fields_in(lines(program.statements@))
                &&& p.holes@.len() == d->Ok_0.holes
                &&& numbered(p.holes@)
                &&& states_goals(p.constraints@, p.store, d->Ok_0.goals, d->Ok_0.holes)
                &&& p.holes@.len() == holes_before(
                    lines(program.statements@),
                    program.statements@.len() as int,
                )
                &&& exists|scopes: Seq<Scope>, at: Seq<int>| #[trigger]
                    states_program(
                        p.constraints@,
                        p.store,
                        lines(program.statements@),
                        scopes,
                        at,
                    )
            },
            Err(e) => {
                &&& lowered(lines(program.statements@)) == Err::<Lowered, Seq<char>>(e.message@)
                &&& exists|i: int, scopes: Seq<Scope>| #[trigger]
                    first_error(lines(program.statements@), i, scopes, e.message@)
            },
        },
{
    let r = build_problem(program);
    proof {
        let ls = lines(program.statements@);
        if r is Ok {
            let p = r->Ok_0;
            let k = lowered(ls)->Ok_0.holes;
            let (scopes, at) = lemma_states_program(p.constraints@, p.store, ls, k);
            assert(states_program(p.constraints@, p.store, ls, scopes, at));
        } else {
            law_file_error(ls, r->Err_0.message@);
        }
    }
    r
}

/// The problem, by the goals that the statements come to.
fn build_problem(program: &Program) -> (r: Result<ProblemInstance, DesugarError>)
    requires
        program_ok(lines(program.statements@)),
        program.statements@.len() <= u32::MAX,
    ensures
        match r {
            Ok(p) => {
                let d = lowered(lines(program.statements@));
                &&& d is Ok
                &&& p.wf()
                &&& p.store.n() == fields_in(lines(program.statements@))
                &&& p.holes@.len() == d->Ok_0.holes
                &&& numbered(p.holes@)
                &&& states_goals(p.constraints@, p.store, d->Ok_0.goals, d->Ok_0.holes)
            },
            Err(e) => lowered(lines(program.statements@)) == Err::<Lowered, Seq<char>>(e.message@),
        },
{
    let ghost ls = lines(program.statements@);
    let n = num_fields(program);
    let mut store = SPPstore::new(n);
    let mut env = DesugarEnv::new();
    let mut holes: Vec<Hole> = Vec::new();
    let mut constraints: Vec<Constraint> = Vec::new();
    let mut i: usize = 0;
    proof {
        assert(ls.take(0).len() == 0);
    }
    while i < program.statements.len()
        invariant
            ls == lines(program.statements@),
            program_ok(ls),
            program.statements@.len() <= u32::MAX,
            n == fields_in(ls),
            store.wf(),
            store.n() == n,
            i <= program.statements@.len(),
            lowered(ls.take(i as int)) is Ok,
            env@ == lowered(ls.take(i as int))->Ok_0.scope,
            env@.ok(),
            scope_bounded(env@, n as nat, holes@.len()),
            holes@.len() == lowered(ls.take(i as int))->Ok_0.holes,
            holes@.len() <= i,
            numbered(holes@),
            states_goals(
                constraints@,
                store,
                lowered(ls.take(i as int))->Ok_0.goals,
                holes@.len(),
            ),
        decreases program.statements.len() - i,
    {
        let ghost d = lowered(ls.take(i as int))->Ok_0;
        let ghost next = ls.take(i + 1);
        let ghost cs0 = constraints@;
        let ghost s0 = store;
        let ghost env0 = env@;
        let ghost k = holes@.len();
        proof {
            assert(next.drop_last() =~= ls.take(i as int));
            assert(next.last() == ls[i as int]);
            assert(ls[i as int] == program.statements@[i as int]@);
            assert(line_ok(ls[i as int]));
            lemma_fields_in(ls, i as int);
        }
        match &program.statements[i] {
            Stmt::Hole(name) => {
                let h = Hole(holes.len() as u32);
                let ghost holes0 = holes@;
                holes.push(h);
                env.add_variable(copy_text(name), Expr::hole(h));
                proof {
                    assert(env@ == env0.bind(name@, Term::Hole(h)));
                    assert(scope_bounded(env@, n as nat, k + 1)) by {
                        assert forall|x: Seq<char>| #[trigger] env@.vars.contains_key(
                            x,
                        ) implies bounded(env@.vars[x], n as nat, k + 1) by {
                            if x != name@ {
                                assert(env0.vars.contains_key(x));
                                lemma_more_holes(env0.vars[x], n as nat, k, k + 1);
                            }
                        }
                    }
                    assert forall|j: int| 0 <= j < cs0.len() implies #[trigger] states_goal(
                        cs0[j],
                        store,
                        d.goals[j].1,
                        d.goals[j].0,
                        d.goals[j].2,
                        k + 1,
                    ) by {
                        assert(states_goal(
                            cs0[j],
                            s0,
                            d.goals[j].1,
                            d.goals[j].0,
                            d.goals[j].2,
                            k,
                        ));
                        lemma_goal_kept(
                            cs0[j],
                            store,
                            s0,
                            d.goals[j].1,
                            d.goals[j].0,
                            d.goals[j].2,
                            k,
                            k + 1,
                        );
                    }
                }
            },
            Stmt::Def(name, expr) => {
                proof {
                    lemma_bounded(expr@, u32::MAX as nat, n as nat, k);
                    lemma_scope_ordered(env0);
                    law_expand_bounded(expr@, env0, n as nat, k);
                }
                match desugar_with_env(expr, &env) {
                    Ok(e) => {
                        env.add_variable(copy_text(name), e);
                    },
                    Err(e) => {
                        proof {
                            lemma_lowered_err(ls, i + 1);
                        }
                        return Err(e);
                    },
                }
            },
            Stmt::Assert { lhs, op, rhs } => {
                proof {
                    lemma_scope_ordered(env0);
                    lemma_bounded(lhs@, u32::MAX as nat, n as nat, k);
                    law_expand_bounded(lhs@, env0, n as nat, k);
                    lemma_bounded(rhs@, u32::MAX as nat, n as nat, k);
                    law_expand_bounded(rhs@, env0, n as nat, k);
                }
                let dl = match desugar_with_env(lhs, &env) {
                    Ok(e) => e,
                    Err(e) => {
                        proof {
                            lemma_lowered_err(ls, i + 1);
                        }
                        return Err(e);
                    },
                };
                let dr = match desugar_with_env(rhs, &env) {
                    Ok(e) => e,
                    Err(e) => {
                        proof {
                            lemma_lowered_err(ls, i + 1);
                        }
                        return Err(e);
                    },
                };
                match build_constraint(&mut store, &dl, *op, &dr, Ghost(k)) {
                    Ok(c) => {
                        constraints.push(c);
                        proof {
                            let goals = d.goals.push((dl@, *op, dr@));
                            assert forall|j: int| 0 <= j < constraints@.len() implies
                                #[trigger] states_goal(
                                constraints@[j],
                                store,
                                goals[j].1,
                                goals[j].0,
                                goals[j].2,
                                k,
                            ) by {
                                if j < cs0.len() {
                                    assert(states_goal(
                                        cs0[j],
                                        s0,
                                        d.goals[j].1,
                                        d.goals[j].0,
                                        d.goals[j].2,
                                        k,
                                    ));
                                    lemma_goal_kept(
                                        cs0[j],
                                        store,
                                        s0,
                                        d.goals[j].1,
                                        d.goals[j].0,
                                        d.goals[j].2,
                                        k,
                                        k,
                                    );
                                }
                            }
                        }
                    },
                    Err(e) => {
                        proof {
                            lemma_lowered_err(ls, i + 1);
                        }
                        return Err(e);
                    },
                }
            },
        }
        i = i + 1;
    }
    let p = ProblemInstance { store, holes, constraints };
    proof {
        assert(ls.take(ls.len() as int) =~= ls);
        let d = lowered(ls)->Ok_0;
        assert forall|j: int| 0 <= j < p.constraints@.len() implies (
        #[trigger] p.constraints@[j]).ok(p.store) by {
            assert(states_goal(
                p.constraints@[j],
                p.store,
                d.goals[j].1,
                d.goals[j].0,
                d.goals[j].2,
                d.holes,
            ));
        }
        assert forall|j: int, h: Hole|
            #![trigger p.constraints@[j].the_aut().uses(h)]
            0 <= j < p.constraints@.len() && p.constraints@[j].the_aut().uses(h)
            implies p.holes@.contains(h) by {
            assert(states_goal(
                p.constraints@[j],
                p.store,
                d.goals[j].1,
                d.goals[j].0,
                d.goals[j].2,
                d.holes,
            ));
            assert(h.0 < d.holes);
            assert(p.holes@[h.0 as int].0 == h.0);
            assert(p.holes@[h.0 as int] == h);
        }
    }
    Ok(p)
}

/// More holes bound what fewer do.
proof fn lemma_more_holes(t: Term, n: nat, k: nat, j: nat)
    requires
        bounded(t, n, k),
        k <= j,
    ensures
        bounded(t, n, j),
    decreases t,
{
    match t {
        Term::Union(a, b) => {
            lemma_more_holes(*a, n, k, j);
            lemma_more_holes(*b, n, k, j);
        },
        Term::Intersect(a, b) => {
            lemma_more_holes(*a, n, k, j);
            lemma_more_holes(*b, n, k, j);
        },
        Term::Xor(a, b) => {
            lemma_more_holes(*a, n, k, j);
            lemma_more_holes(*b, n, k, j);
        },
        Term::Difference(a, b) => {
            lemma_more_holes(*a, n, k, j);
            lemma_more_holes(*b, n, k, j);
        },
        Term::Sequence(a, b) => {
            lemma_more_holes(*a, n, k, j);
            lemma_more_holes(*b, n, k, j);
        },
        Term::LtlUntil(a, b) => {
            lemma_more_holes(*a, n, k, j);
            lemma_more_holes(*b, n, k, j);
        },
        Term::Complement(a) => lemma_more_holes(*a, n, k, j),
        Term::TestNegation(a) => lemma_more_holes(*a, n, k, j),
        Term::Star(a) => lemma_more_holes(*a, n, k, j),
        Term::LtlNext(a) => lemma_more_holes(*a, n, k, j),
        Term::IfThenElse(a, b, c) => {
            lemma_more_holes(*a, n, k, j);
            lemma_more_holes(*b, n, k, j);
            lemma_more_holes(*c, n, k, j);
        },
        Term::Let(_, a, b) => {
            lemma_more_holes(*a, n, k, j);
            lemma_more_holes(*b, n, k, j);
        },
        Term::LetBitRange(_, _, _, a) => lemma_more_holes(*a, n, k, j),
        _ => {},
    }
}

} // verus!
