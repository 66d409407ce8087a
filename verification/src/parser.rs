//! The surface syntax of expressions.
//!
//! Text is cut into tokens, and tokens are read as expressions.  Operators bind, from
//! the loosest to the tightest: `U`; `;`; `+`, `-` and `^`; `&`; the prefixes `~`, `!`
//! and `X`; the postfix `*`.  `let` and `if` reach as far to the right as they can.
use vstd::prelude::*;
use vstd::string::*;
use crate::desugar::{bounded, ranges_ok};
use crate::expr::{Exp, Expr, Pat, Pattern, Term};
use crate::text::{copy_bits, copy_text, join3};

verus! {

// ---- tokens ------------------------------------------------------------------------------------

/// A part of the text: the characters from `start` to before `end`.
#[derive(Debug, Clone, Copy, PartialEq, Eq, Structural)]
pub struct Span {
    pub start: usize,
    pub end: usize,
}

/// What a token is.
#[derive(Debug, Clone, PartialEq, Eq)]
pub enum TokenKind {
    Ident(String),
    Field(u32),
    Num(u64),
    Lit(Vec<bool>),
    Bits,
    Top,
    LtlNext,
    LtlUntil,
    Dup,
    If,
    Then,
    Else,
    Let,
    In,
    Mask,
    Hole,
    Def,
    Plus,
    Amp,
    Caret,
    Minus,
    Semi,
    Star,
    Tilde,
    Bang,
    Slash,
    LParen,
    RParen,
    LBracket,
    RBracket,
    DotDot,
    Assign,
    Eq,
    Lte,
    Eof,
}

/// A token as a mathematical value.
pub enum Tok {
    Ident(Seq<char>),
    Field(u32),
    Num(u64),
    Lit(Seq<bool>),
    Bits,
    Top,
    LtlNext,
    LtlUntil,
    Dup,
    If,
    Then,
    Else,
    Let,
    In,
    Mask,
    Hole,
    Def,
    Plus,
    Amp,
    Caret,
    Minus,
    Semi,
    Star,
    Tilde,
    Bang,
    Slash,
    LParen,
    RParen,
    LBracket,
    RBracket,
    DotDot,
    Assign,
    Eq,
    Lte,
    Eof,
}

impl View for TokenKind {
    type V = Tok;

    open spec fn view(&self) -> Tok {
        match *self {
            TokenKind::Ident(x) => Tok::Ident(x@),
            TokenKind::Field(f) => Tok::Field(f),
            TokenKind::Num(n) => Tok::Num(n),
            TokenKind::Lit(b) => Tok::Lit(b@),
            TokenKind::Bits => Tok::Bits,
            TokenKind::Top => Tok::Top,
            TokenKind::LtlNext => Tok::LtlNext,
            TokenKind::LtlUntil => Tok::LtlUntil,
            TokenKind::Dup => Tok::Dup,
            TokenKind::If => Tok::If,
            TokenKind::Then => Tok::Then,
            TokenKind::Else => Tok::Else,
            TokenKind::Let => Tok::Let,
            TokenKind::In => Tok::In,
            TokenKind::Mask => Tok::Mask,
            TokenKind::Hole => Tok::Hole,
            TokenKind::Def => Tok::Def,
            TokenKind::Plus => Tok::Plus,
            TokenKind::Amp => Tok::Amp,
            TokenKind::Caret => Tok::Caret,
            TokenKind::Minus => Tok::Minus,
            TokenKind::Semi => Tok::Semi,
            TokenKind::Star => Tok::Star,
            TokenKind::Tilde => Tok::Tilde,
            TokenKind::Bang => Tok::Bang,
            TokenKind::Slash => Tok::Slash,
            TokenKind::LParen => Tok::LParen,
            TokenKind::RParen => Tok::RParen,
            TokenKind::LBracket => Tok::LBracket,
            TokenKind::RBracket => Tok::RBracket,
            TokenKind::DotDot => Tok::DotDot,
            TokenKind::Assign => Tok::Assign,
            TokenKind::Eq => Tok::Eq,
            TokenKind::Lte => Tok::Lte,
            TokenKind::Eof => Tok::Eof,
        }
    }
}

/// A token, and where it stands.
#[derive(Debug, Clone, PartialEq, Eq)]
pub struct Token {
    pub kind: TokenKind,
    pub span: Span,
}

impl View for Token {
    type V = (Tok, Span);

    open spec fn view(&self) -> (Tok, Span) {
        (self.kind@, self.span)
    }
}

/// Why a text is no expression, and where.
#[derive(Debug, Clone, PartialEq, Eq)]
pub struct ParseError {
    pub message: String,
    pub span: Span,
}

/// Why a text is no expression, and where if that is known.
#[derive(Debug, Clone, PartialEq, Eq)]
pub struct ParseErrorDetails {
    pub message: String,
    pub span: Option<Span>,
}

// ---- characters --------------------------------------------------------------------------------

/// A class of characters.
#[derive(Debug, Clone, Copy, PartialEq, Eq, Structural)]
pub enum Class {
    Alpha,
    Word,
    Digit,
    Binary,
    Hex,
    Space,
    Line,
}

/// The character is in the class.
pub open spec fn in_class(c: char, k: Class) -> bool {
    match k {
        Class::Alpha => ('a' <= c && c <= 'z') || ('A' <= c && c <= 'Z') || c == '_',
        Class::Word => ('a' <= c && c <= 'z') || ('A' <= c && c <= 'Z') || c == '_' || ('0' <= c
            && c <= '9'),
        Class::Digit => '0' <= c && c <= '9',
        Class::Binary => c == '0' || c == '1',
        Class::Hex => ('0' <= c && c <= '9') || ('a' <= c && c <= 'f') || ('A' <= c && c <= 'F'),
        Class::Space => c == ' ' || c == '\t' || c == '\n' || c == '\r',
        Class::Line => c != '\n',
    }
}

fn is_in(c: char, k: Class) -> (b: bool)
    ensures
        b == in_class(c, k),
{
    match k {
        Class::Alpha => ('a' <= c && c <= 'z') || ('A' <= c && c <= 'Z') || c == '_',
        Class::Word => ('a' <= c && c <= 'z') || ('A' <= c && c <= 'Z') || c == '_' || ('0' <= c
            && c <= '9'),
        Class::Digit => '0' <= c && c <= '9',
        Class::Binary => c == '0' || c == '1',
        Class::Hex => ('0' <= c && c <= '9') || ('a' <= c && c <= 'f') || ('A' <= c && c <= 'F'),
        Class::Space => c == ' ' || c == '\t' || c == '\n' || c == '\r',
        Class::Line => c != '\n',
    }
}

/// The first position from `i` on whose character is not in the class.
pub open spec fn run_end(s: Seq<char>, i: int, k: Class) -> int
    decreases s.len() - i,
{
    if 0 <= i < s.len() && in_class(s[i], k) {
        run_end(s, i + 1, k)
    } else {
        i
    }
}

proof fn lemma_run_end(s: Seq<char>, i: int, k: Class)
    requires
        0 <= i <= s.len(),
    ensures
        i <= run_end(s, i, k) <= s.len(),
        forall|j: int| i <= j < run_end(s, i, k) ==> in_class(#[trigger] s[j], k),
        i < s.len() && in_class(s[i], k) ==> i < run_end(s, i, k),
    decreases s.len() - i,
{
    if i < s.len() && in_class(s[i], k) {
        lemma_run_end(s, i + 1, k);
    }
}

fn end_of(s: &Vec<char>, i: usize, k: Class) -> (j: usize)
    requires
        i <= s@.len(),
    ensures
        j == run_end(s@, i as int, k),
        i <= j <= s@.len(),
        forall|z: int| i <= z < j ==> in_class(#[trigger] s@[z], k),
        i < s@.len() && in_class(s@[i as int], k) ==> i < j,
{
    let mut j: usize = i;
    while j < s.len() && is_in(s[j], k)
        invariant
            i <= j <= s@.len(),
            run_end(s@, j as int, k) == run_end(s@, i as int, k),
        decreases s.len() - j,
    {
        j = j + 1;
    }
    proof {
        lemma_run_end(s@, i as int, k);
    }
    j
}

/// The first position from `i` on that is neither blank nor in a comment.
pub open spec fn skip_blank(s: Seq<char>, i: int) -> int
    decreases s.len() - i,
{
    let j = run_end(s, i, Class::Space);
    if i <= j && j + 1 < s.len() && s[j] == '/' && s[j + 1] == '/' {
        let k = run_end(s, j + 2, Class::Line);
        if j < k && k <= s.len() {
            skip_blank(s, k)
        } else {
            j
        }
    } else {
        j
    }
}

fn after_blank(s: &Vec<char>, i: usize) -> (j: usize)
    requires
        i <= s@.len(),
    ensures
        j == skip_blank(s@, i as int),
        i <= j <= s@.len(),
{
    let mut i0: usize = i;
    loop
        invariant
            i <= i0 <= s@.len(),
            skip_blank(s@, i0 as int) == skip_blank(s@, i as int),
        decreases s.len() - i0,
    {
        let j = end_of(s, i0, Class::Space);
        if s.len() >= 2 && j < s.len() - 1 && s[j] == '/' && s[j + 1] == '/' {
            let k = end_of(s, j + 2, Class::Line);
            i0 = k;
        } else {
            return j;
        }
    }
}

// ---- numbers -----------------------------------------------------------------------------------

/// The value of a digit.
pub open spec fn digit_value(c: char) -> nat {
    if '0' <= c && c <= '9' {
        (c as u32 - '0' as u32) as nat
    } else if 'a' <= c && c <= 'f' {
        (c as u32 - 'a' as u32 + 10) as nat
    } else if 'A' <= c && c <= 'F' {
        (c as u32 - 'A' as u32 + 10) as nat
    } else {
        0
    }
}

fn value_of_digit(c: char) -> (v: u64)
    ensures
        v == digit_value(c),
        v < 16,
        in_class(c, Class::Digit) ==> v < 10,
{
    if '0' <= c && c <= '9' {
        (c as u32 - '0' as u32) as u64
    } else if 'a' <= c && c <= 'f' {
        (c as u32 - 'a' as u32 + 10) as u64
    } else if 'A' <= c && c <= 'F' {
        (c as u32 - 'A' as u32 + 10) as u64
    } else {
        0
    }
}

/// The value of the decimal digits from `i` to before `j`.
pub open spec fn decimal_value(s: Seq<char>, i: int, j: int) -> nat
    decreases j - i,
{
    if i >= j {
        0
    } else {
        decimal_value(s, i, j - 1) * 10 + digit_value(s[j - 1])
    }
}

proof fn lemma_decimal_more(s: Seq<char>, i: int, j: int, k: int)
    requires
        i <= j <= k,
    ensures
        decimal_value(s, i, j) <= decimal_value(s, i, k),
    decreases k - j,
{
    if j < k {
        lemma_decimal_more(s, i, j, k - 1);
    }
}

/// The value, if it fits.
fn decimal_of(s: &Vec<char>, i: usize, j: usize) -> (r: Option<u64>)
    requires
        i <= j <= s@.len(),
    ensures
        match r {
            Some(v) => v == decimal_value(s@, i as int, j as int),
            None => decimal_value(s@, i as int, j as int) > u64::MAX,
        },
{
    let mut v: u64 = 0;
    let mut k: usize = i;
    while k < j
        invariant
            i <= k <= j <= s@.len(),
            v == decimal_value(s@, i as int, k as int),
        decreases j - k,
    {
        let d = value_of_digit(s[k]);
        proof {
            assert(decimal_value(s@, i as int, k + 1) == v * 10 + d);
            lemma_decimal_more(s@, i as int, k + 1, j as int);
        }
        if v > 1_844_674_407_370_955_161 {
            assert(v * 10 + d > u64::MAX);
            return None;
        }
        let t: u64 = v * 10;
        if t > 18_446_744_073_709_551_615 - d {
            return None;
        }
        v = t + d;
        k = k + 1;
    }
    Some(v)
}

/// The `width` lowest bits of a number, the lowest first.
pub open spec fn low_bits(v: nat, width: nat) -> Seq<bool>
    decreases width,
{
    if width == 0 {
        Seq::empty()
    } else {
        seq![v % 2 == 1] + low_bits(v / 2, (width - 1) as nat)
    }
}

/// The bits of a number, the lowest first, without leading zeros; one bit for zero.
pub open spec fn min_bits(v: nat) -> Seq<bool>
    decreases v,
{
    if v < 2 {
        seq![v == 1]
    } else {
        seq![v % 2 == 1] + min_bits(v / 2)
    }
}

fn bits_of_number(v: u64) -> (r: Vec<bool>)
    ensures
        r@ == min_bits(v as nat),
{
    let mut r: Vec<bool> = Vec::new();
    let mut u: u64 = v;
    while u >= 2
        invariant
            r@ + min_bits(u as nat) == min_bits(v as nat),
        decreases u,
    {
        let ghost r0 = r@;
        r.push(u % 2 == 1);
        proof {
            assert(r@ + min_bits((u / 2) as nat) =~= r0 + min_bits(u as nat));
        }
        u = u / 2;
    }
    r.push(u == 1);
    proof {
        assert(r@ =~= r@.drop_last() + min_bits(u as nat));
    }
    r
}

/// Adds the lowest bits of a number.
fn push_bits(r: &mut Vec<bool>, v: u64, width: usize)
    ensures
        final(r)@ == old(r)@ + low_bits(v as nat, width as nat),
{
    let ghost r0 = r@;
    let mut u: u64 = v;
    let mut k: usize = 0;
    while k < width
        invariant
            k <= width,
            r@ + low_bits(u as nat, (width - k) as nat) == r0 + low_bits(v as nat, width as nat),
        decreases width - k,
    {
        let ghost r1 = r@;
        r.push(u % 2 == 1);
        proof {
            assert(r@ + low_bits((u / 2) as nat, (width - k - 1) as nat) =~= r1 + low_bits(
                u as nat,
                (width - k) as nat,
            ));
        }
        u = u / 2;
        k = k + 1;
    }
    proof {
        assert(r@ + low_bits(u as nat, 0) =~= r@);
    }
}

/// The bits of the digits from `i` to before `j`, `width` for each, the lowest first.
pub open spec fn digit_bits(s: Seq<char>, i: int, j: int, width: nat) -> Seq<bool>
    decreases j - i,
{
    if i >= j {
        Seq::empty()
    } else {
        low_bits(digit_value(s[j - 1]), width) + digit_bits(s, i, j - 1, width)
    }
}

fn bits_of_digits(s: &Vec<char>, i: usize, j: usize, width: usize) -> (r: Vec<bool>)
    requires
        i <= j <= s@.len(),
    ensures
        r@ == digit_bits(s@, i as int, j as int, width as nat),
{
    let mut r: Vec<bool> = Vec::new();
    let mut k: usize = j;
    while k > i
        invariant
            i <= k <= j <= s@.len(),
            r@ + digit_bits(s@, i as int, k as int, width as nat) == digit_bits(
                s@,
                i as int,
                j as int,
                width as nat,
            ),
        decreases k,
    {
        let ghost r0 = r@;
        push_bits(&mut r, value_of_digit(s[k - 1]), width);
        proof {
            assert(r@ + digit_bits(s@, i as int, k - 1, width as nat) =~= r0 + digit_bits(
                s@,
                i as int,
                k as int,
                width as nat,
            ));
        }
        k = k - 1;
    }
    proof {
        assert(r@ + digit_bits(s@, i as int, i as int, width as nat) =~= r@);
    }
    r
}

/// Position `i` has a point that a digit follows.
pub open spec fn point_at(s: Seq<char>, i: int) -> bool {
    0 <= i && i + 1 < s.len() && s[i] == '.' && in_class(s[i + 1], Class::Digit)
}

fn is_point(s: &Vec<char>, i: usize) -> (b: bool)
    requires
        i <= s@.len(),
    ensures
        b == point_at(s@, i as int),
{
    s.len() >= 2 && i < s.len() - 1 && s[i] == '.' && is_in(s[i + 1], Class::Digit)
}

/// The address of four numbers below 256 with points in between.
pub open spec fn address_at(s: Seq<char>, i: int) -> Option<(Seq<bool>, int)> {
    let a = run_end(s, i, Class::Digit);
    let b = run_end(s, a + 1, Class::Digit);
    let c = run_end(s, b + 1, Class::Digit);
    let d = run_end(s, c + 1, Class::Digit);
    let p = decimal_value(s, i, a);
    let q = decimal_value(s, a + 1, b);
    let r = decimal_value(s, b + 1, c);
    let t = decimal_value(s, c + 1, d);
    if point_at(s, a) && point_at(s, b) && point_at(s, c) && p < 256 && q < 256 && r < 256 && t
        < 256 {
        Some((low_bits(t, 8) + low_bits(r, 8) + low_bits(q, 8) + low_bits(p, 8), d))
    } else {
        None
    }
}

fn octet(s: &Vec<char>, i: usize, j: usize) -> (r: Option<u64>)
    requires
        i <= j <= s@.len(),
    ensures
        match r {
            Some(v) => v == decimal_value(s@, i as int, j as int) && v < 256,
            None => decimal_value(s@, i as int, j as int) >= 256,
        },
{
    match decimal_of(s, i, j) {
        Some(v) => if v < 256 {
            Some(v)
        } else {
            None
        },
        None => None,
    }
}

fn address(s: &Vec<char>, i: usize) -> (r: Option<(Vec<bool>, usize)>)
    requires
        i <= s@.len(),
    ensures
        match r {
            Some((b, j)) => address_at(s@, i as int) == Some((b@, j as int)) && i <= j <= s@.len(),
            None => address_at(s@, i as int) is None,
        },
{
    let n: usize = s.len();
    let a = end_of(s, i, Class::Digit);
    assert(a <= n);
    if !is_point(s, a) {
        return None;
    }
    let b = end_of(s, a + 1, Class::Digit);
    if !is_point(s, b) {
        return None;
    }
    let c = end_of(s, b + 1, Class::Digit);
    if !is_point(s, c) {
        return None;
    }
    let d = end_of(s, c + 1, Class::Digit);
    match (octet(s, i, a), octet(s, a + 1, b), octet(s, b + 1, c), octet(s, c + 1, d)) {
        (Some(p), Some(q), Some(r), Some(t)) => {
            let mut bits: Vec<bool> = Vec::new();
            push_bits(&mut bits, t, 8);
            push_bits(&mut bits, r, 8);
            push_bits(&mut bits, q, 8);
            push_bits(&mut bits, p, 8);
            proof {
                assert(bits@ =~= low_bits(t as nat, 8) + low_bits(r as nat, 8) + low_bits(
                    q as nat,
                    8,
                ) + low_bits(p as nat, 8));
            }
            Some((bits, d))
        },
        _ => None,
    }
}

// ---- the lexer ---------------------------------------------------------------------------------

/// The token of a number that begins at `i`, and where it ends.
pub open spec fn number_at(s: Seq<char>, i: int) -> Option<(Tok, int)> {
    let j = run_end(s, i, Class::Digit);
    if i + 1 < s.len() && s[i] == '0' && s[i + 1] == 'b' {
        let k = run_end(s, i + 2, Class::Binary);
        if k > i + 2 {
            Some((Tok::Lit(digit_bits(s, i + 2, k, 1)), k))
        } else {
            None
        }
    } else if i + 1 < s.len() && s[i] == '0' && s[i + 1] == 'x' {
        let k = run_end(s, i + 2, Class::Hex);
        if k > i + 2 {
            Some((Tok::Lit(digit_bits(s, i + 2, k, 4)), k))
        } else {
            None
        }
    } else if point_at(s, j) {
        match address_at(s, i) {
            Some((b, k)) => Some((Tok::Lit(b), k)),
            None => None,
        }
    } else if decimal_value(s, i, j) <= u64::MAX {
        Some((Tok::Num(decimal_value(s, i, j) as u64), j))
    } else {
        None
    }
}

fn lex_number(s: &Vec<char>, i: usize) -> (r: Option<(TokenKind, usize)>)
    requires
        i < s@.len(),
        in_class(s@[i as int], Class::Digit),
    ensures
        match r {
            Some((k, j)) => number_at(s@, i as int) == Some((k@, j as int)) && i < j <= s@.len(),
            None => number_at(s@, i as int) is None,
        },
{
    let n: usize = s.len();
    if i < n - 1 && s[i] == '0' && s[i + 1] == 'b' {
        let k = end_of(s, i + 2, Class::Binary);
        if k > i + 2 {
            return Some((TokenKind::Lit(bits_of_digits(s, i + 2, k, 1)), k));
        }
        return None;
    }
    if i < n - 1 && s[i] == '0' && s[i + 1] == 'x' {
        let k = end_of(s, i + 2, Class::Hex);
        if k > i + 2 {
            return Some((TokenKind::Lit(bits_of_digits(s, i + 2, k, 4)), k));
        }
        return None;
    }
    let j = end_of(s, i, Class::Digit);
    if is_point(s, j) {
        match address(s, i) {
            Some((b, k)) => {
                proof {
                    let b1 = run_end(s@, j + 1, Class::Digit);
                    lemma_run_end(s@, j + 1, Class::Digit);
                    lemma_run_end(s@, b1 + 1, Class::Digit);
                    let c1 = run_end(s@, b1 + 1, Class::Digit);
                    lemma_run_end(s@, c1 + 1, Class::Digit);
                }
                Some((TokenKind::Lit(b), k))
            },
            None => None,
        }
    } else {
        match decimal_of(s, i, j) {
            Some(v) => Some((TokenKind::Num(v), j)),
            None => None,
        }
    }
}

/// The word is `x` and digits.
pub open spec fn is_field(w: Seq<char>) -> bool {
    w.len() >= 2 && w[0] == 'x' && run_end(w, 1, Class::Digit) == w.len()
}

/// The token of a word.  A field has to be one of 32 bits.
pub open spec fn word_token(w: Seq<char>) -> Option<Tok> {
    if w == "x"@ {
        Some(Tok::Bits)
    } else if w == "T"@ {
        Some(Tok::Top)
    } else if w == "X"@ {
        Some(Tok::LtlNext)
    } else if w == "U"@ {
        Some(Tok::LtlUntil)
    } else if w == "dup"@ {
        Some(Tok::Dup)
    } else if w == "if"@ {
        Some(Tok::If)
    } else if w == "then"@ {
        Some(Tok::Then)
    } else if w == "else"@ {
        Some(Tok::Else)
    } else if w == "let"@ {
        Some(Tok::Let)
    } else if w == "in"@ {
        Some(Tok::In)
    } else if w == "mask"@ {
        Some(Tok::Mask)
    } else if w == "hole"@ {
        Some(Tok::Hole)
    } else if w == "def"@ {
        Some(Tok::Def)
    } else if is_field(w) {
        if decimal_value(w, 1, w.len() as int) < u32::MAX {
            Some(Tok::Field(decimal_value(w, 1, w.len() as int) as u32))
        } else {
            None
        }
    } else {
        Some(Tok::Ident(w))
    }
}

fn lex_word(text: &str) -> (r: Option<TokenKind>)
    ensures
        match r {
            Some(k) => word_token(text@) == Some(k@),
            None => word_token(text@) is None,
        },
{
    let w = String::from_str(text);
    if w == String::from_str("x") {
        Some(TokenKind::Bits)
    } else if w == String::from_str("T") {
        Some(TokenKind::Top)
    } else if w == String::from_str("X") {
        Some(TokenKind::LtlNext)
    } else if w == String::from_str("U") {
        Some(TokenKind::LtlUntil)
    } else if w == String::from_str("dup") {
        Some(TokenKind::Dup)
    } else if w == String::from_str("if") {
        Some(TokenKind::If)
    } else if w == String::from_str("then") {
        Some(TokenKind::Then)
    } else if w == String::from_str("else") {
        Some(TokenKind::Else)
    } else if w == String::from_str("let") {
        Some(TokenKind::Let)
    } else if w == String::from_str("in") {
        Some(TokenKind::In)
    } else if w == String::from_str("mask") {
        Some(TokenKind::Mask)
    } else if w == String::from_str("hole") {
        Some(TokenKind::Hole)
    } else if w == String::from_str("def") {
        Some(TokenKind::Def)
    } else {
        let s = chars_of(text);
        if s.len() >= 2 && s[0] == 'x' && end_of(&s, 1, Class::Digit) == s.len() {
            match decimal_of(&s, 1, s.len()) {
                Some(v) => if v < 4_294_967_295 {
                    Some(TokenKind::Field(v as u32))
                } else {
                    None
                },
                None => None,
            }
        } else {
            Some(TokenKind::Ident(w))
        }
    }
}

/// The characters of a text.
fn chars_of(text: &str) -> (s: Vec<char>)
    ensures
        s@ == text@,
{
    let n: usize = text.unicode_len();
    let mut s: Vec<char> = Vec::new();
    let mut i: usize = 0;
    while i < n
        invariant
            n == text@.len(),
            i <= n,
            s@ == text@.take(i as int),
        decreases n - i,
    {
        s.push(text.get_char(i));
        proof {
            assert(text@.take(i + 1) =~= text@.take(i as int).push(text@[i as int]));
        }
        i = i + 1;
    }
    proof {
        assert(text@.take(n as int) =~= text@);
    }
    s
}

/// The token of a symbol that begins at `i`, and where it ends.
pub open spec fn symbol_at(s: Seq<char>, i: int) -> Option<(Tok, int)> {
    let c = s[i];
    let d = if i + 1 < s.len() {
        s[i + 1]
    } else {
        ' '
    };
    if c == '+' {
        Some((Tok::Plus, i + 1))
    } else if c == '&' {
        Some((Tok::Amp, i + 1))
    } else if c == '^' {
        Some((Tok::Caret, i + 1))
    } else if c == '-' {
        Some((Tok::Minus, i + 1))
    } else if c == ';' {
        Some((Tok::Semi, i + 1))
    } else if c == '*' {
        Some((Tok::Star, i + 1))
    } else if c == '~' {
        Some((Tok::Tilde, i + 1))
    } else if c == '!' {
        Some((Tok::Bang, i + 1))
    } else if c == '/' {
        Some((Tok::Slash, i + 1))
    } else if c == '(' {
        Some((Tok::LParen, i + 1))
    } else if c == ')' {
        Some((Tok::RParen, i + 1))
    } else if c == '[' {
        Some((Tok::LBracket, i + 1))
    } else if c == ']' {
        Some((Tok::RBracket, i + 1))
    } else if c == '.' && d == '.' {
        Some((Tok::DotDot, i + 2))
    } else if c == ':' && d == '=' {
        Some((Tok::Assign, i + 2))
    } else if c == '<' && d == '=' {
        Some((Tok::Lte, i + 2))
    } else if c == '=' && d == '=' {
        Some((Tok::Eq, i + 2))
    } else if c == '=' {
        Some((Tok::Eq, i + 1))
    } else {
        None
    }
}

fn lex_symbol(s: &Vec<char>, i: usize) -> (r: Option<(TokenKind, usize)>)
    requires
        i < s@.len(),
    ensures
        match r {
            Some((k, j)) => symbol_at(s@, i as int) == Some((k@, j as int)) && i < j <= s@.len(),
            None => symbol_at(s@, i as int) is None,
        },
{
    let n: usize = s.len();
    let c = s[i];
    let d = if i < n - 1 {
        s[i + 1]
    } else {
        ' '
    };
    if c == '+' {
        Some((TokenKind::Plus, i + 1))
    } else if c == '&' {
        Some((TokenKind::Amp, i + 1))
    } else if c == '^' {
        Some((TokenKind::Caret, i + 1))
    } else if c == '-' {
        Some((TokenKind::Minus, i + 1))
    } else if c == ';' {
        Some((TokenKind::Semi, i + 1))
    } else if c == '*' {
        Some((TokenKind::Star, i + 1))
    } else if c == '~' {
        Some((TokenKind::Tilde, i + 1))
    } else if c == '!' {
        Some((TokenKind::Bang, i + 1))
    } else if c == '/' {
        Some((TokenKind::Slash, i + 1))
    } else if c == '(' {
        Some((TokenKind::LParen, i + 1))
    } else if c == ')' {
        Some((TokenKind::RParen, i + 1))
    } else if c == '[' {
        Some((TokenKind::LBracket, i + 1))
    } else if c == ']' {
        Some((TokenKind::RBracket, i + 1))
    } else if c == '.' && d == '.' {
        Some((TokenKind::DotDot, i + 2))
    } else if c == ':' && d == '=' {
        Some((TokenKind::Assign, i + 2))
    } else if c == '<' && d == '=' {
        Some((TokenKind::Lte, i + 2))
    } else if c == '=' && d == '=' {
        Some((TokenKind::Eq, i + 2))
    } else if c == '=' {
        Some((TokenKind::Eq, i + 1))
    } else {
        None
    }
}

/// The token that begins at `i`, and where it ends.
pub open spec fn token_at(s: Seq<char>, i: int) -> Option<(Tok, int)> {
    if in_class(s[i], Class::Alpha) {
        let j = run_end(s, i, Class::Word);
        match word_token(s.subrange(i, j)) {
            Some(t) => Some((t, j)),
            None => None,
        }
    } else if in_class(s[i], Class::Digit) {
        number_at(s, i)
    } else {
        symbol_at(s, i)
    }
}

/// The tokens from position `i` on, with an end after the last, or the position of a
/// character that no token begins with.
pub open spec fn tokens_from(s: Seq<char>, i: int) -> Result<Seq<(Tok, Span)>, int>
    decreases s.len() - i,
{
    let j = skip_blank(s, i);
    if j < i || j >= s.len() {
        Ok(
            seq![
                (
                    Tok::Eof,
                    Span { start: s.len() as usize, end: s.len() as usize },
                ),
            ],
        )
    } else {
        match token_at(s, j) {
            Some((t, k)) => if j < k && k <= s.len() {
                match tokens_from(s, k) {
                    Ok(ts) => Ok(seq![(t, Span { start: j as usize, end: k as usize })] + ts),
                    Err(e) => Err(e),
                }
            } else {
                Err(j)
            },
            None => Err(j),
        }
    }
}

/// The tokens of a text.
pub struct Lexer<'s> {
    pub input: &'s str,
}

/// The tokens as mathematical values.
pub open spec fn kinds(ts: Seq<Token>) -> Seq<(Tok, Span)> {
    ts.map_values(|t: Token| t@)
}

impl<'s> Lexer<'s> {
    pub fn new(input: &'s str) -> (r: Lexer<'s>)
        ensures
            r.input == input,
    {
        Lexer { input }
    }

    /// All tokens, or where there is none.
    pub fn tokens(&self) -> (r: Result<Vec<Token>, usize>)
        ensures
            match r {
                Ok(ts) => tokens_from(self.input@, 0) == Ok::<Seq<(Tok, Span)>, int>(kinds(ts@)),
                Err(j) => tokens_from(self.input@, 0) == Err::<Seq<(Tok, Span)>, int>(j as int)
                    && j < self.input@.len(),
            },
    {
        let s = chars_of(self.input);
        let ghost t = self.input@;
        let n: usize = s.len();
        let mut out: Vec<Token> = Vec::new();
        let mut i: usize = 0;
        proof {
            if let Ok(rest) = tokens_from(t, 0) {
                assert(kinds(out@) + rest =~= rest);
            }
        }
        loop
            invariant
                s@ == t,
                t == self.input@,
                n == s@.len(),
                i <= n,
                tokens_from(t, 0) == (match tokens_from(t, i as int) {
                    Ok(rest) => Ok::<Seq<(Tok, Span)>, int>(kinds(out@) + rest),
                    Err(e) => Err::<Seq<(Tok, Span)>, int>(e),
                }),
            decreases n - i,
        {
            let j = after_blank(&s, i);
            let ghost out0 = kinds(out@);
            if j >= n {
                out.push(Token { kind: TokenKind::Eof, span: Span { start: n, end: n } });
                proof {
                    assert(kinds(out@) =~= out0 + seq![(Tok::Eof, Span { start: n, end: n })]);
                }
                return Ok(out);
            }
            let found: Option<(TokenKind, usize)> = if is_in(s[j], Class::Alpha) {
                let k = end_of(&s, j, Class::Word);
                proof {
                    lemma_run_end(t, j as int, Class::Word);
                }
                let text = self.input.substring_char(j, k);
                match lex_word(text) {
                    Some(kind) => Some((kind, k)),
                    None => None,
                }
            } else if is_in(s[j], Class::Digit) {
                lex_number(&s, j)
            } else {
                lex_symbol(&s, j)
            };
            match found {
                None => {
                    return Err(j);
                },
                Some((kind, k)) => {
                    let span = Span { start: j, end: k };
                    let ghost tok = kind@;
                    out.push(Token { kind, span });
                    proof {
                        assert(token_at(t, j as int) == Some((tok, k as int)));
                        if let Ok(rest) = tokens_from(t, k as int) {
                            assert(kinds(out@) + rest =~= out0 + (seq![(tok, span)] + rest));
                        }
                    }
                    i = k;
                },
            }
        }
    }
}

// ---- the grammar -------------------------------------------------------------------------------

/// The token at `i`; the end where there is none.
pub open spec fn at(ts: Seq<Tok>, i: int) -> Tok {
    if 0 <= i < ts.len() {
        ts[i]
    } else {
        Tok::Eof
    }
}

/// What a reading gives: a value and where it ends, or where it fails.
pub type Reading<T> = Result<(T, int), int>;

/// The bits of a literal.  A number has as many as it needs.
pub open spec fn value_bits(t: Tok) -> Option<Seq<bool>> {
    match t {
        Tok::Num(v) => Some(min_bits(v as nat)),
        Tok::Lit(b) => Some(b),
        _ => None,
    }
}

/// The bits with zeros above, up to the width.
pub open spec fn padded(b: Seq<bool>, width: nat) -> Seq<bool> {
    if b.len() < width {
        b + Seq::new((width - b.len()) as nat, |i: int| false)
    } else {
        b
    }
}

/// The bits of a literal for a range of the width: numbers get zeros above.
pub open spec fn bits_for(t: Tok, width: nat) -> Option<Seq<bool>> {
    match t {
        Tok::Num(v) => Some(padded(min_bits(v as nat), width)),
        Tok::Lit(b) => Some(b),
        _ => None,
    }
}

/// `x[a..b]` at `i`.
pub open spec fn range_at(ts: Seq<Tok>, i: int) -> Reading<(u32, u32)> {
    if at(ts, i) != Tok::Bits {
        Err(i)
    } else if at(ts, i + 1) != Tok::LBracket {
        Err(i + 1)
    } else if !(at(ts, i + 2) is Num) {
        Err(i + 2)
    } else if at(ts, i + 3) != Tok::DotDot {
        Err(i + 3)
    } else if !(at(ts, i + 4) is Num) || at(ts, i + 4)->Num_0 > u32::MAX || at(ts, i + 2)->Num_0
        > at(ts, i + 4)->Num_0 {
        Err(i + 4)
    } else if at(ts, i + 5) != Tok::RBracket {
        Err(i + 5)
    } else {
        Ok(((at(ts, i + 2)->Num_0 as u32, at(ts, i + 4)->Num_0 as u32), i + 6))
    }
}

/// A pattern at `i`.
pub open spec fn pattern_at(ts: Seq<Tok>, i: int) -> Reading<Pat> {
    match value_bits(at(ts, i)) {
        None => Err(i),
        Some(b) => if at(ts, i + 1) == Tok::Slash {
            if at(ts, i + 2) is Num && at(ts, i + 2)->Num_0 <= u32::MAX {
                Ok((Pat::Cidr(b, at(ts, i + 2)->Num_0 as nat), i + 3))
            } else {
                Err(i + 2)
            }
        } else if at(ts, i + 1) == Tok::Mask {
            match value_bits(at(ts, i + 2)) {
                Some(m) => Ok((Pat::Wildcard(b, m), i + 3)),
                None => Err(i + 2),
            }
        } else if at(ts, i + 1) == Tok::Minus && value_bits(at(ts, i + 2)) is Some {
            let c = value_bits(at(ts, i + 2))->Some_0;
            Ok((Pat::IpRange(padded(b, c.len()), padded(c, b.len())), i + 3))
        } else {
            Ok((Pat::Exact(b), i + 1))
        },
    }
}

/// What begins with a field, a range or a name at `i`.
pub open spec fn leaf_at(ts: Seq<Tok>, i: int) -> Reading<Term> {
    match at(ts, i) {
        Tok::Num(v) => if v == 0 {
            Ok((Term::Zero, i + 1))
        } else if v == 1 {
            Ok((Term::One, i + 1))
        } else {
            Err(i)
        },
        Tok::Top => Ok((Term::Top, i + 1)),
        Tok::Dup => Ok((Term::Dup, i + 1)),
        Tok::Field(f) => if f == u32::MAX {
            Err(i)
        } else if at(ts, i + 1) != Tok::Assign && at(ts, i + 1) != Tok::Eq {
            Err(i + 1)
        } else if !(at(ts, i + 2) is Num) || at(ts, i + 2)->Num_0 > 1 {
            Err(i + 2)
        } else if at(ts, i + 1) == Tok::Assign {
            Ok((Term::Assign(f, at(ts, i + 2)->Num_0 == 1), i + 3))
        } else {
            Ok((Term::Test(f, at(ts, i + 2)->Num_0 == 1), i + 3))
        },
        Tok::Bits => match range_at(ts, i) {
            Err(j) => Err(j),
            Ok(((a, b), j)) => if at(ts, j) == Tok::Tilde {
                match pattern_at(ts, j + 1) {
                    Ok((p, k)) => Ok((Term::BitRangeMatch(a, b, p), k)),
                    Err(k) => Err(k),
                }
            } else if at(ts, j) != Tok::Assign && at(ts, j) != Tok::Eq {
                Err(j)
            } else {
                match bits_for(at(ts, j + 1), (b - a) as nat) {
                    None => Err(j + 1),
                    Some(v) => if at(ts, j) == Tok::Assign {
                        Ok((Term::BitRangeAssign(a, b, v), j + 2))
                    } else {
                        Ok((Term::BitRangeTest(a, b, v), j + 2))
                    },
                }
            },
        },
        Tok::Ident(x) => if at(ts, i + 1) == Tok::Tilde {
            match pattern_at(ts, i + 2) {
                Ok((p, k)) => Ok((Term::VarMatch(x, p), k)),
                Err(k) => Err(k),
            }
        } else if at(ts, i + 1) == Tok::Assign {
            match value_bits(at(ts, i + 2)) {
                Some(v) => Ok((Term::VarAssign(x, v), i + 3)),
                None => Err(i + 2),
            }
        } else if at(ts, i + 1) == Tok::Eq && value_bits(at(ts, i + 2)) is Some {
            Ok((Term::VarTest(x, value_bits(at(ts, i + 2))->Some_0), i + 3))
        } else {
            Ok((Term::Var(x), i + 1))
        },
        _ => Err(i),
    }
}

/// The operators of a level, from the loosest.
pub open spec fn operator(t: Tok, level: nat) -> bool {
    if level == 1 {
        t == Tok::Semi
    } else if level == 2 {
        t == Tok::Plus || t == Tok::Minus || t == Tok::Caret
    } else {
        level == 3 && t == Tok::Amp
    }
}

/// What an operator makes of two expressions.
pub open spec fn combined(t: Tok, a: Term, b: Term) -> Term {
    match t {
        Tok::Plus => Term::Union(Box::new(a), Box::new(b)),
        Tok::Minus => Term::Difference(Box::new(a), Box::new(b)),
        Tok::Caret => Term::Xor(Box::new(a), Box::new(b)),
        Tok::Amp => Term::Intersect(Box::new(a), Box::new(b)),
        _ => Term::Sequence(Box::new(a), Box::new(b)),
    }
}

/// The stars that follow an expression.
pub open spec fn starred(ts: Seq<Tok>, i: int, a: Term) -> (Term, int)
    decreases ts.len() - i,
{
    if 0 <= i < ts.len() && ts[i] == Tok::Star {
        starred(ts, i + 1, Term::Star(Box::new(a)))
    } else {
        (a, i)
    }
}

/// The expression of a level at `i`: 0 for `U`, then the other operators, and 4 for
/// what has none outside of brackets.
pub open spec fn expr_at(ts: Seq<Tok>, i: int, level: nat) -> Reading<Term>
    decreases ts.len() - i, 8 - level,
{
    if i < 0 || i >= ts.len() || level > 4 {
        Err(i)
    } else if level == 0 {
        match expr_at(ts, i, 1) {
            Err(j) => Err(j),
            Ok((a, j)) => if at(ts, j) == Tok::LtlUntil && i < j {
                match expr_at(ts, j + 1, 0) {
                    Err(k) => Err(k),
                    Ok((b, k)) => Ok((Term::LtlUntil(Box::new(a), Box::new(b)), k)),
                }
            } else {
                Ok((a, j))
            },
        }
    } else if level < 4 {
        match expr_at(ts, i, level + 1) {
            Err(j) => Err(j),
            Ok((a, j)) => if i < j <= ts.len() {
                rest_at(ts, j, level, a)
            } else {
                Err(j)
            },
        }
    } else {
        match ts[i] {
            Tok::Tilde => match expr_at(ts, i + 1, 4) {
                Ok((a, j)) => Ok((Term::Complement(Box::new(a)), j)),
                Err(j) => Err(j),
            },
            Tok::Bang => match expr_at(ts, i + 1, 4) {
                Ok((a, j)) => Ok((Term::TestNegation(Box::new(a)), j)),
                Err(j) => Err(j),
            },
            Tok::LtlNext => match expr_at(ts, i + 1, 4) {
                Ok((a, j)) => Ok((Term::LtlNext(Box::new(a)), j)),
                Err(j) => Err(j),
            },
            Tok::LParen => match expr_at(ts, i + 1, 0) {
                Err(j) => Err(j),
                Ok((a, j)) => if at(ts, j) == Tok::RParen {
                    Ok(starred(ts, j + 1, a))
                } else {
                    Err(j)
                },
            },
            Tok::If => match expr_at(ts, i + 1, 0) {
                Err(j) => Err(j),
                Ok((a, j)) => if at(ts, j) != Tok::Then || j <= i {
                    Err(j)
                } else {
                    match expr_at(ts, j + 1, 0) {
                        Err(k) => Err(k),
                        Ok((b, k)) => if at(ts, k) != Tok::Else || k <= i {
                            Err(k)
                        } else {
                            match expr_at(ts, k + 1, 0) {
                                Err(l) => Err(l),
                                Ok((c, l)) => Ok(
                                    (
                                        Term::IfThenElse(Box::new(a), Box::new(b), Box::new(c)),
                                        l,
                                    ),
                                ),
                            }
                        },
                    }
                },
            },
            Tok::Let => if !(at(ts, i + 1) is Ident) {
                Err(i + 1)
            } else if at(ts, i + 2) != Tok::Eq {
                Err(i + 2)
            } else if at(ts, i + 3) == Tok::Amp {
                match range_at(ts, i + 4) {
                    Err(j) => Err(j),
                    Ok(((a, b), j)) => if at(ts, j) != Tok::In || j <= i {
                        Err(j)
                    } else {
                        match expr_at(ts, j + 1, 0) {
                            Err(k) => Err(k),
                            Ok((c, k)) => Ok(
                                (
                                    Term::LetBitRange(
                                        at(ts, i + 1)->Ident_0,
                                        a,
                                        b,
                                        Box::new(c),
                                    ),
                                    k,
                                ),
                            ),
                        }
                    },
                }
            } else {
                match expr_at(ts, i + 3, 0) {
                    Err(j) => Err(j),
                    Ok((a, j)) => if at(ts, j) != Tok::In || j <= i {
                        Err(j)
                    } else {
                        match expr_at(ts, j + 1, 0) {
                            Err(k) => Err(k),
                            Ok((c, k)) => Ok(
                                (
                                    Term::Let(at(ts, i + 1)->Ident_0, Box::new(a), Box::new(c)),
                                    k,
                                ),
                            ),
                        }
                    },
                }
            },
            _ => match leaf_at(ts, i) {
                Ok((a, j)) => Ok(starred(ts, j, a)),
                Err(j) => Err(j),
            },
        }
    }
}

/// What follows an expression at a level whose operators bind to the left.
pub open spec fn rest_at(ts: Seq<Tok>, j: int, level: nat, a: Term) -> Reading<Term>
    decreases ts.len() - j, 0nat,
{
    if 0 <= j < ts.len() && operator(ts[j], level) && 1 <= level < 4 {
        match expr_at(ts, j + 1, level + 1) {
            Err(k) => Err(k),
            Ok((b, k)) => if j < k <= ts.len() {
                rest_at(ts, k, level, combined(ts[j], a, b))
            } else {
                Err(k)
            },
        }
    } else {
        Ok((a, j))
    }
}

/// The kinds of the tokens.
pub open spec fn toks(ts: Seq<Token>) -> Seq<Tok> {
    ts.map_values(|t: Token| t.kind@)
}

impl TokenKind {
    /// The same token.
    pub fn copy(&self) -> (r: TokenKind)
        ensures
            r@ == self@,
    {
        match self {
            TokenKind::Ident(x) => TokenKind::Ident(copy_text(x)),
            TokenKind::Field(f) => TokenKind::Field(*f),
            TokenKind::Num(n) => TokenKind::Num(*n),
            TokenKind::Lit(b) => TokenKind::Lit(copy_bits(b)),
            TokenKind::Bits => TokenKind::Bits,
            TokenKind::Top => TokenKind::Top,
            TokenKind::LtlNext => TokenKind::LtlNext,
            TokenKind::LtlUntil => TokenKind::LtlUntil,
            TokenKind::Dup => TokenKind::Dup,
            TokenKind::If => TokenKind::If,
            TokenKind::Then => TokenKind::Then,
            TokenKind::Else => TokenKind::Else,
            TokenKind::Let => TokenKind::Let,
            TokenKind::In => TokenKind::In,
            TokenKind::Mask => TokenKind::Mask,
            TokenKind::Hole => TokenKind::Hole,
            TokenKind::Def => TokenKind::Def,
            TokenKind::Plus => TokenKind::Plus,
            TokenKind::Amp => TokenKind::Amp,
            TokenKind::Caret => TokenKind::Caret,
            TokenKind::Minus => TokenKind::Minus,
            TokenKind::Semi => TokenKind::Semi,
            TokenKind::Star => TokenKind::Star,
            TokenKind::Tilde => TokenKind::Tilde,
            TokenKind::Bang => TokenKind::Bang,
            TokenKind::Slash => TokenKind::Slash,
            TokenKind::LParen => TokenKind::LParen,
            TokenKind::RParen => TokenKind::RParen,
            TokenKind::LBracket => TokenKind::LBracket,
            TokenKind::RBracket => TokenKind::RBracket,
            TokenKind::DotDot => TokenKind::DotDot,
            TokenKind::Assign => TokenKind::Assign,
            TokenKind::Eq => TokenKind::Eq,
            TokenKind::Lte => TokenKind::Lte,
            TokenKind::Eof => TokenKind::Eof,
        }
    }
}

/// The token at an index.
fn peek(ts: &Vec<Token>, i: usize) -> (k: TokenKind)
    ensures
        k@ == at(toks(ts@), i as int),
{
    if i < ts.len() {
        ts[i].kind.copy()
    } else {
        TokenKind::Eof
    }
}

/// The bits of a literal.
fn literal(k: TokenKind) -> (r: Option<Vec<bool>>)
    ensures
        match r {
            Some(b) => value_bits(k@) == Some(b@),
            None => value_bits(k@) is None,
        },
{
    match k {
        TokenKind::Num(v) => Some(bits_of_number(v)),
        TokenKind::Lit(b) => Some(b),
        _ => None,
    }
}

/// The bits with zeros above.
fn pad(b: Vec<bool>, width: usize) -> (r: Vec<bool>)
    ensures
        r@ == padded(b@, width as nat),
{
    let ghost b0 = b@;
    let mut r = b;
    while r.len() < width
        invariant
            b0.len() <= r@.len(),
            b0.len() < width ==> r@.len() <= width,
            b0.len() >= width ==> r@ == b0,
            r@ == b0 + Seq::new((r@.len() - b0.len()) as nat, |i: int| false),
        decreases width - r.len(),
    {
        let ghost r0 = r@;
        r.push(false);
        proof {
            assert(r@ =~= b0 + Seq::new((r@.len() - b0.len()) as nat, |i: int| false));
        }
    }
    proof {
        assert(r@ =~= padded(b0, width as nat));
    }
    r
}

/// The bits of a literal for a range of the width.
fn literal_for(k: TokenKind, width: usize) -> (r: Option<Vec<bool>>)
    ensures
        match r {
            Some(b) => bits_for(k@, width as nat) == Some(b@),
            None => bits_for(k@, width as nat) is None,
        },
{
    match k {
        TokenKind::Num(v) => Some(pad(bits_of_number(v), width)),
        TokenKind::Lit(b) => Some(b),
        _ => None,
    }
}

/// `x[a..b]`.
fn parse_range(ts: &Vec<Token>, i: usize) -> (r: Result<(u32, u32, usize), usize>)
    requires
        i + 16 <= usize::MAX,
    ensures
        match r {
            Ok((a, b, j)) => range_at(toks(ts@), i as int) == Ok::<((u32, u32), int), int>(
                ((a, b), j as int),
            ) && a <= b && j == i + 6 && j <= ts@.len(),
            Err(j) => range_at(toks(ts@), i as int) == Err::<((u32, u32), int), int>(j as int) && i
                <= j <= i + 5,
        },
{
    match peek(ts, i) {
        TokenKind::Bits => {},
        _ => {
            return Err(i);
        },
    }
    match peek(ts, i + 1) {
        TokenKind::LBracket => {},
        _ => {
            return Err(i + 1);
        },
    }
    let a: u64 = match peek(ts, i + 2) {
        TokenKind::Num(a) => a,
        _ => {
            return Err(i + 2);
        },
    };
    match peek(ts, i + 3) {
        TokenKind::DotDot => {},
        _ => {
            return Err(i + 3);
        },
    }
    let b: u64 = match peek(ts, i + 4) {
        TokenKind::Num(b) => b,
        _ => {
            return Err(i + 4);
        },
    };
    if b > 4_294_967_295 || a > b {
        return Err(i + 4);
    }
    match peek(ts, i + 5) {
        TokenKind::RBracket => {},
        _ => {
            return Err(i + 5);
        },
    }
    Ok((a as u32, b as u32, i + 6))
}

/// A pattern.
fn parse_pattern(ts: &Vec<Token>, i: usize) -> (r: Result<(Pattern, usize), usize>)
    requires
        i + 16 <= usize::MAX,
    ensures
        match r {
            Ok((p, j)) => pattern_at(toks(ts@), i as int) == Ok::<(Pat, int), int>((p@, j as int))
                && i < j <= ts@.len(),
            Err(j) => pattern_at(toks(ts@), i as int) == Err::<(Pat, int), int>(j as int) && i <= j
                <= i + 2,
        },
{
    let b = match literal(peek(ts, i)) {
        Some(b) => b,
        None => {
            return Err(i);
        },
    };
    match peek(ts, i + 1) {
        TokenKind::Slash => match peek(ts, i + 2) {
            TokenKind::Num(n) => if n <= 4_294_967_295 {
                Ok((Pattern::Cidr { address: b, prefix_len: n as usize }, i + 3))
            } else {
                Err(i + 2)
            },
            _ => Err(i + 2),
        },
        TokenKind::Mask => match literal(peek(ts, i + 2)) {
            Some(m) => Ok((Pattern::Wildcard { address: b, mask: m }, i + 3)),
            None => Err(i + 2),
        },
        TokenKind::Minus => match literal(peek(ts, i + 2)) {
            Some(c) => {
                let bl: usize = b.len();
                let cl: usize = c.len();
                Ok((Pattern::IpRange { start: pad(b, cl), end: pad(c, bl) }, i + 3))
            },
            None => Ok((Pattern::Exact(b), i + 1)),
        },
        _ => Ok((Pattern::Exact(b), i + 1)),
    }
}

/// The reading of an expression.
pub open spec fn reads(r: Result<(Exp, usize), usize>, s: Reading<Term>) -> bool {
    match r {
        Ok((e, j)) => s == Ok::<(Term, int), int>((e@, j as int)),
        Err(j) => s == Err::<(Term, int), int>(j as int),
    }
}

/// What can be read: no range is reversed, fields have 32 bits, and there are no holes.
pub open spec fn well_read(t: Term) -> bool {
    ranges_ok(t) && bounded(t, u32::MAX as nat, 0)
}

/// What begins with a field, a range or a name.
fn parse_leaf(ts: &Vec<Token>, i: usize) -> (r: Result<(Exp, usize), usize>)
    requires
        i < ts@.len(),
        ts@.len() + 32 <= usize::MAX,
    ensures
        reads(r, leaf_at(toks(ts@), i as int)),
        r matches Ok((e, j)) ==> i < j <= ts@.len() && well_read(e@),
        r matches Err(j) ==> j <= ts@.len() + 16,
{
    match peek(ts, i) {
        TokenKind::Num(v) => if v == 0 {
            Ok((Expr::zero(), i + 1))
        } else if v == 1 {
            Ok((Expr::one(), i + 1))
        } else {
            Err(i)
        },
        TokenKind::Top => Ok((Expr::top(), i + 1)),
        TokenKind::Dup => Ok((Expr::dup(), i + 1)),
        TokenKind::Field(f) => {
            if f == u32::MAX {
                return Err(i);
            }
            let sets: bool = match peek(ts, i + 1) {
                TokenKind::Assign => true,
                TokenKind::Eq => false,
                _ => {
                    return Err(i + 1);
                },
            };
            match peek(ts, i + 2) {
                TokenKind::Num(v) => if v > 1 {
                    Err(i + 2)
                } else if sets {
                    Ok((Expr::assign(f, v == 1), i + 3))
                } else {
                    Ok((Expr::test(f, v == 1), i + 3))
                },
                _ => Err(i + 2),
            }
        },
        TokenKind::Bits => {
            let (a, b, j) = match parse_range(ts, i) {
                Ok(x) => x,
                Err(j) => {
                    return Err(j);
                },
            };
            match peek(ts, j) {
                TokenKind::Tilde => match parse_pattern(ts, j + 1) {
                    Ok((p, k)) => Ok((Expr::bit_range_match(a, b, p), k)),
                    Err(k) => Err(k),
                },
                TokenKind::Assign => match literal_for(peek(ts, j + 1), (b - a) as usize) {
                    Some(v) => Ok((Expr::bit_range_assign(a, b, v), j + 2)),
                    None => Err(j + 1),
                },
                TokenKind::Eq => match literal_for(peek(ts, j + 1), (b - a) as usize) {
                    Some(v) => Ok((Expr::bit_range_test(a, b, v), j + 2)),
                    None => Err(j + 1),
                },
                _ => Err(j),
            }
        },
        TokenKind::Ident(x) => match peek(ts, i + 1) {
            TokenKind::Tilde => match parse_pattern(ts, i + 2) {
                Ok((p, k)) => Ok((Expr::var_match(x, p), k)),
                Err(k) => Err(k),
            },
            TokenKind::Assign => match literal(peek(ts, i + 2)) {
                Some(v) => Ok((Expr::var_assign(x, v), i + 3)),
                None => Err(i + 2),
            },
            TokenKind::Eq => match literal(peek(ts, i + 2)) {
                Some(v) => Ok((Expr::var_test(x, v), i + 3)),
                None => Ok((Expr::var(x), i + 1)),
            },
            _ => Ok((Expr::var(x), i + 1)),
        },
        _ => Err(i),
    }
}

/// The stars that follow an expression.
#[verifier::loop_isolation(false)]
fn parse_stars(ts: &Vec<Token>, i: usize, a: Exp) -> (r: (Exp, usize))
    requires
        i <= ts@.len(),
        well_read(a@),
    ensures
        starred(toks(ts@), i as int, a@) == (r.0@, r.1 as int),
        i <= r.1 <= ts@.len(),
        well_read(r.0@),
{
    let ghost t = toks(ts@);
    let ghost a0 = a@;
    let mut a = a;
    let mut j: usize = i;
    loop
        invariant
            t == toks(ts@),
            i <= j <= ts@.len(),
            starred(t, j as int, a@) == starred(t, i as int, a0),
            well_read(a@),
        decreases ts.len() - j,
    {
        match peek(ts, j) {
            TokenKind::Star => {
                a = Expr::star(a);
                j = j + 1;
            },
            _ => {
                return (a, j);
            },
        }
    }
}

/// The operator of a token, at a level.
fn is_operator(k: &TokenKind, level: u8) -> (b: bool)
    ensures
        b == operator(k@, level as nat),
{
    match k {
        TokenKind::Semi => level == 1,
        TokenKind::Plus => level == 2,
        TokenKind::Minus => level == 2,
        TokenKind::Caret => level == 2,
        TokenKind::Amp => level == 3,
        _ => false,
    }
}

/// What an operator makes of two expressions.
fn combine(k: &TokenKind, a: Exp, b: Exp) -> (r: Exp)
    requires
        well_read(a@),
        well_read(b@),
    ensures
        r@ == combined(k@, a@, b@),
        well_read(r@),
{
    match k {
        TokenKind::Plus => Expr::union(a, b),
        TokenKind::Minus => Expr::difference(a, b),
        TokenKind::Caret => Expr::xor(a, b),
        TokenKind::Amp => Expr::intersect(a, b),
        _ => Expr::sequence(a, b),
    }
}

/// The expression of a level.
fn parse_level(ts: &Vec<Token>, i: usize, level: u8) -> (r: Result<(Exp, usize), usize>)
    requires
        i <= ts@.len(),
        level <= 4,
        ts@.len() + 32 <= usize::MAX,
    ensures
        reads(r, expr_at(toks(ts@), i as int, level as nat)),
        r matches Ok((e, j)) ==> i < j <= ts@.len() && well_read(e@),
        r matches Err(j) ==> j <= ts@.len() + 16,
    decreases ts@.len() - i, 8 - level,
{
    let ghost t = toks(ts@);
    if i >= ts.len() {
        return Err(i);
    }
    if level == 0 {
        let (a, j) = match parse_level(ts, i, 1) {
            Ok(x) => x,
            Err(j) => {
                return Err(j);
            },
        };
        match peek(ts, j) {
            TokenKind::LtlUntil => match parse_level(ts, j + 1, 0) {
                Ok((b, k)) => Ok((Expr::ltl_until(a, b), k)),
                Err(k) => Err(k),
            },
            _ => Ok((a, j)),
        }
    } else if level < 4 {
        let (a0, j0) = match parse_level(ts, i, level + 1) {
            Ok(x) => x,
            Err(j) => {
                return Err(j);
            },
        };
        let mut a: Exp = a0;
        let mut j: usize = j0;
        loop
            invariant
                t == toks(ts@),
                ts@.len() + 32 <= usize::MAX,
                1 <= level < 4,
                i < j <= ts@.len(),
                well_read(a@),
                rest_at(t, j as int, level as nat, a@) == expr_at(t, i as int, level as nat),
            decreases ts@.len() - j,
        {
            let k = peek(ts, j);
            if !is_operator(&k, level) {
                return Ok((a, j));
            }
            match parse_level(ts, j + 1, level + 1) {
                Ok((b, l)) => {
                    a = combine(&k, a, b);
                    j = l;
                },
                Err(l) => {
                    return Err(l);
                },
            }
        }
    } else {
        match peek(ts, i) {
            TokenKind::Tilde => match parse_level(ts, i + 1, 4) {
                Ok((a, j)) => Ok((Expr::complement(a), j)),
                Err(j) => Err(j),
            },
            TokenKind::Bang => match parse_level(ts, i + 1, 4) {
                Ok((a, j)) => Ok((Expr::test_negation(a), j)),
                Err(j) => Err(j),
            },
            TokenKind::LtlNext => match parse_level(ts, i + 1, 4) {
                Ok((a, j)) => Ok((Expr::ltl_next(a), j)),
                Err(j) => Err(j),
            },
            TokenKind::LParen => match parse_level(ts, i + 1, 0) {
                Ok((a, j)) => match peek(ts, j) {
                    TokenKind::RParen => Ok(parse_stars(ts, j + 1, a)),
                    _ => Err(j),
                },
                Err(j) => Err(j),
            },
            TokenKind::If => {
                let (a, j) = match parse_level(ts, i + 1, 0) {
                    Ok(x) => x,
                    Err(j) => {
                        return Err(j);
                    },
                };
                match peek(ts, j) {
                    TokenKind::Then => {},
                    _ => {
                        return Err(j);
                    },
                }
                let (b, k) = match parse_level(ts, j + 1, 0) {
                    Ok(x) => x,
                    Err(k) => {
                        return Err(k);
                    },
                };
                match peek(ts, k) {
                    TokenKind::Else => {},
                    _ => {
                        return Err(k);
                    },
                }
                match parse_level(ts, k + 1, 0) {
                    Ok((c, l)) => Ok((Expr::if_then_else(a, b, c), l)),
                    Err(l) => Err(l),
                }
            },
            TokenKind::Let => parse_let(ts, i),
            _ => match parse_leaf(ts, i) {
                Ok((a, j)) => Ok(parse_stars(ts, j, a)),
                Err(j) => Err(j),
            },
        }
    }
}

/// A binding, and the expression in which it holds.
fn parse_let(ts: &Vec<Token>, i: usize) -> (r: Result<(Exp, usize), usize>)
    requires
        i < ts@.len(),
        at(toks(ts@), i as int) == Tok::Let,
        ts@.len() + 32 <= usize::MAX,
    ensures
        reads(r, expr_at(toks(ts@), i as int, 4)),
        r matches Ok((e, j)) ==> i < j <= ts@.len() && well_read(e@),
        r matches Err(j) ==> j <= ts@.len() + 16,
    decreases ts@.len() - i, 1int,
{
    let ghost t = toks(ts@);
    let x = match peek(ts, i + 1) {
        TokenKind::Ident(x) => x,
        _ => {
            return Err(i + 1);
        },
    };
    match peek(ts, i + 2) {
        TokenKind::Eq => {},
        _ => {
            return Err(i + 2);
        },
    }
    assert(i + 3 <= ts@.len());
    match peek(ts, i + 3) {
        TokenKind::Amp => {
            let (a, b, j) = match parse_range(ts, i + 4) {
                Ok(y) => y,
                Err(j) => {
                    return Err(j);
                },
            };
            match peek(ts, j) {
                TokenKind::In => {},
                _ => {
                    return Err(j);
                },
            }
            match parse_level(ts, j + 1, 0) {
                Ok((c, k)) => Ok((Expr::let_bit_range(x, a, b, c), k)),
                Err(k) => Err(k),
            }
        },
        _ => {
            let (a, j) = match parse_level(ts, i + 3, 0) {
                Ok(y) => y,
                Err(j) => {
                    return Err(j);
                },
            };
            match peek(ts, j) {
                TokenKind::In => {},
                _ => {
                    return Err(j);
                },
            }
            match parse_level(ts, j + 1, 0) {
                Ok((c, k)) => Ok((Expr::let_in(x, a, c), k)),
                Err(k) => Err(k),
            }
        },
    }
}

// ---- reading texts -----------------------------------------------------------------------------

/// There is at most one token for each character, and the end; each is a part of the
/// text.
proof fn lemma_tokens(s: Seq<char>, i: int)
    requires
        0 <= i <= s.len() <= usize::MAX,
    ensures
        tokens_from(s, i) matches Ok(ts) ==> 1 <= ts.len() <= s.len() - i + 1 && forall|j: int|
            0 <= j < ts.len() ==> (#[trigger] ts[j]).1.start <= ts[j].1.end <= s.len(),
    decreases s.len() - i,
{
    let j = skip_blank(s, i);
    if !(j < i || j >= s.len()) {
        if let Some((t, k)) = token_at(s, j) {
            if j < k && k <= s.len() {
                lemma_tokens(s, k);
            }
        }
    }
}

/// The part of the text at which a token stands; the end where there is none.
pub open spec fn span_at(ts: Seq<(Tok, Span)>, len: nat, i: int) -> Span {
    if 0 <= i < ts.len() {
        ts[i].1
    } else {
        Span { start: len as usize, end: len as usize }
    }
}

/// What is said of a part of the text that does not fit.
pub open spec fn unexpected(s: Seq<char>, at: Span) -> Seq<char> {
    if at.start == at.end {
        "Unexpected end of input"@
    } else {
        "Unexpected `"@ + s.subrange(at.start as int, at.end as int) + "`"@
    }
}

/// The text at a part of it.
pub(crate) fn text_at(input: &str, at: Span) -> (r: &str)
    requires
        at.start <= at.end <= input@.len(),
    ensures
        r@ == input@.subrange(at.start as int, at.end as int),
{
    input.substring_char(at.start, at.end)
}

fn unexpected_at(input: &str, at: Span) -> (e: ParseError)
    requires
        at.start <= at.end <= input@.len(),
    ensures
        e.message@ == unexpected(input@, at),
        e.span == at,
{
    let message = if at.start == at.end {
        String::from_str("Unexpected end of input")
    } else {
        join3("Unexpected `", text_at(input, at), "`")
    };
    ParseError { message, span: at }
}

/// The kinds of tokens.
pub open spec fn only_toks(ts: Seq<(Tok, Span)>) -> Seq<Tok> {
    ts.map_values(|t: (Tok, Span)| t.0)
}

/// A text that is read from the front.
pub struct Parser<'s> {
    pub input: &'s str,
    pub tokens: Vec<Token>,
    pub pos: usize,
}

impl<'s> Parser<'s> {
    /// The tokens are those of the text.
    pub open spec fn wf(&self) -> bool {
        &&& self.input@.len() + 64 <= usize::MAX
        &&& tokens_from(self.input@, 0) == Ok::<Seq<(Tok, Span)>, int>(kinds(self.tokens@))
        &&& self.pos <= self.tokens@.len()
    }

    /// The tokens as mathematical values.
    pub open spec fn toks(&self) -> Seq<Tok> {
        toks(self.tokens@)
    }

    /// The token that is next.
    pub open spec fn next(&self) -> Tok {
        at(self.toks(), self.pos as int)
    }

    /// Where the next token stands.
    pub open spec fn here(&self) -> Span {
        span_at(kinds(self.tokens@), self.input@.len(), self.pos as int)
    }

    /// A text from its beginning.
    pub fn new(lexer: Lexer<'s>) -> (r: Result<Parser<'s>, ParseError>)
        requires
            lexer.input@.len() + 64 <= usize::MAX,
        ensures
            match r {
                Ok(p) => p.wf() && p.pos == 0 && p.input == lexer.input,
                Err(e) => tokens_from(lexer.input@, 0) == Err::<Seq<(Tok, Span)>, int>(
                    e.span.start as int,
                ) && e.span.end == e.span.start + 1 && e.message@ == unexpected(
                    lexer.input@,
                    e.span,
                ),
            },
    {
        match lexer.tokens() {
            Ok(tokens) => Ok(Parser { input: lexer.input, tokens, pos: 0 }),
            Err(j) => Err(unexpected_at(lexer.input, Span { start: j, end: j + 1 })),
        }
    }

    /// Where a token stands.
    fn span(&self, j: usize) -> (r: Span)
        requires
            self.wf(),
        ensures
            r == span_at(kinds(self.tokens@), self.input@.len(), j as int),
            r.start <= r.end <= self.input@.len(),
    {
        let n: usize = self.input.unicode_len();
        proof {
            lemma_tokens(self.input@, 0);
        }
        if j < self.tokens.len() {
            assert(kinds(self.tokens@)[j as int].1 == self.tokens@[j as int].span);
            self.tokens[j].span
        } else {
            Span { start: n, end: n }
        }
    }

    /// The next token, which stays.
    pub fn peek_cloned(&self) -> (t: Token)
        requires
            self.wf(),
        ensures
            t.kind@ == self.next(),
            t.span == self.here(),
            t.span.start <= t.span.end <= self.input@.len(),
    {
        Token { kind: peek(&self.tokens, self.pos), span: self.span(self.pos) }
    }

    /// The next token, which is read.
    pub fn advance(&mut self) -> (t: Token)
        requires
            old(self).wf(),
        ensures
            final(self).wf(),
            final(self).input == old(self).input,
            final(self).tokens == old(self).tokens,
            t.kind@ == old(self).next(),
            t.span == old(self).here(),
            t.span.start <= t.span.end <= old(self).input@.len(),
            final(self).pos == (if old(self).pos < old(self).tokens@.len() {
                old(self).pos + 1
            } else {
                old(self).pos as int
            }),
    {
        let t = self.peek_cloned();
        if self.pos < self.tokens.len() {
            self.pos = self.pos + 1;
        }
        t
    }

    /// The expression that is next, which is read.  A text that is none is read no
    /// further.
    pub fn parse_single_expression(&mut self) -> (r: Result<Exp, ParseError>)
        requires
            old(self).wf(),
        ensures
            final(self).wf(),
            final(self).input == old(self).input,
            final(self).tokens == old(self).tokens,
            match r {
                Ok(e) => expr_at(old(self).toks(), old(self).pos as int, 0) == Ok::<
                    (Term, int),
                    int,
                >((e@, final(self).pos as int)) && final(self).pos > old(self).pos
                    && well_read(e@),
                Err(e) => exists|j: int| #[trigger]
                    fails_at(old(self).toks(), old(self).pos as int, j) && e.span == span_at(
                        kinds(old(self).tokens@),
                        old(self).input@.len(),
                        j,
                    ) && e.message@ == unexpected(old(self).input@, e.span),
            },
    {
        proof {
            lemma_tokens(self.input@, 0);
        }
        match parse_level(&self.tokens, self.pos, 0) {
            Ok((e, j)) => {
                self.pos = j;
                Ok(e)
            },
            Err(j) => {
                assert(fails_at(self.toks(), self.pos as int, j as int));
                Err(unexpected_at(self.input, self.span(j)))
            },
        }
    }
}

/// The expression at `i` fails at token `j`.
pub open spec fn fails_at(ts: Seq<Tok>, i: int, j: int) -> bool {
    expr_at(ts, i, 0) == Err::<(Term, int), int>(j)
}

/// The expressions from token `i` on, one after the other, up to the end.
pub open spec fn exprs_from(ts: Seq<Tok>, i: int) -> Result<Seq<Term>, int>
    decreases ts.len() - i,
{
    if at(ts, i) == Tok::Eof {
        Ok(Seq::empty())
    } else {
        match expr_at(ts, i, 0) {
            Err(j) => Err(j),
            Ok((a, j)) => if i < j <= ts.len() && 0 <= i {
                match exprs_from(ts, j) {
                    Ok(es) => Ok(seq![a] + es),
                    Err(k) => Err(k),
                }
            } else {
                Err(j)
            },
        }
    }
}

/// The expressions of a text, or where it is none.
pub open spec fn text_exprs(s: Seq<char>) -> Result<Seq<Term>, Span> {
    match tokens_from(s, 0) {
        Err(j) => Err(Span { start: j as usize, end: (j + 1) as usize }),
        Ok(ts) => match exprs_from(only_toks(ts), 0) {
            Ok(es) => Ok(es),
            Err(j) => Err(span_at(ts, s.len(), j)),
        },
    }
}

/// The terms of expressions.
pub open spec fn terms(es: Seq<Exp>) -> Seq<Term> {
    es.map_values(|e: Exp| e@)
}

/// The expressions of a text, one after the other.  The error says where the text
/// is none.
pub fn parse_expressions(input: &str) -> (r: Result<Vec<Exp>, ParseErrorDetails>)
    requires
        input@.len() + 64 <= usize::MAX,
    ensures
        match r {
            Ok(es) => text_exprs(input@) == Ok::<Seq<Term>, Span>(terms(es@)) && forall|i: int|
                0 <= i < es@.len() ==> well_read((#[trigger] es@[i])@),
            Err(e) => text_exprs(input@) is Err && e.span == Some(text_exprs(input@)->Err_0)
                && e.message@ == unexpected(input@, text_exprs(input@)->Err_0),
        },
{
    let mut parser = match Parser::new(Lexer::new(input)) {
        Ok(p) => p,
        Err(e) => {
            return Err(ParseErrorDetails { message: e.message, span: Some(e.span) });
        },
    };
    let ghost ts = kinds(parser.tokens@);
    let ghost t = only_toks(ts);
    let mut out: Vec<Exp> = Vec::new();
    proof {
        assert(parser.toks() =~= t);
        if let Ok(rest) = exprs_from(t, 0) {
            assert(terms(out@) + rest =~= rest);
        }
    }
    loop
        invariant
            parser.wf(),
            parser.input == input,
            ts == kinds(parser.tokens@),
            t == only_toks(ts),
            parser.toks() == t,
            t.len() == parser.tokens@.len(),
            tokens_from(input@, 0) == Ok::<Seq<(Tok, Span)>, int>(ts),
            forall|i: int| 0 <= i < out@.len() ==> well_read((#[trigger] out@[i])@),
            exprs_from(t, 0) == (match exprs_from(t, parser.pos as int) {
                Ok(rest) => Ok::<Seq<Term>, int>(terms(out@) + rest),
                Err(e) => Err::<Seq<Term>, int>(e),
            }),
        decreases parser.tokens@.len() - parser.pos,
    {
        let ghost p0 = parser.pos as int;
        let ghost out0 = terms(out@);
        match parser.peek_cloned().kind {
            TokenKind::Eof => {
                proof {
                    assert(out0 + Seq::<Term>::empty() =~= out0);
                }
                return Ok(out);
            },
            _ => {},
        }
        match parser.parse_single_expression() {
            Ok(e) => {
                let ghost a = e@;
                out.push(e);
                proof {
                    if let Ok(rest) = exprs_from(t, parser.pos as int) {
                        assert(terms(out@) + rest =~= out0 + (seq![a] + rest));
                    }
                }
            },
            Err(e) => {
                return Err(ParseErrorDetails { message: e.message, span: Some(e.span) });
            },
        }
    }
}

} // verus!
