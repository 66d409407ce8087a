//! Reading what is written: brackets, operators and literals, expressions in text form, and
//! files.
use vstd::prelude::*;
use vstd::string::*;
use crate::desugar::{law_value_injective, value};
use crate::expr::{pat_text, range_of, text_of, Pat, Term};
use crate::holes::parser::{line_at, lines_from, text_lines, AssertOp, Fault, Line};
use crate::parser::{
    address_at, at, combined, decimal_value, digit_bits, digit_value, expr_at, exprs_from,
    in_class, is_field, leaf_at, low_bits, min_bits, number_at, only_toks, operator, padded,
    pattern_at, point_at, range_at, rest_at, run_end, skip_blank, starred, symbol_at, text_exprs,
    token_at, tokens_from, value_bits, word_token, Class, Span, Tok,
};
use crate::text::{bit_digits, decimal, digit};

verus! {

/// The text is that of one expression.
pub open spec fn reads_as(s: Seq<char>, x: Term) -> bool {
    text_exprs(s) == Ok::<Seq<Term>, Span>(seq![x])
}

/// The text in brackets.  The line ends before the closing one, and a comment with it.
pub open spec fn bracketed(s: Seq<char>) -> Seq<char> {
    seq!['('] + s + seq!['\n', ')']
}

// ---- texts in texts ----------------------------------------------------------------------------

/// The text `a` stands at `o` in the text `s`, and the line ends after it.
spec fn holds_text(s: Seq<char>, a: Seq<char>, o: int) -> bool {
    &&& 0 <= o
    &&& o + a.len() < s.len()
    &&& s[o + a.len()] == '\n'
    &&& forall|j: int| 0 <= j < a.len() ==> s[o + j] == #[trigger] a[j]
}

proof fn lemma_run_range(s: Seq<char>, i: int, k: Class)
    requires
        0 <= i <= s.len(),
    ensures
        i <= run_end(s, i, k) <= s.len(),
        i < s.len() && in_class(s[i], k) ==> i < run_end(s, i, k),
    decreases s.len() - i,
{
    if i < s.len() && in_class(s[i], k) {
        lemma_run_range(s, i + 1, k);
    }
}

proof fn lemma_skip_range(s: Seq<char>, i: int)
    requires
        0 <= i <= s.len(),
    ensures
        i <= skip_blank(s, i) <= s.len(),
    decreases s.len() - i,
{
    let j = run_end(s, i, Class::Space);
    lemma_run_range(s, i, Class::Space);
    if j + 1 < s.len() && s[j] == '/' && s[j + 1] == '/' {
        lemma_run_range(s, j + 2, Class::Line);
        lemma_skip_range(s, run_end(s, j + 2, Class::Line));
    }
}

/// A run of characters in a text within a text.
proof fn lemma_run_in(s: Seq<char>, a: Seq<char>, o: int, i: int, k: Class)
    requires
        holds_text(s, a, o),
        0 <= i <= a.len(),
    ensures
        k != Class::Space ==> run_end(s, o + i, k) == o + run_end(a, i, k),
        k == Class::Space ==> if run_end(a, i, k) < a.len() {
            run_end(s, o + i, k) == o + run_end(a, i, k)
        } else {
            run_end(s, o + i, k) == run_end(s, o + a.len(), k)
        },
    decreases a.len() - i,
{
    if i < a.len() {
        assert(s[o + i] == a[i]);
        if in_class(a[i], k) {
            lemma_run_in(s, a, o, i + 1, k);
        }
    }
}

/// Blanks and comments in a text within a text.
proof fn lemma_skip_in(s: Seq<char>, a: Seq<char>, o: int, i: int)
    requires
        holds_text(s, a, o),
        0 <= i <= a.len(),
    ensures
        if skip_blank(a, i) < a.len() {
            skip_blank(s, o + i) == o + skip_blank(a, i)
        } else {
            skip_blank(s, o + i) == skip_blank(s, o + a.len())
        },
    decreases a.len() - i,
{
    let j = run_end(a, i, Class::Space);
    lemma_run_range(a, i, Class::Space);
    lemma_run_in(s, a, o, i, Class::Space);
    lemma_run_range(s, o + i, Class::Space);
    lemma_run_range(s, o + a.len(), Class::Space);
    if j < a.len() {
        assert(s[o + j] == a[j]);
        if j + 1 < a.len() {
            assert(s[o + j + 1] == a[j + 1]);
            if a[j] == '/' && a[j + 1] == '/' {
                lemma_run_range(a, j + 2, Class::Line);
                lemma_run_in(s, a, o, j + 2, Class::Line);
                let k = run_end(a, j + 2, Class::Line);
                lemma_skip_in(s, a, o, k);
                lemma_skip_range(a, k);
                assert(skip_blank(a, i) == skip_blank(a, k));
                assert(run_end(s, o + j + 2, Class::Line) == o + k);
                assert(skip_blank(s, o + i) == skip_blank(s, o + k));
            }
        }
    }
}

proof fn lemma_values_in(s: Seq<char>, a: Seq<char>, o: int, i: int, j: int, width: nat)
    requires
        holds_text(s, a, o),
        0 <= i,
        j <= a.len(),
    ensures
        decimal_value(s, o + i, o + j) == decimal_value(a, i, j),
        digit_bits(s, o + i, o + j, width) == digit_bits(a, i, j, width),
    decreases j - i,
{
    if i < j {
        lemma_values_in(s, a, o, i, j - 1, width);
        assert(s[o + (j - 1)] == a[j - 1]);
        assert(o + j - 1 == o + (j - 1));
    }
}

proof fn lemma_point_in(s: Seq<char>, a: Seq<char>, o: int, i: int)
    requires
        holds_text(s, a, o),
        0 <= i <= a.len(),
    ensures
        point_at(s, o + i) == point_at(a, i),
{
    if i < a.len() {
        assert(s[o + i] == a[i]);
        if i + 1 < a.len() {
            assert(s[o + (i + 1)] == a[i + 1]);
        }
    }
}

proof fn lemma_address_in(s: Seq<char>, a: Seq<char>, o: int, i: int)
    requires
        holds_text(s, a, o),
        0 <= i < a.len(),
        address_at(a, i) is Some,
    ensures
        address_at(s, o + i) == Some((address_at(a, i)->Some_0.0, o + address_at(a, i)->Some_0.1)),
        address_at(a, i)->Some_0.1 <= a.len(),
{
    let p = run_end(a, i, Class::Digit);
    lemma_run_range(a, i, Class::Digit);
    lemma_run_in(s, a, o, i, Class::Digit);
    lemma_point_in(s, a, o, p);
    let q = run_end(a, p + 1, Class::Digit);
    lemma_run_range(a, p + 1, Class::Digit);
    lemma_run_in(s, a, o, p + 1, Class::Digit);
    lemma_point_in(s, a, o, q);
    let r = run_end(a, q + 1, Class::Digit);
    lemma_run_range(a, q + 1, Class::Digit);
    lemma_run_in(s, a, o, q + 1, Class::Digit);
    lemma_point_in(s, a, o, r);
    let t = run_end(a, r + 1, Class::Digit);
    lemma_run_range(a, r + 1, Class::Digit);
    lemma_run_in(s, a, o, r + 1, Class::Digit);
    lemma_values_in(s, a, o, i, p, 0);
    lemma_values_in(s, a, o, p + 1, q, 0);
    lemma_values_in(s, a, o, q + 1, r, 0);
    lemma_values_in(s, a, o, r + 1, t, 0);
    assert(run_end(s, o + i, Class::Digit) == o + p);
    assert(o + p + 1 == o + (p + 1));
    assert(run_end(s, o + p + 1, Class::Digit) == o + q);
    assert(o + q + 1 == o + (q + 1));
    assert(run_end(s, o + q + 1, Class::Digit) == o + r);
    assert(o + r + 1 == o + (r + 1));
    assert(run_end(s, o + r + 1, Class::Digit) == o + t);
}

proof fn lemma_number_in(s: Seq<char>, a: Seq<char>, o: int, i: int)
    requires
        holds_text(s, a, o),
        0 <= i < a.len(),
        number_at(a, i) is Some,
    ensures
        number_at(s, o + i) == Some((number_at(a, i)->Some_0.0, o + number_at(a, i)->Some_0.1)),
{
    let j = run_end(a, i, Class::Digit);
    lemma_run_range(a, i, Class::Digit);
    lemma_run_in(s, a, o, i, Class::Digit);
    lemma_point_in(s, a, o, j);
    lemma_values_in(s, a, o, i, j, 0);
    assert(s[o + i] == a[i]);
    if i + 1 < a.len() {
        assert(s[o + (i + 1)] == a[i + 1]);
        assert(o + i + 1 == o + (i + 1));
        assert(o + i + 2 == o + (i + 2));
        if a[i] == '0' && a[i + 1] == 'b' {
            let k = run_end(a, i + 2, Class::Binary);
            lemma_run_range(a, i + 2, Class::Binary);
            lemma_run_in(s, a, o, i + 2, Class::Binary);
            lemma_values_in(s, a, o, i + 2, k, 1);
        } else if a[i] == '0' && a[i + 1] == 'x' {
            let k = run_end(a, i + 2, Class::Hex);
            lemma_run_range(a, i + 2, Class::Hex);
            lemma_run_in(s, a, o, i + 2, Class::Hex);
            lemma_values_in(s, a, o, i + 2, k, 4);
        } else if point_at(a, j) {
            lemma_address_in(s, a, o, i);
        }
    } else {
        assert(s[o + i + 1] == '\n');
        if point_at(a, j) {
            lemma_address_in(s, a, o, i);
        }
    }
}

proof fn lemma_token_in(s: Seq<char>, a: Seq<char>, o: int, i: int)
    requires
        holds_text(s, a, o),
        0 <= i < a.len(),
        token_at(a, i) is Some,
    ensures
        token_at(s, o + i) == Some((token_at(a, i)->Some_0.0, o + token_at(a, i)->Some_0.1)),
        token_at(a, i)->Some_0.0 != Tok::Eof,
{
    assert(s[o + i] == a[i]);
    if in_class(a[i], Class::Alpha) {
        let j = run_end(a, i, Class::Word);
        lemma_run_range(a, i, Class::Word);
        lemma_run_in(s, a, o, i, Class::Word);
        assert(s.subrange(o + i, o + j) =~= a.subrange(i, j)) by {
            assert forall|k: int| 0 <= k < j - i implies s.subrange(o + i, o + j)[k] == a.subrange(
                i,
                j,
            )[k] by {
                assert(s[o + (i + k)] == a[i + k]);
            }
        }
    } else if in_class(a[i], Class::Digit) {
        lemma_number_in(s, a, o, i);
    } else {
        if i + 1 < a.len() {
            assert(s[o + (i + 1)] == a[i + 1]);
        } else {
            assert(s[o + i + 1] == '\n');
        }
    }
}

/// The kinds of the tokens from a position on.
spec fn toks_from(s: Seq<char>, i: int) -> Seq<Tok> {
    only_toks(tokens_from(s, i)->Ok_0)
}

/// The tokens of a text: an end, and none before.
proof fn lemma_last_token(s: Seq<char>, i: int)
    requires
        0 <= i <= s.len(),
        tokens_from(s, i) is Ok,
    ensures
        toks_from(s, i).len() >= 1,
        toks_from(s, i).last() == Tok::Eof,
        forall|j: int| 0 <= j < toks_from(s, i).len() - 1 ==> #[trigger] toks_from(s, i)[j] != Tok::Eof,
    decreases s.len() - i,
{
    let j = skip_blank(s, i);
    lemma_skip_range(s, i);
    if j < s.len() {
        let (t, k) = token_at(s, j)->Some_0;
        lemma_last_token(s, k);
        let r = toks_from(s, k);
        lemma_no_end(s, j);
        assert(toks_from(s, i) =~= seq![t] + r);
        let all = toks_from(s, i);
        assert forall|m: int| 0 <= m < all.len() - 1 implies #[trigger] all[m] != Tok::Eof by {
            if m > 0 {
                assert(all[m] == r[m - 1]);
            }
        }
    }
}

proof fn lemma_no_end(s: Seq<char>, i: int)
    requires
        token_at(s, i) is Some,
    ensures
        token_at(s, i)->Some_0.0 != Tok::Eof,
{
}

/// The tokens of a text within a text come before those that follow it.
proof fn lemma_tokens_in(s: Seq<char>, a: Seq<char>, o: int, i: int)
    requires
        holds_text(s, a, o),
        0 <= i <= a.len(),
        tokens_from(a, i) is Ok,
        tokens_from(s, o + a.len()) is Ok,
    ensures
        tokens_from(s, o + i) is Ok,
        toks_from(s, o + i) == toks_from(a, i).drop_last() + toks_from(s, o + a.len()),
    decreases a.len() - i,
{
    let j = skip_blank(a, i);
    lemma_skip_range(a, i);
    lemma_skip_in(s, a, o, i);
    lemma_skip_range(s, o + i);
    lemma_skip_range(s, o + a.len());
    if j >= a.len() {
        assert(tokens_from(s, o + i) == tokens_from(s, o + a.len()));
        assert(toks_from(a, i) =~= seq![Tok::Eof]);
        assert(toks_from(a, i).drop_last() + toks_from(s, o + a.len()) =~= toks_from(
            s,
            o + a.len(),
        ));
    } else {
        let (t, k) = token_at(a, j)->Some_0;
        lemma_token_in(s, a, o, j);
        lemma_tokens_in(s, a, o, k);
        lemma_last_token(a, k);
        assert(toks_from(s, o + i) =~= seq![t] + toks_from(s, o + k));
        assert(toks_from(a, i) =~= seq![t] + toks_from(a, k));
        assert(toks_from(a, i).drop_last() =~= seq![t] + toks_from(a, k).drop_last());
        assert(seq![t] + (toks_from(a, k).drop_last() + toks_from(s, o + a.len())) =~= (seq![t]
            + toks_from(a, k).drop_last()) + toks_from(s, o + a.len()));
    }
}

/// A symbol of one character.
proof fn lemma_symbol(s: Seq<char>, i: int, t: Tok)
    requires
        0 <= i < s.len(),
        !in_class(s[i], Class::Alpha),
        !in_class(s[i], Class::Digit),
        !in_class(s[i], Class::Space),
        s[i] != '/',
        symbol_at(s, i) == Some((t, i + 1)),
        tokens_from(s, i + 1) is Ok,
    ensures
        tokens_from(s, i) is Ok,
        toks_from(s, i) == seq![t] + toks_from(s, i + 1),
{
    assert(run_end(s, i, Class::Space) == i);
    assert(skip_blank(s, i) == i);
    assert(toks_from(s, i) =~= seq![t] + toks_from(s, i + 1));
}

/// The end of a line is a blank.
proof fn lemma_line_end(s: Seq<char>, i: int)
    requires
        0 <= i < s.len(),
        s[i] == '\n',
    ensures
        tokens_from(s, i) == tokens_from(s, i + 1),
{
    assert(run_end(s, i, Class::Space) == run_end(s, i + 1, Class::Space));
    lemma_run_range(s, i + 1, Class::Space);
    assert(skip_blank(s, i) == skip_blank(s, i + 1));
    lemma_skip_range(s, i + 1);
}

/// The tokens of a text in brackets come before those that follow it.
proof fn lemma_bracket_tokens(s: Seq<char>, a: Seq<char>, o: int)
    requires
        0 <= o,
        o + a.len() + 3 <= s.len(),
        s[o] == '(',
        s[o + a.len() + 1] == '\n',
        s[o + a.len() + 2] == ')',
        forall|j: int| 0 <= j < a.len() ==> s[o + 1 + j] == #[trigger] a[j],
        tokens_from(a, 0) is Ok,
        tokens_from(s, o + a.len() + 3) is Ok,
    ensures
        tokens_from(s, o) is Ok,
        toks_from(s, o) == seq![Tok::LParen] + toks_from(a, 0).drop_last() + seq![Tok::RParen]
            + toks_from(s, o + a.len() + 3),
{
    let e = o + 1 + a.len();
    let rest = toks_from(s, e + 2);
    lemma_symbol(s, e + 1, Tok::RParen);
    lemma_line_end(s, e);
    assert(toks_from(s, e) == seq![Tok::RParen] + rest);
    assert(holds_text(s, a, o + 1)) by {
        assert forall|j: int| 0 <= j < a.len() implies s[(o + 1) + j] == #[trigger] a[j] by {}
    }
    lemma_tokens_in(s, a, o + 1, 0);
    lemma_symbol(s, o, Tok::LParen);
    let m = toks_from(a, 0).drop_last();
    assert(toks_from(s, o) =~= seq![Tok::LParen] + m + seq![Tok::RParen] + rest);
}

// ---- readings in readings ----------------------------------------------------------------------

/// The tokens of a text stand at `p` in others, with a closing bracket in place of the end.
spec fn holds_toks(u: Seq<Tok>, t: Seq<Tok>, p: int) -> bool {
    &&& t.len() >= 1
    &&& t.last() == Tok::Eof
    &&& 0 <= p
    &&& p + t.len() <= u.len()
    &&& u[p + t.len() - 1] == Tok::RParen
    &&& forall|j: int| 0 <= j < t.len() - 1 ==> u[p + j] == #[trigger] t[j]
}

proof fn lemma_at(u: Seq<Tok>, t: Seq<Tok>, p: int, i: int)
    requires
        holds_toks(u, t, p),
        0 <= i,
    ensures
        i < t.len() - 1 ==> at(u, p + i) == at(t, i),
        i == t.len() - 1 ==> at(u, p + i) == Tok::RParen && at(t, i) == Tok::Eof,
        i >= t.len() - 1 ==> at(t, i) == Tok::Eof,
{
    if i < t.len() - 1 {
        assert(u[p + i] == t[i]);
    }
}

proof fn lemma_starred_in(u: Seq<Tok>, t: Seq<Tok>, p: int, i: int, a: Term)
    requires
        holds_toks(u, t, p),
        0 <= i < t.len(),
    ensures
        starred(u, p + i, a) == (starred(t, i, a).0, p + starred(t, i, a).1),
        i <= starred(t, i, a).1 < t.len(),
    decreases t.len() - i,
{
    lemma_at(u, t, p, i);
    if t[i] == Tok::Star {
        assert(i < t.len() - 1);
        assert(u[p + i] == t[i]);
        lemma_starred_in(u, t, p, i + 1, Term::Star(Box::new(a)));
        assert(p + i + 1 == p + (i + 1));
    }
}

proof fn lemma_range_in(u: Seq<Tok>, t: Seq<Tok>, p: int, i: int)
    requires
        holds_toks(u, t, p),
        0 <= i,
        range_at(t, i) is Ok,
    ensures
        range_at(u, p + i) == Ok::<((u32, u32), int), int>(
            (range_at(t, i)->Ok_0.0, p + range_at(t, i)->Ok_0.1),
        ),
        range_at(t, i)->Ok_0.1 == i + 6,
        i + 6 < t.len(),
{
    lemma_at(u, t, p, i);
    lemma_at(u, t, p, i + 1);
    lemma_at(u, t, p, i + 2);
    lemma_at(u, t, p, i + 3);
    lemma_at(u, t, p, i + 4);
    lemma_at(u, t, p, i + 5);
}

proof fn lemma_pattern_in(u: Seq<Tok>, t: Seq<Tok>, p: int, i: int)
    requires
        holds_toks(u, t, p),
        0 <= i,
        pattern_at(t, i) is Ok,
    ensures
        pattern_at(u, p + i) is Ok,
        pattern_at(u, p + i)->Ok_0.0 == pattern_at(t, i)->Ok_0.0,
        pattern_at(u, p + i)->Ok_0.1 == p + pattern_at(t, i)->Ok_0.1,
        i < pattern_at(t, i)->Ok_0.1 < t.len(),
{
    lemma_at(u, t, p, i);
    lemma_at(u, t, p, i + 1);
    lemma_at(u, t, p, i + 2);
}

proof fn lemma_leaf_in(u: Seq<Tok>, t: Seq<Tok>, p: int, i: int)
    requires
        holds_toks(u, t, p),
        0 <= i < t.len(),
        leaf_at(t, i) is Ok,
    ensures
        leaf_at(u, p + i) is Ok,
        leaf_at(u, p + i)->Ok_0.0 == leaf_at(t, i)->Ok_0.0,
        leaf_at(u, p + i)->Ok_0.1 == p + leaf_at(t, i)->Ok_0.1,
        i < leaf_at(t, i)->Ok_0.1 < t.len(),
        i < t.len() - 1,
{
    lemma_at(u, t, p, i);
    lemma_at(u, t, p, i + 1);
    lemma_at(u, t, p, i + 2);
    match at(t, i) {
        Tok::Bits => {
            lemma_range_in(u, t, p, i);
            let j = i + 6;
            lemma_at(u, t, p, j);
            lemma_at(u, t, p, j + 1);
            if at(t, j) == Tok::Tilde {
                lemma_pattern_in(u, t, p, j + 1);
                assert(p + j + 1 == p + (j + 1));
            }
        },
        Tok::Ident(x) => {
            if at(t, i + 1) == Tok::Tilde {
                lemma_pattern_in(u, t, p, i + 2);
                assert(p + i + 2 == p + (i + 2));
            }
        },
        _ => {},
    }
}

/// The reading of a text within others.
#[verifier::rlimit(60)]
proof fn lemma_expr_in(u: Seq<Tok>, t: Seq<Tok>, p: int, i: int, level: nat)
    requires
        holds_toks(u, t, p),
        0 <= i < t.len(),
        expr_at(t, i, level) is Ok,
    ensures
        expr_at(u, p + i, level) == Ok::<(Term, int), int>(
            (expr_at(t, i, level)->Ok_0.0, p + expr_at(t, i, level)->Ok_0.1),
        ),
        i < expr_at(t, i, level)->Ok_0.1 < t.len(),
    decreases t.len() - i, 8 - level, 1nat,
{
    lemma_at(u, t, p, i);
    if level == 0 {
        lemma_expr_in(u, t, p, i, 1);
        let j = expr_at(t, i, 1)->Ok_0.1;
        lemma_at(u, t, p, j);
        if at(t, j) == Tok::LtlUntil {
            assert(j < t.len() - 1);
            lemma_expr_in(u, t, p, j + 1, 0);
            assert(p + j + 1 == p + (j + 1));
        }
    } else if level < 4 {
        lemma_expr_in(u, t, p, i, level + 1);
        let (a, j) = expr_at(t, i, level + 1)->Ok_0;
        lemma_rest_in(u, t, p, j, level, a);
    } else {
        lemma_prim_in(u, t, p, i);
    }
}

proof fn lemma_rest_in(u: Seq<Tok>, t: Seq<Tok>, p: int, j: int, level: nat, a: Term)
    requires
        holds_toks(u, t, p),
        0 <= j < t.len(),
        1 <= level < 4,
        rest_at(t, j, level, a) is Ok,
    ensures
        rest_at(u, p + j, level, a) == Ok::<(Term, int), int>(
            (rest_at(t, j, level, a)->Ok_0.0, p + rest_at(t, j, level, a)->Ok_0.1),
        ),
        j <= rest_at(t, j, level, a)->Ok_0.1 < t.len(),
    decreases t.len() - j, 0nat, 0nat,
{
    lemma_at(u, t, p, j);
    if operator(t[j], level) {
        assert(j < t.len() - 1);
        assert(u[p + j] == t[j]);
        lemma_expr_in(u, t, p, j + 1, level + 1);
        assert(p + j + 1 == p + (j + 1));
        let (b, k) = expr_at(t, j + 1, level + 1)->Ok_0;
        lemma_rest_in(u, t, p, k, level, combined(t[j], a, b));
    }
}

#[verifier::rlimit(60)]
proof fn lemma_prim_in(u: Seq<Tok>, t: Seq<Tok>, p: int, i: int)
    requires
        holds_toks(u, t, p),
        0 <= i < t.len(),
        expr_at(t, i, 4) is Ok,
    ensures
        expr_at(u, p + i, 4) == Ok::<(Term, int), int>(
            (expr_at(t, i, 4)->Ok_0.0, p + expr_at(t, i, 4)->Ok_0.1),
        ),
        i < expr_at(t, i, 4)->Ok_0.1 < t.len(),
    decreases t.len() - i, 4nat, 0nat,
{
    lemma_at(u, t, p, i);
    lemma_at(u, t, p, i + 1);
    lemma_at(u, t, p, i + 2);
    lemma_at(u, t, p, i + 3);
    assert(p + i + 1 == p + (i + 1));
    if i == t.len() - 1 {
        assert(leaf_at(t, i) is Err);
        assert(false);
    }
    assert(u[p + i] == t[i]);
    match t[i] {
        Tok::Tilde => lemma_expr_in(u, t, p, i + 1, 4),
        Tok::Bang => lemma_expr_in(u, t, p, i + 1, 4),
        Tok::LtlNext => lemma_expr_in(u, t, p, i + 1, 4),
        Tok::LParen => {
            lemma_expr_in(u, t, p, i + 1, 0);
            let (a, j) = expr_at(t, i + 1, 0)->Ok_0;
            lemma_at(u, t, p, j);
            lemma_starred_in(u, t, p, j + 1, a);
            assert(p + j + 1 == p + (j + 1));
        },
        Tok::If => {
            lemma_expr_in(u, t, p, i + 1, 0);
            let (a, j) = expr_at(t, i + 1, 0)->Ok_0;
            lemma_at(u, t, p, j);
            lemma_expr_in(u, t, p, j + 1, 0);
            assert(p + j + 1 == p + (j + 1));
            let (b, k) = expr_at(t, j + 1, 0)->Ok_0;
            lemma_at(u, t, p, k);
            lemma_expr_in(u, t, p, k + 1, 0);
            assert(p + k + 1 == p + (k + 1));
        },
        Tok::Let => {
            assert(p + i + 2 == p + (i + 2));
            assert(p + i + 3 == p + (i + 3));
            assert(p + i + 4 == p + (i + 4));
            if at(t, i + 3) == Tok::Amp {
                lemma_range_in(u, t, p, i + 4);
                let j = i + 10;
                lemma_at(u, t, p, j);
                lemma_expr_in(u, t, p, j + 1, 0);
                assert(p + j + 1 == p + (j + 1));
            } else {
                lemma_expr_in(u, t, p, i + 3, 0);
                let (a, j) = expr_at(t, i + 3, 0)->Ok_0;
                lemma_at(u, t, p, j);
                lemma_expr_in(u, t, p, j + 1, 0);
                assert(p + j + 1 == p + (j + 1));
            }
        },
        _ => {
            lemma_leaf_in(u, t, p, i);
            let (a, j) = leaf_at(t, i)->Ok_0;
            lemma_starred_in(u, t, p, j, a);
        },
    }
}

// ---- brackets ----------------------------------------------------------------------------------

/// The tokens of a text that is one expression.
proof fn lemma_read(a: Seq<char>, x: Term)
    requires
        reads_as(a, x),
    ensures
        tokens_from(a, 0) is Ok,
        toks_from(a, 0).len() >= 2,
        toks_from(a, 0).last() == Tok::Eof,
        expr_at(toks_from(a, 0), 0, 0) == Ok::<(Term, int), int>((x, toks_from(a, 0).len() - 1)),
{
    let t = toks_from(a, 0);
    lemma_last_token(a, 0);
    let es = exprs_from(t, 0)->Ok_0;
    assert(es == seq![x]);
    assert(at(t, 0) != Tok::Eof);
    let (y, j) = expr_at(t, 0, 0)->Ok_0;
    let rest = exprs_from(t, j)->Ok_0;
    assert(es =~= seq![y] + rest);
    assert(es[0] == y);
    assert(es.len() == 1 + rest.len());
    if at(t, j) != Tok::Eof {
        let (z, k) = expr_at(t, j, 0)->Ok_0;
        assert(rest.len() >= 1);
    }
    assert(at(t, j) == Tok::Eof);
    if j < t.len() - 1 {
        assert(t[j] != Tok::Eof);
    }
    if j >= t.len() {
        assert(j == t.len());
        lemma_consumed(t, 0, 0);
    }
}

/// The end is not read.
proof fn lemma_consumed(t: Seq<Tok>, i: int, level: nat)
    requires
        t.len() >= 1,
        t.last() == Tok::Eof,
        0 <= i < t.len(),
        expr_at(t, i, level) is Ok,
    ensures
        i < expr_at(t, i, level)->Ok_0.1 < t.len(),
{
    let u = t.update(t.len() - 1, Tok::RParen);
    assert(holds_toks(u, t, 0));
    lemma_expr_in(u, t, 0, i, level);
}

/// A text in brackets is read as what it is without them.
proof fn lemma_group(u: Seq<Tok>, t: Seq<Tok>, q: int, x: Term)
    requires
        t.len() >= 2,
        t.last() == Tok::Eof,
        expr_at(t, 0, 0) == Ok::<(Term, int), int>((x, t.len() - 1)),
        0 <= q,
        q + t.len() as int + 1 < u.len(),
        u[q] == Tok::LParen,
        u[q + t.len()] == Tok::RParen,
        forall|j: int| 0 <= j < t.len() - 1 ==> u[q + 1 + j] == #[trigger] t[j],
        u[q + t.len() as int + 1] != Tok::Star,
    ensures
        expr_at(u, q, 4) == Ok::<(Term, int), int>((x, q + t.len() as int + 1)),
{
    assert(holds_toks(u, t, q + 1)) by {
        assert forall|j: int| 0 <= j < t.len() - 1 implies u[(q + 1) + j] == #[trigger] t[j] by {}
    }
    lemma_expr_in(u, t, q + 1, 0, 0);
    let j = q + t.len();
    assert(expr_at(u, q + 1, 0) == Ok::<(Term, int), int>((x, j)));
    assert(starred(u, j + 1, x) == (x, j + 1));
}

/// What no operator follows is read alike at the looser levels.
proof fn lemma_looser(u: Seq<Tok>, q: int, from: nat, to: nat, x: Term, j: int)
    requires
        0 <= q < j < u.len(),
        to <= from <= 4,
        expr_at(u, q, from) == Ok::<(Term, int), int>((x, j)),
        forall|l: nat| to <= l < from ==> !#[trigger] operator(u[j], l),
        to == 0 ==> u[j] != Tok::LtlUntil,
    ensures
        expr_at(u, q, to) == Ok::<(Term, int), int>((x, j)),
    decreases from - to,
{
    if to < from {
        lemma_looser(u, q, from, (to + 1) as nat, x, j);
        if to > 0 {
            assert(!operator(u[j], to));
            assert(rest_at(u, j, to, x) == Ok::<(Term, int), int>((x, j)));
        }
    }
}

/// The level of an operator.
spec fn level_of(t: Tok) -> nat {
    match t {
        Tok::Semi => 1,
        Tok::Amp => 3,
        _ => 2,
    }
}

/// What ends an expression.
spec fn closes(t: Tok) -> bool {
    ||| t == Tok::RParen || t == Tok::Eof || t == Tok::Then || t == Tok::Else || t == Tok::In
    ||| t == Tok::Lte || t == Tok::Eq || t == Tok::Hole || t == Tok::Def || t is Ident
}

/// What joins two expressions.
spec fn joins(t: Tok) -> bool {
    operator(t, level_of(t)) || t == Tok::LtlUntil
}

/// An operator between two operands, and then an end.
proof fn lemma_operands(u: Seq<Tok>, i: int, x: Term, j: int, y: Term, k: int)
    requires
        0 <= i < j,
        j + 1 < k < u.len(),
        expr_at(u, i, 4) == Ok::<(Term, int), int>((x, j)),
        operator(u[j], level_of(u[j])),
        expr_at(u, j + 1, 4) == Ok::<(Term, int), int>((y, k)),
        closes(u[k]),
    ensures
        expr_at(u, i, 0) == Ok::<(Term, int), int>((combined(u[j], x, y), k)),
{
    let l = level_of(u[j]);
    let z = combined(u[j], x, y);
    lemma_looser(u, i, 4, (l + 1) as nat, x, j);
    lemma_looser(u, j + 1, 4, (l + 1) as nat, y, k);
    assert(rest_at(u, k, l, z) == Ok::<(Term, int), int>((z, k)));
    assert(rest_at(u, j, l, x) == Ok::<(Term, int), int>((z, k)));
    assert(expr_at(u, i, l) == Ok::<(Term, int), int>((z, k)));
    lemma_looser(u, i, l, 0, z, k);
}

/// One expression up to the end.
proof fn lemma_whole(s: Seq<char>, z: Term)
    requires
        tokens_from(s, 0) is Ok,
        toks_from(s, 0).len() >= 2,
        toks_from(s, 0).last() == Tok::Eof,
        toks_from(s, 0)[0] != Tok::Eof,
        expr_at(toks_from(s, 0), 0, 0) == Ok::<(Term, int), int>((z, toks_from(s, 0).len() - 1)),
    ensures
        reads_as(s, z),
{
    let u = toks_from(s, 0);
    let k = u.len() - 1;
    assert(exprs_from(u, k) == Ok::<Seq<Term>, int>(Seq::empty()));
    assert(seq![z] + Seq::<Term>::empty() =~= seq![z]);
    assert(exprs_from(u, 0) == Ok::<Seq<Term>, int>(seq![z]));
}

proof fn lemma_end(s: Seq<char>)
    ensures
        tokens_from(s, s.len() as int) is Ok,
        toks_from(s, s.len() as int) == seq![Tok::Eof],
{
    assert(run_end(s, s.len() as int, Class::Space) == s.len());
    assert(skip_blank(s, s.len() as int) == s.len());
    assert(toks_from(s, s.len() as int) =~= seq![Tok::Eof]);
}

/// The two texts in brackets, with a character in between.
pub open spec fn between(a: Seq<char>, c: char, b: Seq<char>) -> Seq<char> {
    bracketed(a) + seq![c] + bracketed(b)
}

/// The tokens of a text in brackets.
#[verifier::opaque]
spec fn group(t: Seq<Tok>) -> Seq<Tok> {
    seq![Tok::LParen] + t.drop_last() + seq![Tok::RParen]
}

proof fn lemma_group_lexes(s: Seq<char>, o: int, a: Seq<char>, x: Term)
    requires
        stands(s, o, bracketed(a)),
        reads_as(a, x),
    ensures
        lexes(s, o, group(toks_from(a, 0)), o + a.len() + 3),
{
    reveal(lexes);
    let w = bracketed(a);
    reveal(group);
    lemma_read(a, x);
    lemma_stands_at(s, o, w, 0);
    lemma_stands_at(s, o, w, a.len() as int + 1);
    lemma_stands_at(s, o, w, a.len() as int + 2);
    assert forall|j: int| 0 <= j < a.len() implies s[o + 1 + j] == #[trigger] a[j] by {
        lemma_stands_at(s, o, w, 1 + j);
        assert(w[1 + j] == a[j]);
    }
    if tokens_from(s, o + a.len() + 3) is Ok {
        lemma_bracket_tokens(s, a, o);
    }
}

proof fn lemma_group_at(u: Seq<Tok>, q: int, a: Seq<char>, x: Term)
    requires
        reads_as(a, x),
        stands(u, q, group(toks_from(a, 0))),
        q + group(toks_from(a, 0)).len() < u.len(),
        u[q + group(toks_from(a, 0)).len()] != Tok::Star,
    ensures
        group(toks_from(a, 0)).len() == toks_from(a, 0).len() + 1,
        group(toks_from(a, 0)).len() >= 3,
        u[q] == Tok::LParen,
        expr_at(u, q, 4) == Ok::<(Term, int), int>((x, q + group(toks_from(a, 0)).len())),
{
    let t = toks_from(a, 0);
    let g = group(t);
    reveal(group);
    lemma_read(a, x);
    lemma_stands_at(u, q, g, 0);
    lemma_stands_at(u, q, g, t.len() as int);
    assert forall|j: int| 0 <= j < t.len() - 1 implies u[q + 1 + j] == #[trigger] t[j] by {
        lemma_stands_at(u, q, g, 1 + j);
        assert(g[1 + j] == t.drop_last()[j]);
    }
    lemma_group(u, t, q, x);
}

/// The tokens of two texts in brackets with a symbol or a letter in between.
proof fn lemma_between(a: Seq<char>, c: char, b: Seq<char>, o: Tok, x: Term, y: Term) -> (r: (
    Seq<Tok>,
    int,
))
    requires
        reads_as(a, x),
        reads_as(b, y),
        middle(between(a, c, b), a.len() as int + 3, o),
        o != Tok::Star,
    ensures
        tokens_from(between(a, c, b), 0) is Ok,
        r.0 == toks_from(between(a, c, b), 0),
        0 < r.1,
        r.1 + 2 < r.0.len() - 1,
        r.0[r.1] == o,
        r.0.last() == Tok::Eof,
        r.0[0] == Tok::LParen,
        expr_at(r.0, 0, 4) == Ok::<(Term, int), int>((x, r.1)),
        expr_at(r.0, r.1 + 1, 4) == Ok::<(Term, int), int>((y, r.0.len() - 1)),
{
    let s = between(a, c, b);
    let m = a.len() as int + 3;
    let e = s.len() as int;
    let (ga, gb) = (group(toks_from(a, 0)), group(toks_from(b, 0)));
    assert(s.subrange(0, e) =~= s);
    assert(stands(s, 0, bracketed(a) + seq![c] + bracketed(b)));
    lemma_stands(s, 0, bracketed(a) + seq![c], bracketed(b));
    lemma_stands(s, 0, bracketed(a), seq![c]);
    assert(bracketed(a).len() == m);
    assert(e == m + 1 + b.len() + 3);
    lemma_group_lexes(s, 0, a, x);
    lemma_middle(s, m, o);
    lemma_group_lexes(s, m + 1, b, y);
    lemma_lexes(s, 0, ga, m, seq![o], m + 1);
    lemma_lexes(s, 0, ga + seq![o], m + 1, gb, e);
    let u = toks_from(s, 0);
    let ts = ga + seq![o] + gb;
    let k = ts.len() as int;
    lemma_all_lexes(s, ts);
    assert(u == ts + seq![Tok::Eof]);
    assert(u.subrange(0, k) =~= ts);
    lemma_stands(u, 0, ga + seq![o], gb);
    lemma_stands(u, 0, ga, seq![o]);
    let j = ga.len() as int;
    lemma_stands_at(u, j, seq![o], 0);
    lemma_group_at(u, 0, a, x);
    lemma_group_at(u, j + 1, b, y);
    (u, j)
}

/// One token stands at `i`, before a bracket.
spec fn middle(s: Seq<char>, i: int, t: Tok) -> bool {
    &&& 0 <= i
    &&& i + 1 < s.len()
    &&& s[i + 1] == '('
    &&& !in_class(s[i], Class::Space)
    &&& s[i] != '/'
    &&& token_at(s, i) == Some((t, i + 1))
}

proof fn lemma_middle(s: Seq<char>, i: int, t: Tok)
    requires
        middle(s, i, t),
    ensures
        lexes(s, i, seq![t], i + 1),
{
    lemma_one(s, i, t, i + 1);
}

// ---- laws --------------------------------------------------------------------------------------

proof fn lemma_binary(a: Seq<char>, c: char, b: Seq<char>, o: Tok, x: Term, y: Term)
    requires
        reads_as(a, x),
        reads_as(b, y),
        symbol_at(between(a, c, b), a.len() as int + 3) == Some((o, a.len() as int + 4)),
        !in_class(c, Class::Alpha),
        !in_class(c, Class::Digit),
        !in_class(c, Class::Space),
        c != '/',
        operator(o, level_of(o)),
    ensures
        reads_as(between(a, c, b), combined(o, x, y)),
{
    let s = between(a, c, b);
    assert(s[a.len() as int + 3] == c);
    assert(s[a.len() as int + 4] == '(');
    assert(middle(s, a.len() as int + 3, o));
    let (u, j) = lemma_between(a, c, b, o, x, y);
    lemma_operands(u, 0, x, j, y, u.len() - 1);
    lemma_whole(s, combined(o, x, y));
}

/// Two texts in brackets with `+`, `&`, `^`, `-` or `;` in between are read as the union,
/// the intersection, the exclusive or, the difference or the sequence of what they are read
/// as.
pub proof fn law_operators_read(a: Seq<char>, b: Seq<char>, x: Term, y: Term)
    requires
        reads_as(a, x),
        reads_as(b, y),
    ensures
        reads_as(between(a, '+', b), Term::Union(Box::new(x), Box::new(y))),
        reads_as(between(a, '&', b), Term::Intersect(Box::new(x), Box::new(y))),
        reads_as(between(a, '^', b), Term::Xor(Box::new(x), Box::new(y))),
        reads_as(between(a, '-', b), Term::Difference(Box::new(x), Box::new(y))),
        reads_as(between(a, ';', b), Term::Sequence(Box::new(x), Box::new(y))),
{
    assert(between(a, '+', b)[a.len() as int + 3] == '+');
    lemma_binary(a, '+', b, Tok::Plus, x, y);
    assert(between(a, '&', b)[a.len() as int + 3] == '&');
    lemma_binary(a, '&', b, Tok::Amp, x, y);
    assert(between(a, '^', b)[a.len() as int + 3] == '^');
    lemma_binary(a, '^', b, Tok::Caret, x, y);
    assert(between(a, '-', b)[a.len() as int + 3] == '-');
    lemma_binary(a, '-', b, Tok::Minus, x, y);
    assert(between(a, ';', b)[a.len() as int + 3] == ';');
    lemma_binary(a, ';', b, Tok::Semi, x, y);
}

/// A letter before a bracket is a word.
proof fn lemma_letter(s: Seq<char>, i: int)
    requires
        0 <= i,
        i + 1 < s.len(),
        s[i] == 'U' || s[i] == 'X',
        s[i + 1] == '(',
    ensures
        s[i] == 'U' ==> middle(s, i, Tok::LtlUntil),
        s[i] == 'X' ==> middle(s, i, Tok::LtlNext),
{
    assert(run_end(s, i + 1, Class::Word) == i + 1);
    assert(run_end(s, i, Class::Word) == i + 1);
    let w = s.subrange(i, i + 1);
    reveal_strlit("x");
    reveal_strlit("T");
    reveal_strlit("X");
    reveal_strlit("U");
    assert(w.len() == 1 && w[0] == s[i]);
    assert("x"@[0] == 'x' && "T"@[0] == 'T');
    if s[i] == 'U' {
        assert(w =~= "U"@);
        assert("X"@[0] == 'X');
    } else {
        assert(w =~= "X"@);
    }
}

/// Two texts in brackets with `U` in between are read as the one until the other.
pub proof fn law_until_read(a: Seq<char>, b: Seq<char>, x: Term, y: Term)
    requires
        reads_as(a, x),
        reads_as(b, y),
    ensures
        reads_as(between(a, 'U', b), Term::LtlUntil(Box::new(x), Box::new(y))),
{
    let s = between(a, 'U', b);
    let m = a.len() as int + 3;
    assert(s[m as int] == 'U' && s[m + 1] == '(');
    lemma_letter(s, m as int);
    let (u, j) = lemma_between(a, 'U', b, Tok::LtlUntil, x, y);
    let k = u.len() - 1;
    lemma_looser(u, 0, 4, 1, x, j);
    lemma_looser(u, j + 1, 4, 0, y, k);
    assert(expr_at(u, 0, 0) == Ok::<(Term, int), int>(
        (Term::LtlUntil(Box::new(x), Box::new(y)), k),
    ));
    lemma_whole(s, Term::LtlUntil(Box::new(x), Box::new(y)));
}

/// The text in brackets, after a character.
pub open spec fn prefixed(c: char, a: Seq<char>) -> Seq<char> {
    seq![c] + bracketed(a)
}

proof fn lemma_prefix(c: char, a: Seq<char>, o: Tok, x: Term, z: Term)
    requires
        reads_as(a, x),
        middle(prefixed(c, a), 0, o),
        o == Tok::Tilde && z == Term::Complement(Box::new(x)) || o == Tok::Bang && z
            == Term::TestNegation(Box::new(x)) || o == Tok::LtlNext && z == Term::LtlNext(
            Box::new(x),
        ),
    ensures
        reads_as(prefixed(c, a), z),
{
    let s = prefixed(c, a);
    let g = group(toks_from(a, 0));
    let e = s.len() as int;
    assert(s.subrange(0, e) =~= s);
    assert(stands(s, 0, seq![c] + bracketed(a)));
    lemma_stands(s, 0, seq![c], bracketed(a));
    assert(e == 1 + a.len() + 3);
    lemma_middle(s, 0, o);
    lemma_group_lexes(s, 1, a, x);
    lemma_lexes(s, 0, seq![o], 1, g, e);
    let u = toks_from(s, 0);
    let ts = seq![o] + g;
    let k = ts.len() as int;
    lemma_all_lexes(s, ts);
    assert(u == ts + seq![Tok::Eof]);
    assert(u.subrange(0, ts.len() as int) =~= ts);
    lemma_stands(u, 0, seq![o], g);
    lemma_stands_at(u, 0, seq![o], 0);
    lemma_group_at(u, 1, a, x);
    assert(expr_at(u, 0, 4) == Ok::<(Term, int), int>((z, k)));
    lemma_looser(u, 0, 4, 0, z, k);
    lemma_whole(s, z);
}

/// A text in brackets after `~`, `!` or `X` is read as the complement, the negation or the
/// next step of what it is read as.
pub proof fn law_prefixes_read(a: Seq<char>, x: Term)
    requires
        reads_as(a, x),
    ensures
        reads_as(prefixed('~', a), Term::Complement(Box::new(x))),
        reads_as(prefixed('!', a), Term::TestNegation(Box::new(x))),
        reads_as(prefixed('X', a), Term::LtlNext(Box::new(x))),
{
    assert(prefixed('~', a)[0] == '~' && prefixed('~', a)[1] == '(');
    assert(prefixed('!', a)[0] == '!' && prefixed('!', a)[1] == '(');
    assert(prefixed('X', a)[0] == 'X' && prefixed('X', a)[1] == '(');
    lemma_prefix('~', a, Tok::Tilde, x, Term::Complement(Box::new(x)));
    lemma_prefix('!', a, Tok::Bang, x, Term::TestNegation(Box::new(x)));
    lemma_letter(prefixed('X', a), 0);
    lemma_prefix('X', a, Tok::LtlNext, x, Term::LtlNext(Box::new(x)));
}

/// A text in brackets is read as what it is without them, and before `*` as any number of
/// repetitions of that.
pub proof fn law_brackets_read(a: Seq<char>, x: Term)
    requires
        reads_as(a, x),
    ensures
        reads_as(bracketed(a), x),
        reads_as(bracketed(a).push('*'), Term::Star(Box::new(x))),
{
    let t = toks_from(a, 0);
    lemma_read(a, x);
    let s = bracketed(a);
    lemma_end(s);
    assert forall|j: int| 0 <= j < a.len() implies s[0 + 1 + j] == #[trigger] a[j] by {}
    lemma_bracket_tokens(s, a, 0);
    let left = seq![Tok::LParen] + t.drop_last() + seq![Tok::RParen];
    let u = toks_from(s, 0);
    assert(u == left + seq![Tok::Eof]);
    assert forall|j: int| 0 <= j < t.len() - 1 implies u[0 + 1 + j] == #[trigger] t[j] by {
        assert(u[1 + j] == left[1 + j]);
        assert(left[1 + j] == t.drop_last()[j]);
    }
    assert(u[t.len() as int] == left[t.len() as int]);
    lemma_group(u, t, 0, x);
    lemma_looser(u, 0, 4, 0, x, u.len() - 1);
    lemma_whole(s, x);
    let r = s.push('*');
    lemma_end(r);
    let m = s.len() as int;
    assert(r[m] == '*');
    lemma_symbol(r, m, Tok::Star);
    assert forall|j: int| 0 <= j < a.len() implies r[0 + 1 + j] == #[trigger] a[j] by {
        assert(r[1 + j] == s[1 + j]);
    }
    assert(r[0] == s[0] && r[a.len() as int + 1] == s[a.len() as int + 1] && r[a.len() as int + 2] == s[a.len() as int + 2]);
    lemma_bracket_tokens(r, a, 0);
    let v = toks_from(r, 0);
    assert(v == left + (seq![Tok::Star] + seq![Tok::Eof]));
    let k = t.len() as int;
    assert(v[k] == left[k] && v[k + 1] == Tok::Star && v[k + 2] == Tok::Eof);
    assert(holds_toks(v, t, 1)) by {
        assert forall|j: int| 0 <= j < t.len() - 1 implies v[1 + j] == #[trigger] t[j] by {
            assert(v[1 + j] == left[1 + j]);
            assert(left[1 + j] == t.drop_last()[j]);
        }
    }
    lemma_expr_in(v, t, 1, 0, 0);
    let z = Term::Star(Box::new(x));
    assert(starred(v, k + 2, z) == (z, k + 2));
    assert(starred(v, k + 1, x) == (z, k + 2));
    assert(v[0] == Tok::LParen);
    assert(expr_at(v, 0, 4) == Ok::<(Term, int), int>((z, k + 2)));
    lemma_looser(v, 0, 4, 0, z, k + 2);
    lemma_whole(r, z);
}
// ---- texts in text form ------------------------------------------------------------------------

/// The values stand at `q`.
spec fn stands<T>(u: Seq<T>, q: int, a: Seq<T>) -> bool {
    &&& 0 <= q
    &&& q + a.len() <= u.len()
    &&& u.subrange(q, q + a.len()) =~= a
}

proof fn lemma_stands<T>(u: Seq<T>, q: int, a: Seq<T>, b: Seq<T>)
    requires
        stands(u, q, a + b),
    ensures
        stands(u, q, a),
        stands(u, q + a.len(), b),
{
    let w = u.subrange(q, q + a.len() + b.len());
    assert forall|j: int| 0 <= j < a.len() implies u[q + j] == a[j] by {
        assert(w[j] == (a + b)[j]);
    }
    assert forall|j: int| 0 <= j < b.len() implies u[q + a.len() + j] == b[j] by {
        assert(w[a.len() + j] == (a + b)[a.len() + j]);
    }
    assert(u.subrange(q, q + a.len()) =~= a);
    assert(u.subrange(q + a.len(), q + a.len() + b.len()) =~= b);
}

proof fn lemma_stands_at<T>(u: Seq<T>, q: int, a: Seq<T>, j: int)
    requires
        stands(u, q, a),
        0 <= j < a.len(),
    ensures
        u[q + j] == a[j],
{
    assert(u.subrange(q, q + a.len())[j] == a[j]);
}

/// From `i` to `e` there are these tokens.
#[verifier::opaque]
spec fn lexes(s: Seq<char>, i: int, ts: Seq<Tok>, e: int) -> bool {
    tokens_from(s, e) is Ok ==> {
        &&& tokens_from(s, i) is Ok
        &&& toks_from(s, i) == ts + toks_from(s, e)
    }
}

proof fn lemma_lexes(s: Seq<char>, i: int, a: Seq<Tok>, k: int, b: Seq<Tok>, e: int)
    requires
        lexes(s, i, a, k),
        lexes(s, k, b, e),
    ensures
        lexes(s, i, a + b, e),
{
    reveal(lexes);
    if tokens_from(s, e) is Ok {
        assert(a + (b + toks_from(s, e)) =~= (a + b) + toks_from(s, e));
    }
}

/// The tokens of a whole text.
proof fn lemma_all_lexes(s: Seq<char>, ts: Seq<Tok>)
    requires
        lexes(s, 0, ts, s.len() as int),
    ensures
        tokens_from(s, 0) is Ok,
        toks_from(s, 0) == ts + seq![Tok::Eof],
{
    reveal(lexes);
    lemma_end(s);
}

proof fn lemma_none_lexes(s: Seq<char>, i: int)
    ensures
        lexes(s, i, Seq::empty(), i),
{
    reveal(lexes);
    assert(toks_from(s, i) =~= Seq::empty() + toks_from(s, i));
}

proof fn lemma_blank(s: Seq<char>, i: int)
    requires
        0 <= i < s.len(),
        in_class(s[i], Class::Space),
    ensures
        lexes(s, i, Seq::empty(), i + 1),
{
    reveal(lexes);
    assert(run_end(s, i, Class::Space) == run_end(s, i + 1, Class::Space));
    lemma_run_range(s, i + 1, Class::Space);
    assert(skip_blank(s, i) == skip_blank(s, i + 1));
    lemma_skip_range(s, i + 1);
    assert(tokens_from(s, i) == tokens_from(s, i + 1));
    assert(Seq::<Tok>::empty() + toks_from(s, i + 1) =~= toks_from(s, i + 1));
}

proof fn lemma_one(s: Seq<char>, i: int, t: Tok, e: int)
    requires
        0 <= i < e <= s.len(),
        !in_class(s[i], Class::Space),
        s[i] != '/',
        token_at(s, i) == Some((t, e)),
    ensures
        lexes(s, i, seq![t], e),
{
    reveal(lexes);
    assert(run_end(s, i, Class::Space) == i);
    assert(skip_blank(s, i) == i);
    if tokens_from(s, e) is Ok {
        assert(toks_from(s, i) =~= seq![t] + toks_from(s, e));
    }
}

/// What stands between two blanks.
proof fn lemma_spaced(s: Seq<char>, i: int, t: Tok, e: int)
    requires
        0 <= i,
        i + 1 < e < s.len(),
        s[i] == ' ',
        s[e] == ' ',
        lexes(s, i + 1, seq![t], e),
    ensures
        lexes(s, i, seq![t], e + 1),
{
    lemma_blank(s, i);
    lemma_blank(s, e);
    lemma_lexes(s, i, Seq::empty(), i + 1, seq![t], e);
    assert(Seq::empty() + seq![t] =~= seq![t]);
    lemma_lexes(s, i, seq![t], e, Seq::empty(), e + 1);
    assert(seq![t] + Seq::empty() =~= seq![t]);
}

/// Letters, digits and `_`, the first no digit.
pub open spec fn is_word(w: Seq<char>) -> bool {
    &&& w.len() > 0
    &&& in_class(w[0], Class::Alpha)
    &&& forall|j: int| 0 <= j < w.len() ==> in_class(#[trigger] w[j], Class::Word)
}

/// A run that ends where it should.
proof fn lemma_run_to(s: Seq<char>, i: int, e: int, k: Class)
    requires
        0 <= i <= e <= s.len(),
        forall|j: int| i <= j < e ==> in_class(#[trigger] s[j], k),
        e < s.len() ==> !in_class(s[e], k),
    ensures
        run_end(s, i, k) == e,
    decreases e - i,
{
    if i < e {
        lemma_run_to(s, i + 1, e, k);
    }
}

proof fn lemma_word(s: Seq<char>, i: int, w: Seq<char>, t: Tok)
    requires
        stands(s, i, w),
        is_word(w),
        i + w.len() < s.len() ==> !in_class(s[i + w.len()], Class::Word),
        word_token(w) == Some(t),
    ensures
        lexes(s, i, seq![t], i + w.len()),
{
    let e = i + w.len();
    assert forall|j: int| i <= j < e implies in_class(#[trigger] s[j], Class::Word) by {
        lemma_stands_at(s, i, w, j - i);
        assert(in_class(w[j - i], Class::Word));
    }
    lemma_run_to(s, i, e, Class::Word);
    lemma_stands_at(s, i, w, 0);
    assert(s.subrange(i, e) == w);
    lemma_one(s, i, t, e);
}

proof fn lemma_digit(d: nat)
    requires
        d < 10,
    ensures
        digit(d).len() == 1,
        in_class(digit(d)[0], Class::Digit),
        digit_value(digit(d)[0]) == d,
{
    reveal_strlit("0");
    reveal_strlit("1");
    reveal_strlit("2");
    reveal_strlit("3");
    reveal_strlit("4");
    reveal_strlit("5");
    reveal_strlit("6");
    reveal_strlit("7");
    reveal_strlit("8");
    reveal_strlit("9");
}

/// The digits of a number have its value.
proof fn lemma_decimal(s: Seq<char>, i: int, n: nat)
    requires
        stands(s, i, decimal(n)),
    ensures
        decimal(n).len() > 0,
        forall|j: int| i <= j < i + decimal(n).len() ==> in_class(#[trigger] s[j], Class::Digit),
        decimal_value(s, i, i + decimal(n).len()) == n,
    decreases n,
{
    let e = i + decimal(n).len();
    if n < 10 {
        lemma_digit(n);
        lemma_stands_at(s, i, decimal(n), 0);
        assert(decimal_value(s, i, i) == 0);
        assert(decimal_value(s, i, i + 1) == n);
    } else {
        lemma_digit(n % 10);
        lemma_stands(s, i, decimal(n / 10), digit(n % 10));
        lemma_decimal(s, i, n / 10);
        lemma_stands_at(s, e - 1, digit(n % 10), 0);
        assert(s[e - 1] == digit(n % 10)[0]);
        assert(n == (n / 10) * 10 + n % 10);
    }
}

proof fn lemma_number(s: Seq<char>, i: int, n: u64)
    requires
        stands(s, i, decimal(n as nat)),
        ({
            let e = i + decimal(n as nat).len();
            e < s.len() ==> (in_class(s[e], Class::Space) || s[e] == ')' || s[e] == ']' || (s[e] == '.' && e + 1
                < s.len() && s[e + 1] == '.'))
        }),
    ensures
        lexes(s, i, seq![Tok::Num(n)], i + decimal(n as nat).len()),
{
    let e = i + decimal(n as nat).len();
    lemma_decimal(s, i, n as nat);
    lemma_run_to(s, i, e, Class::Digit);
    assert(in_class(s[i], Class::Digit));
    assert(i + 1 < s.len() ==> s[i + 1] != 'b' && s[i + 1] != 'x') by {
        if i + 1 < e {
            assert(in_class(s[i + 1], Class::Digit));
        }
    }
    assert(number_at(s, i) == Some((Tok::Num(n), e)));
    lemma_one(s, i, Tok::Num(n), e);
}

/// The words of more than one letter begin with no `x`.
proof fn lemma_not_kept(w: Seq<char>)
    requires
        w.len() >= 2,
        w[0] == 'x',
    ensures
        word_token(w) == if is_field(w) {
            if decimal_value(w, 1, w.len() as int) < u32::MAX {
                Some(Tok::Field(decimal_value(w, 1, w.len() as int) as u32))
            } else {
                None
            }
        } else {
            Some(Tok::Ident(w))
        },
{
    reveal_strlit("x");
    reveal_strlit("T");
    reveal_strlit("X");
    reveal_strlit("U");
    reveal_strlit("dup");
    reveal_strlit("if");
    reveal_strlit("then");
    reveal_strlit("else");
    reveal_strlit("let");
    reveal_strlit("in");
    reveal_strlit("mask");
    reveal_strlit("hole");
    reveal_strlit("def");
    assert("dup"@[0] == 'd' && "if"@[0] == 'i' && "then"@[0] == 't' && "else"@[0] == 'e');
    assert("let"@[0] == 'l' && "in"@[0] == 'i' && "mask"@[0] == 'm' && "hole"@[0] == 'h');
    assert("def"@[0] == 'd');
    assert("x"@.len() == 1 && "T"@.len() == 1 && "X"@.len() == 1 && "U"@.len() == 1);
}

proof fn lemma_field(s: Seq<char>, i: int, f: u32)
    requires
        stands(s, i, "x"@ + decimal(f as nat)),
        f < u32::MAX,
        ({
            let e = i + ("x"@ + decimal(f as nat)).len();
            e < s.len() && s[e] == ' '
        }),
    ensures
        lexes(s, i, seq![Tok::Field(f)], i + ("x"@ + decimal(f as nat)).len()),
{
    reveal_strlit("x");
    let w = "x"@ + decimal(f as nat);
    assert(w[0] == 'x');
    assert(stands(w, 1, decimal(f as nat))) by {
        assert(w.subrange(1, w.len() as int) =~= decimal(f as nat));
    }
    lemma_decimal(w, 1, f as nat);
    lemma_run_to(w, 1, w.len() as int, Class::Digit);
    assert forall|j: int| 0 <= j < w.len() implies in_class(#[trigger] w[j], Class::Word) by {
        if j > 0 {
            assert(in_class(w[j], Class::Digit));
        }
    }
    lemma_not_kept(w);
    lemma_word(s, i, w, Tok::Field(f));
}

/// A word that is no other token.
pub open spec fn is_name(x: Seq<char>) -> bool {
    is_word(x) && word_token(x) == Some(Tok::Ident(x))
}

/// What ends with an expression that nothing closes.
pub open spec fn trails(t: Term) -> bool {
    t is IfThenElse || t is Let || t is LetBitRange
}

/// The last word of the text form is a name.
pub open spec fn ends_in_name(t: Term) -> bool
    decreases t,
{
    match t {
        Term::Var(_) => true,
        Term::IfThenElse(_, _, c) => ends_in_name(*c),
        Term::Let(_, _, b) => ends_in_name(*b),
        Term::LetBitRange(_, _, _, a) => ends_in_name(*a),
        _ => false,
    }
}

/// The expression has a text form that says all of it: no literal of several bits, no hole,
/// no end, names that are words, and no operator right after what trails.
pub open spec fn printable(t: Term) -> bool
    decreases t,
{
    match t {
        Term::Zero | Term::One | Term::Top | Term::Dup => true,
        Term::Assign(f, _) => f < u32::MAX,
        Term::Test(f, _) => f < u32::MAX,
        Term::Union(a, b) => printable(*a) && printable(*b) && !trails(*a),
        Term::Intersect(a, b) => printable(*a) && printable(*b) && !trails(*a),
        Term::Xor(a, b) => printable(*a) && printable(*b) && !trails(*a),
        Term::Difference(a, b) => printable(*a) && printable(*b) && !trails(*a),
        Term::Sequence(a, b) => printable(*a) && printable(*b) && !trails(*a),
        Term::LtlUntil(a, b) => printable(*a) && printable(*b) && !trails(*a),
        Term::Complement(a) => printable(*a),
        Term::Star(a) => printable(*a),
        Term::LtlNext(a) => printable(*a),
        Term::TestNegation(a) => printable(*a),
        Term::IfThenElse(a, b, c) => printable(*a) && printable(*b) && printable(*c),
        Term::Var(x) => is_name(x),
        Term::Let(x, a, b) => is_name(x) && printable(*a) && printable(*b),
        Term::LetBitRange(x, f, g, a) => is_name(x) && f <= g && printable(*a),
        _ => false,
    }
}

/// The tokens of an expression's text form.
spec fn toks_of(t: Term) -> Seq<Tok>
    decreases t,
{
    match t {
        Term::Zero => seq![Tok::Num(0)],
        Term::One => seq![Tok::Num(1)],
        Term::Top => seq![Tok::Top],
        Term::Dup => seq![Tok::Dup],
        Term::Assign(f, v) => seq![Tok::Field(f)] + seq![Tok::Assign] + seq![bit_tok(v)],
        Term::Test(f, v) => seq![Tok::Field(f)] + seq![Tok::Eq] + seq![bit_tok(v)],
        Term::Union(a, b) => paired(toks_of(*a), Tok::Plus, toks_of(*b)),
        Term::Intersect(a, b) => paired(toks_of(*a), Tok::Amp, toks_of(*b)),
        Term::Xor(a, b) => paired(toks_of(*a), Tok::Caret, toks_of(*b)),
        Term::Difference(a, b) => paired(toks_of(*a), Tok::Minus, toks_of(*b)),
        Term::Sequence(a, b) => paired(toks_of(*a), Tok::Semi, toks_of(*b)),
        Term::LtlUntil(a, b) => paired(toks_of(*a), Tok::LtlUntil, toks_of(*b)),
        Term::Complement(a) => wrapped(Tok::Tilde, toks_of(*a)),
        Term::TestNegation(a) => wrapped(Tok::Bang, toks_of(*a)),
        Term::LtlNext(a) => wrapped(Tok::LtlNext, toks_of(*a)),
        Term::Star(a) => seq![Tok::LParen] + toks_of(*a) + seq![Tok::RParen] + seq![Tok::Star],
        Term::IfThenElse(a, b, c) => seq![Tok::If] + toks_of(*a) + seq![Tok::Then] + toks_of(*b)
            + seq![Tok::Else] + toks_of(*c),
        Term::Var(x) => seq![Tok::Ident(x)],
        Term::Let(x, a, b) => seq![Tok::Let] + seq![Tok::Ident(x)] + seq![Tok::Eq] + toks_of(*a)
            + seq![Tok::In] + toks_of(*b),
        Term::LetBitRange(x, f, g, a) => seq![Tok::Let] + seq![Tok::Ident(x)] + seq![Tok::Eq]
            + seq![Tok::Amp] + range_toks(f, g) + seq![Tok::In] + toks_of(*a),
        _ => Seq::empty(),
    }
}

spec fn bit_tok(v: bool) -> Tok {
    if v {
        Tok::Num(1)
    } else {
        Tok::Num(0)
    }
}

spec fn paired(a: Seq<Tok>, o: Tok, b: Seq<Tok>) -> Seq<Tok> {
    seq![Tok::LParen] + a + seq![o] + b + seq![Tok::RParen]
}

spec fn wrapped(o: Tok, a: Seq<Tok>) -> Seq<Tok> {
    seq![o] + seq![Tok::LParen] + a + seq![Tok::RParen]
}

spec fn range_toks(f: u32, g: u32) -> Seq<Tok> {
    seq![Tok::Bits] + seq![Tok::LBracket] + seq![Tok::Num(f as u64)] + seq![Tok::DotDot] + seq![
        Tok::Num(g as u64),
    ] + seq![Tok::RBracket]
}

/// Nothing or what ends a word stands at `e`.
spec fn stops(s: Seq<char>, e: int) -> bool {
    e < s.len() ==> in_class(s[e], Class::Space) || s[e] == ')'
}

/// The words that are tokens.
proof fn lemma_kept()
    ensures
        "x"@ =~= seq!['x'],
        "T"@ =~= seq!['T'],
        "X"@ =~= seq!['X'],
        "U"@ =~= seq!['U'],
        "dup"@ =~= seq!['d', 'u', 'p'],
        "if"@ =~= seq!['i', 'f'],
        "then"@ =~= seq!['t', 'h', 'e', 'n'],
        "else"@ =~= seq!['e', 'l', 's', 'e'],
        "let"@ =~= seq!['l', 'e', 't'],
        "in"@ =~= seq!['i', 'n'],
        word_token("x"@) == Some(Tok::Bits),
        word_token("T"@) == Some(Tok::Top),
        word_token("X"@) == Some(Tok::LtlNext),
        word_token("U"@) == Some(Tok::LtlUntil),
        word_token("dup"@) == Some(Tok::Dup),
        word_token("if"@) == Some(Tok::If),
        word_token("then"@) == Some(Tok::Then),
        word_token("else"@) == Some(Tok::Else),
        word_token("let"@) == Some(Tok::Let),
        word_token("in"@) == Some(Tok::In),
        is_word("x"@) && is_word("T"@) && is_word("X"@) && is_word("U"@) && is_word("dup"@),
        is_word("if"@) && is_word("then"@) && is_word("else"@) && is_word("let"@) && is_word(
            "in"@,
        ),
{
    reveal_strlit("x");
    reveal_strlit("T");
    reveal_strlit("X");
    reveal_strlit("U");
    reveal_strlit("dup");
    reveal_strlit("if");
    reveal_strlit("then");
    reveal_strlit("else");
    reveal_strlit("let");
    reveal_strlit("in");
    assert("x"@[0] == 'x' && "T"@[0] == 'T' && "X"@[0] == 'X' && "U"@[0] == 'U');
    assert("dup"@[0] == 'd' && "if"@[0] == 'i' && "then"@[0] == 't' && "else"@[0] == 'e');
    assert("let"@[0] == 'l' && "in"@[0] == 'i' && "in"@[1] == 'n' && "if"@[1] == 'f');
}

/// A symbol of one character.
proof fn lemma_mark(s: Seq<char>, i: int, t: Tok)
    requires
        0 <= i < s.len(),
        match t {
            Tok::Plus => s[i] == '+',
            Tok::Amp => s[i] == '&',
            Tok::Caret => s[i] == '^',
            Tok::Minus => s[i] == '-',
            Tok::Semi => s[i] == ';',
            Tok::Star => s[i] == '*',
            Tok::Tilde => s[i] == '~',
            Tok::Bang => s[i] == '!',
            Tok::LParen => s[i] == '(',
            Tok::RParen => s[i] == ')',
            Tok::LBracket => s[i] == '[',
            Tok::RBracket => s[i] == ']',
            Tok::Eq => s[i] == '=' && i + 1 < s.len() && s[i + 1] == ' ',
            _ => false,
        },
    ensures
        lexes(s, i, seq![t], i + 1),
{
    lemma_one(s, i, t, i + 1);
}

/// An operator between blanks.
proof fn lemma_infix(s: Seq<char>, i: int, c: char, t: Tok)
    requires
        stands(s, i, seq![' ', c, ' ']),
        c == '+' && t == Tok::Plus || c == '&' && t == Tok::Amp || c == '^' && t == Tok::Caret || c
            == '-' && t == Tok::Minus || c == ';' && t == Tok::Semi || c == 'U' && t
            == Tok::LtlUntil || c == '=' && t == Tok::Eq,
    ensures
        lexes(s, i, seq![t], i + 3),
{
    let w = seq![' ', c, ' '];
    lemma_stands_at(s, i, w, 0);
    lemma_stands_at(s, i, w, 1);
    lemma_stands_at(s, i, w, 2);
    if c == 'U' {
        lemma_kept();
        assert(s.subrange(i + 1, i + 2) =~= "U"@);
        lemma_word(s, i + 1, "U"@, t);
    } else {
        lemma_mark(s, i + 1, t);
    }
    lemma_spaced(s, i, t, i + 2);
}

/// A word between blanks.
proof fn lemma_key(s: Seq<char>, i: int, w: Seq<char>, t: Tok)
    requires
        stands(s, i, seq![' '] + w + seq![' ']),
        is_word(w),
        word_token(w) == Some(t),
    ensures
        lexes(s, i, seq![t], i + w.len() + 2),
{
    lemma_stands(s, i, seq![' '] + w, seq![' ']);
    lemma_stands(s, i, seq![' '], w);
    lemma_stands_at(s, i, seq![' '], 0);
    let e = i + 1 + w.len();
    lemma_stands_at(s, e, seq![' '], 0);
    lemma_word(s, i + 1, w, t);
    lemma_spaced(s, i, t, e);
}

/// A word before a blank.
proof fn lemma_first(s: Seq<char>, i: int, w: Seq<char>, t: Tok)
    requires
        stands(s, i, w + seq![' ']),
        is_word(w),
        word_token(w) == Some(t),
    ensures
        lexes(s, i, seq![t], i + w.len() + 1),
{
    lemma_stands(s, i, w, seq![' ']);
    let e = i + w.len();
    lemma_stands_at(s, e, seq![' '], 0);
    lemma_word(s, i, w, t);
    lemma_blank(s, e);
    lemma_lexes(s, i, seq![t], e, Seq::empty(), e + 1);
    assert(seq![t] + Seq::empty() =~= seq![t]);
}

/// A field, a relation and a bit.
proof fn lemma_bit_text(s: Seq<char>, i: int, f: u32, c: char, v: bool, t: Tok)
    requires
        f < u32::MAX,
        c == ':' && t == Tok::Assign || c == '=' && t == Tok::Eq,
        stands(
            s,
            i,
            "x"@ + decimal(f as nat) + seq![' ', c, '=', ' '] + (if v {
                "1"@
            } else {
                "0"@
            }),
        ),
        stops(s, i + 1 + decimal(f as nat).len() + 5),
    ensures
        lexes(
            s,
            i,
            seq![Tok::Field(f)] + seq![t] + seq![bit_tok(v)],
            i + 1 + decimal(f as nat).len() + 5,
        ),
{
    reveal_strlit("x");
    reveal_strlit("0");
    reveal_strlit("1");
    let w = "x"@ + decimal(f as nat);
    let m = seq![' ', c, '=', ' '];
    let d = if v {
        "1"@
    } else {
        "0"@
    };
    let n: u64 = if v {
        1
    } else {
        0
    };
    lemma_stands(s, i, w + m, d);
    lemma_stands(s, i, w, m);
    let e = i + w.len();
    lemma_stands_at(s, e, m, 0);
    lemma_stands_at(s, e, m, 1);
    lemma_stands_at(s, e, m, 2);
    lemma_stands_at(s, e, m, 3);
    lemma_field(s, i, f);
    lemma_one(s, e + 1, t, e + 3);
    lemma_spaced(s, e, t, e + 3);
    assert(decimal(n as nat) == d);
    lemma_number(s, e + 4, n);
    lemma_lexes(s, i, seq![Tok::Field(f)], e, seq![t], e + 4);
    lemma_lexes(s, i, seq![Tok::Field(f)] + seq![t], e + 4, seq![bit_tok(v)], e + 5);
}

/// `x[f..g]`.
proof fn lemma_range_text(s: Seq<char>, i: int, f: u32, g: u32)
    requires
        stands(s, i, range_of(f, g)),
    ensures
        lexes(s, i, range_toks(f, g), i + range_of(f, g).len()),
{
    lemma_kept();
    reveal_strlit("x[");
    reveal_strlit("..");
    reveal_strlit("]");
    let a = decimal(f as nat);
    let b = decimal(g as nat);
    lemma_stands(s, i, "x["@ + a + ".."@ + b, "]"@);
    lemma_stands(s, i, "x["@ + a + ".."@, b);
    lemma_stands(s, i, "x["@ + a, ".."@);
    lemma_stands(s, i, "x["@, a);
    let j = i + 2;
    let k = j + a.len();
    let l = k + 2;
    let m = l + b.len();
    lemma_stands_at(s, i, "x["@, 0);
    lemma_stands_at(s, i, "x["@, 1);
    lemma_stands_at(s, k, ".."@, 0);
    lemma_stands_at(s, k, ".."@, 1);
    lemma_stands_at(s, m, "]"@, 0);
    assert(s.subrange(i, i + 1) =~= "x"@);
    lemma_word(s, i, "x"@, Tok::Bits);
    lemma_mark(s, i + 1, Tok::LBracket);
    lemma_number(s, j, f as u64);
    lemma_one(s, k, Tok::DotDot, l);
    lemma_number(s, l, g as u64);
    lemma_mark(s, m, Tok::RBracket);
    let t1 = seq![Tok::Bits] + seq![Tok::LBracket];
    let t2 = t1 + seq![Tok::Num(f as u64)];
    let t3 = t2 + seq![Tok::DotDot];
    lemma_lexes(s, i, seq![Tok::Bits], i + 1, seq![Tok::LBracket], j);
    lemma_lexes(s, i, t1, j, seq![Tok::Num(f as u64)], k);
    lemma_lexes(s, i, t2, k, seq![Tok::DotDot], l);
    lemma_lexes(s, i, t3, l, seq![Tok::Num(g as u64)], m);
    lemma_lexes(s, i, t3 + seq![Tok::Num(g as u64)], m, seq![Tok::RBracket], m + 1);
}

/// The places of what is between two brackets.
proof fn lemma_pair_parts(s: Seq<char>, i: int, a: Seq<char>, m: Seq<char>, b: Seq<char>)
    requires
        stands(s, i, "("@ + a + m + b + ")"@),
    ensures
        0 <= i < s.len(),
        s[i] == '(',
        stands(s, i + 1, a),
        stands(s, i + 1 + a.len(), m),
        stands(s, i + 1 + a.len() + m.len(), b),
        i + 1 + a.len() + m.len() + b.len() < s.len(),
        s[i + 1 + a.len() + m.len() + b.len()] == ')',
        ("("@ + a + m + b + ")"@).len() == a.len() + m.len() + b.len() + 2,
{
    reveal_strlit("(");
    reveal_strlit(")");
    lemma_stands(s, i, "("@ + a + m + b, ")"@);
    lemma_stands(s, i, "("@ + a + m, b);
    lemma_stands(s, i, "("@ + a, m);
    lemma_stands(s, i, "("@, a);
    lemma_stands_at(s, i, "("@, 0);
    lemma_stands_at(s, i + 1 + a.len() + m.len() + b.len(), ")"@, 0);
}

proof fn lemma_pair_lexes(
    s: Seq<char>,
    i: int,
    j: int,
    k: int,
    e: int,
    a: Seq<Tok>,
    o: Tok,
    b: Seq<Tok>,
)
    requires
        0 <= i < s.len(),
        0 <= e < s.len(),
        s[i] == '(',
        s[e] == ')',
        lexes(s, i + 1, a, j),
        lexes(s, j, seq![o], k),
        lexes(s, k, b, e),
    ensures
        lexes(s, i, paired(a, o, b), e + 1),
{
    lemma_mark(s, i, Tok::LParen);
    lemma_mark(s, e, Tok::RParen);
    lemma_lexes(s, i, seq![Tok::LParen], i + 1, a, j);
    lemma_lexes(s, i, seq![Tok::LParen] + a, j, seq![o], k);
    lemma_lexes(s, i, seq![Tok::LParen] + a + seq![o], k, b, e);
    lemma_lexes(s, i, seq![Tok::LParen] + a + seq![o] + b, e, seq![Tok::RParen], e + 1);
}

proof fn lemma_wrap_parts(s: Seq<char>, i: int, p: Seq<char>, a: Seq<char>, q: Seq<char>)
    requires
        stands(s, i, p + a + q),
    ensures
        stands(s, i, p),
        stands(s, i + p.len(), a),
        stands(s, i + p.len() + a.len(), q),
        (p + a + q).len() == p.len() + a.len() + q.len(),
{
    lemma_stands(s, i, p + a, q);
    lemma_stands(s, i, p, a);
}

proof fn lemma_wrap_lexes(s: Seq<char>, i: int, e: int, o: Tok, a: Seq<Tok>)
    requires
        0 <= i,
        i + 1 < s.len(),
        0 <= e < s.len(),
        lexes(s, i, seq![o], i + 1),
        s[i + 1] == '(',
        lexes(s, i + 2, a, e),
        s[e] == ')',
    ensures
        lexes(s, i, wrapped(o, a), e + 1),
{
    lemma_mark(s, i + 1, Tok::LParen);
    lemma_mark(s, e, Tok::RParen);
    lemma_lexes(s, i, seq![o], i + 1, seq![Tok::LParen], i + 2);
    lemma_lexes(s, i, seq![o] + seq![Tok::LParen], i + 2, a, e);
    lemma_lexes(s, i, seq![o] + seq![Tok::LParen] + a, e, seq![Tok::RParen], e + 1);
}

/// An operator between two operands.
proof fn lemma_printed_pair(s: Seq<char>, i: int, t: Term, a: Term, b: Term, c: char, o: Tok)
    requires
        decreases_to!(t => a),
        decreases_to!(t => b),
        printable(a),
        printable(b),
        text_of(t) == "("@ + text_of(a) + seq![' ', c, ' '] + text_of(b) + ")"@,
        toks_of(t) == paired(toks_of(a), o, toks_of(b)),
        c == '+' && o == Tok::Plus || c == '&' && o == Tok::Amp || c == '^' && o == Tok::Caret || c
            == '-' && o == Tok::Minus || c == ';' && o == Tok::Semi || c == 'U' && o
            == Tok::LtlUntil,
        stands(s, i, text_of(t)),
        stops(s, i + text_of(t).len()),
    ensures
        lexes(s, i, toks_of(t), i + text_of(t).len()),
    decreases t, 0nat,
{
    let e = i + text_of(t).len();
    let (ta, tb) = (text_of(a), text_of(b));
    let w = seq![' ', c, ' '];
    lemma_pair_parts(s, i, ta, w, tb);
    let j = i + 1 + ta.len();
    lemma_stands_at(s, j, w, 0);
    lemma_printed(s, i + 1, a);
    lemma_infix(s, j, c, o);
    lemma_printed(s, j + 3, b);
    lemma_pair_lexes(s, i, j, j + 3, e - 1, toks_of(a), o, toks_of(b));
}

/// An operator before its operand.
proof fn lemma_printed_wrap(s: Seq<char>, i: int, t: Term, a: Term, c: char, o: Tok)
    requires
        decreases_to!(t => a),
        printable(a),
        text_of(t) == seq![c, '('] + text_of(a) + ")"@,
        toks_of(t) == wrapped(o, toks_of(a)),
        c == '~' && o == Tok::Tilde || c == '!' && o == Tok::Bang || c == 'X' && o == Tok::LtlNext,
        stands(s, i, text_of(t)),
        stops(s, i + text_of(t).len()),
    ensures
        lexes(s, i, toks_of(t), i + text_of(t).len()),
    decreases t, 0nat,
{
    let e = i + text_of(t).len();
    let w = seq![c, '('];
    reveal_strlit(")");
    lemma_wrap_parts(s, i, w, text_of(a), ")"@);
    lemma_stands_at(s, i, w, 0);
    lemma_stands_at(s, i, w, 1);
    lemma_stands_at(s, e - 1, ")"@, 0);
    lemma_printed(s, i + 2, a);
    if c == 'X' {
        lemma_kept();
        assert(s.subrange(i, i + 1) =~= "X"@);
        lemma_word(s, i, "X"@, Tok::LtlNext);
    } else {
        lemma_mark(s, i, o);
    }
    lemma_wrap_lexes(s, i, e - 1, o, toks_of(a));
}

/// Brackets and a star.
proof fn lemma_printed_star(s: Seq<char>, i: int, t: Term)
    requires
        t is Star,
        printable(t),
        stands(s, i, text_of(t)),
        stops(s, i + text_of(t).len()),
    ensures
        lexes(s, i, toks_of(t), i + text_of(t).len()),
    decreases t, 0nat,
{
    let e = i + text_of(t).len();
    lemma_kept();
    reveal_strlit("");
    if let Term::Star(a) = t {
            reveal_strlit("(");
            reveal_strlit(")*");
            lemma_wrap_parts(s, i, "("@, text_of(*a), ")*"@);
            lemma_stands_at(s, i, "("@, 0);
            lemma_stands_at(s, e - 2, ")*"@, 0);
            lemma_stands_at(s, e - 2, ")*"@, 1);
            lemma_printed(s, i + 1, *a);
            let ta = toks_of(*a);
            lemma_mark(s, i, Tok::LParen);
            lemma_mark(s, e - 2, Tok::RParen);
            lemma_mark(s, e - 1, Tok::Star);
            lemma_lexes(s, i, seq![Tok::LParen], i + 1, ta, e - 2);
            lemma_lexes(s, i, seq![Tok::LParen] + ta, e - 2, seq![Tok::RParen], e - 1);
            lemma_lexes(
                s,
                i,
                seq![Tok::LParen] + ta + seq![Tok::RParen],
                e - 1,
                seq![Tok::Star],
                e,
            );
    }
}

/// A conditional.
proof fn lemma_printed_if(s: Seq<char>, i: int, t: Term)
    requires
        t is IfThenElse,
        printable(t),
        stands(s, i, text_of(t)),
        stops(s, i + text_of(t).len()),
    ensures
        lexes(s, i, toks_of(t), i + text_of(t).len()),
    decreases t, 0nat,
{
    let e = i + text_of(t).len();
    lemma_kept();
    reveal_strlit("");
    if let Term::IfThenElse(a, b, c) = t {
            reveal_strlit("if ");
            reveal_strlit(" then ");
            reveal_strlit(" else ");
            let (ta, tb, tc) = (text_of(*a), text_of(*b), text_of(*c));
            assert("if "@ =~= "if"@ + seq![' ']);
            assert(" then "@ =~= seq![' '] + "then"@ + seq![' ']);
            assert(" else "@ =~= seq![' '] + "else"@ + seq![' ']);
            let body = "if "@ + ta + " then "@ + tb;
            assert(text_of(t) =~= body + " else "@ + tc);
            lemma_wrap_parts(s, i, body, " else "@, tc);
            lemma_wrap_parts(s, i, "if "@ + ta, " then "@, tb);
            lemma_stands(s, i, "if "@, ta);
            let j = i + 3;
            let k = j + ta.len();
            let l = k + 6;
            let m = l + tb.len();
            lemma_stands_at(s, k, " then "@, 0);
            lemma_stands_at(s, m, " else "@, 0);
            lemma_printed(s, j, *a);
            lemma_printed(s, l, *b);
            lemma_printed(s, m + 6, *c);
            lemma_first(s, i, "if"@, Tok::If);
            lemma_key(s, k, "then"@, Tok::Then);
            lemma_key(s, m, "else"@, Tok::Else);
            let t1 = seq![Tok::If] + toks_of(*a);
            let t2 = t1 + seq![Tok::Then];
            let t3 = t2 + toks_of(*b);
            lemma_lexes(s, i, seq![Tok::If], j, toks_of(*a), k);
            lemma_lexes(s, i, t1, k, seq![Tok::Then], l);
            lemma_lexes(s, i, t2, l, toks_of(*b), m);
            lemma_lexes(s, i, t3, m, seq![Tok::Else], m + 6);
            lemma_lexes(s, i, t3 + seq![Tok::Else], m + 6, toks_of(*c), e);
    }
}

/// A name for an expression.
proof fn lemma_printed_let(s: Seq<char>, i: int, t: Term)
    requires
        t is Let,
        printable(t),
        stands(s, i, text_of(t)),
        stops(s, i + text_of(t).len()),
    ensures
        lexes(s, i, toks_of(t), i + text_of(t).len()),
    decreases t, 0nat,
{
    let e = i + text_of(t).len();
    lemma_kept();
    reveal_strlit("");
    if let Term::Let(x, a, b) = t {
            reveal_strlit("let ");
            reveal_strlit(" = ");
            reveal_strlit(" in ");
            let (ta, tb) = (text_of(*a), text_of(*b));
            assert("let "@ =~= "let"@ + seq![' ']);
            assert(" = "@ =~= seq![' ', '=', ' ']);
            assert(" in "@ =~= seq![' '] + "in"@ + seq![' ']);
            let head = "let "@ + x + " = "@;
            assert(text_of(t) =~= head + ta + " in "@ + tb);
            lemma_wrap_parts(s, i, head + ta, " in "@, tb);
            lemma_wrap_parts(s, i, "let "@ + x, " = "@, ta);
            lemma_stands(s, i, "let "@, x);
            let j = i + 4;
            let k = j + x.len();
            let l = k + 3;
            let m = l + ta.len();
            lemma_stands_at(s, k, " = "@, 0);
            lemma_stands_at(s, m, " in "@, 0);
            lemma_first(s, i, "let"@, Tok::Let);
            lemma_word(s, j, x, Tok::Ident(x));
            lemma_infix(s, k, '=', Tok::Eq);
            lemma_printed(s, l, *a);
            lemma_key(s, m, "in"@, Tok::In);
            lemma_printed(s, m + 4, *b);
            let t1 = seq![Tok::Let] + seq![Tok::Ident(x)];
            let t2 = t1 + seq![Tok::Eq];
            let t3 = t2 + toks_of(*a);
            lemma_lexes(s, i, seq![Tok::Let], j, seq![Tok::Ident(x)], k);
            lemma_lexes(s, i, t1, k, seq![Tok::Eq], l);
            lemma_lexes(s, i, t2, l, toks_of(*a), m);
            lemma_lexes(s, i, t3, m, seq![Tok::In], m + 4);
            lemma_lexes(s, i, t3 + seq![Tok::In], m + 4, toks_of(*b), e);
    }
}

/// A name for a range.
proof fn lemma_printed_range(s: Seq<char>, i: int, t: Term)
    requires
        t is LetBitRange,
        printable(t),
        stands(s, i, text_of(t)),
        stops(s, i + text_of(t).len()),
    ensures
        lexes(s, i, toks_of(t), i + text_of(t).len()),
    decreases t, 0nat,
{
    let e = i + text_of(t).len();
    lemma_kept();
    reveal_strlit("");
    if let Term::LetBitRange(x, f, g, a) = t {
            reveal_strlit("let ");
            reveal_strlit(" = &");
            reveal_strlit(" in ");
            let (r, ta) = (range_of(f, g), text_of(*a));
            assert("let "@ =~= "let"@ + seq![' ']);
            assert(" = &"@ =~= seq![' ', '=', ' '] + seq!['&']);
            assert(" in "@ =~= seq![' '] + "in"@ + seq![' ']);
            let head = "let "@ + x + " = &"@;
            assert(text_of(t) =~= head + r + " in "@ + ta);
            lemma_wrap_parts(s, i, head + r, " in "@, ta);
            lemma_wrap_parts(s, i, "let "@ + x, " = &"@, r);
            lemma_stands(s, i, "let "@, x);
            let j = i + 4;
            let k = j + x.len();
            let l = k + 4;
            let m = l + r.len();
            lemma_stands(s, k, seq![' ', '=', ' '], seq!['&']);
            lemma_stands_at(s, k, " = &"@, 0);
            lemma_stands_at(s, k, " = &"@, 3);
            lemma_stands_at(s, m, " in "@, 0);
            lemma_first(s, i, "let"@, Tok::Let);
            lemma_word(s, j, x, Tok::Ident(x));
            lemma_infix(s, k, '=', Tok::Eq);
            lemma_mark(s, k + 3, Tok::Amp);
            lemma_range_text(s, l, f, g);
            lemma_key(s, m, "in"@, Tok::In);
            lemma_printed(s, m + 4, *a);
            let t1 = seq![Tok::Let] + seq![Tok::Ident(x)];
            let t2 = t1 + seq![Tok::Eq];
            let t3 = t2 + seq![Tok::Amp];
            let t4 = t3 + range_toks(f, g);
            lemma_lexes(s, i, seq![Tok::Let], j, seq![Tok::Ident(x)], k);
            lemma_lexes(s, i, t1, k, seq![Tok::Eq], k + 3);
            lemma_lexes(s, i, t2, k + 3, seq![Tok::Amp], l);
            lemma_lexes(s, i, t3, l, range_toks(f, g), m);
            lemma_lexes(s, i, t4, m, seq![Tok::In], m + 4);
            lemma_lexes(s, i, t4 + seq![Tok::In], m + 4, toks_of(*a), e);
    }
}

/// The text form has these tokens.
proof fn lemma_printed(s: Seq<char>, i: int, t: Term)
    requires
        printable(t),
        stands(s, i, text_of(t)),
        stops(s, i + text_of(t).len()),
    ensures
        lexes(s, i, toks_of(t), i + text_of(t).len()),
    decreases t, 1nat,
{
    let e = i + text_of(t).len();
    lemma_kept();
    reveal_strlit("0");
    reveal_strlit("1");
    reveal_strlit("");
    match t {
        Term::Zero => {
            assert(decimal(0) == "0"@);
            lemma_number(s, i, 0);
        },
        Term::One => {
            assert(decimal(1) == "1"@);
            lemma_number(s, i, 1);
        },
        Term::Top => lemma_word(s, i, "T"@, Tok::Top),
        Term::Dup => lemma_word(s, i, "dup"@, Tok::Dup),
        Term::Var(x) => lemma_word(s, i, x, Tok::Ident(x)),
        Term::Assign(f, v) => {
            reveal_strlit(" := ");
            let d = if v {
                "1"@
            } else {
                "0"@
            };
            assert(" := "@ =~= seq![' ', ':', '=', ' ']);
            assert(text_of(t) =~= "x"@ + decimal(f as nat) + seq![' ', ':', '=', ' '] + d);
            lemma_bit_text(s, i, f, ':', v, Tok::Assign);
        },
        Term::Test(f, v) => {
            reveal_strlit(" == ");
            let d = if v {
                "1"@
            } else {
                "0"@
            };
            assert(" == "@ =~= seq![' ', '=', '=', ' ']);
            assert(text_of(t) =~= "x"@ + decimal(f as nat) + seq![' ', '=', '=', ' '] + d);
            lemma_bit_text(s, i, f, '=', v, Tok::Eq);
        },
        Term::Union(a, b) => {
            reveal_strlit(" + ");
            assert(" + "@ =~= seq![' ', '+', ' ']);
            lemma_printed_pair(s, i, t, *a, *b, '+', Tok::Plus);
        },
        Term::Intersect(a, b) => {
            reveal_strlit(" & ");
            assert(" & "@ =~= seq![' ', '&', ' ']);
            lemma_printed_pair(s, i, t, *a, *b, '&', Tok::Amp);
        },
        Term::Xor(a, b) => {
            reveal_strlit(" ^ ");
            assert(" ^ "@ =~= seq![' ', '^', ' ']);
            lemma_printed_pair(s, i, t, *a, *b, '^', Tok::Caret);
        },
        Term::Difference(a, b) => {
            reveal_strlit(" - ");
            assert(" - "@ =~= seq![' ', '-', ' ']);
            lemma_printed_pair(s, i, t, *a, *b, '-', Tok::Minus);
        },
        Term::Sequence(a, b) => {
            reveal_strlit(" ; ");
            assert(" ; "@ =~= seq![' ', ';', ' ']);
            lemma_printed_pair(s, i, t, *a, *b, ';', Tok::Semi);
        },
        Term::LtlUntil(a, b) => {
            reveal_strlit(" U ");
            assert(" U "@ =~= seq![' ', 'U', ' ']);
            lemma_printed_pair(s, i, t, *a, *b, 'U', Tok::LtlUntil);
        },
        Term::Complement(a) => {
            reveal_strlit("~(");
            assert("~("@ =~= seq!['~', '(']);
            lemma_printed_wrap(s, i, t, *a, '~', Tok::Tilde);
        },
        Term::TestNegation(a) => {
            reveal_strlit("!(");
            assert("!("@ =~= seq!['!', '(']);
            lemma_printed_wrap(s, i, t, *a, '!', Tok::Bang);
        },
        Term::LtlNext(a) => {
            reveal_strlit("X(");
            assert("X("@ =~= seq!['X', '(']);
            lemma_printed_wrap(s, i, t, *a, 'X', Tok::LtlNext);
        },
        Term::Star(_) => lemma_printed_star(s, i, t),
        Term::IfThenElse(_, _, _) => lemma_printed_if(s, i, t),
        Term::Let(_, _, _) => lemma_printed_let(s, i, t),
        Term::LetBitRange(_, _, _, _) => lemma_printed_range(s, i, t),
        _ => {},
    }
}

/// What may follow the expression where it is read as a whole.
spec fn follows(t: Term, u: Seq<Tok>, e: int) -> bool {
    &&& closes(u[e]) || joins(u[e]) && !trails(t)
    &&& u[e] == Tok::Eq ==> !ends_in_name(t) || value_bits(at(u, e + 1)) is None
}

/// An expression that an end follows.
proof fn lemma_to_end(u: Seq<Tok>, i: int, x: Term, j: int)
    requires
        0 <= i < j < u.len(),
        expr_at(u, i, 4) == Ok::<(Term, int), int>((x, j)),
        closes(u[j]),
    ensures
        expr_at(u, i, 0) == Ok::<(Term, int), int>((x, j)),
{
    lemma_looser(u, i, 4, 0, x, j);
}

/// An operator between two operands in brackets.
proof fn lemma_reread_pair(u: Seq<Tok>, q: int, t: Term, a: Term, b: Term, o: Tok)
    requires
        decreases_to!(t => a),
        decreases_to!(t => b),
        printable(a),
        printable(b),
        !trails(a),
        joins(o),
        t == if o == Tok::LtlUntil {
            Term::LtlUntil(Box::new(a), Box::new(b))
        } else {
            combined(o, a, b)
        },
        toks_of(t) == paired(toks_of(a), o, toks_of(b)),
        stands(u, q, toks_of(t)),
        q + toks_of(t).len() < u.len(),
        follows(t, u, q + toks_of(t).len()),
    ensures
        toks_of(t).len() > 0,
        expr_at(u, q, 4) == Ok::<(Term, int), int>((t, q + toks_of(t).len())),
    decreases t, 0nat,
{
    let (ta, tb) = (toks_of(a), toks_of(b));
    let (l, m, r) = (seq![Tok::LParen], seq![o], seq![Tok::RParen]);
    lemma_stands(u, q, l + ta + m + tb, r);
    lemma_stands(u, q, l + ta + m, tb);
    lemma_stands(u, q, l + ta, m);
    lemma_stands(u, q, l, ta);
    let j = q + 1 + ta.len();
    let k = j + 1 + tb.len();
    lemma_stands_at(u, q, l, 0);
    lemma_stands_at(u, j, m, 0);
    lemma_stands_at(u, k, r, 0);
    lemma_reread(u, q + 1, a);
    lemma_reread(u, j + 1, b);
    if o == Tok::LtlUntil {
        lemma_looser(u, q + 1, 4, 1, a, j);
        lemma_to_end(u, j + 1, b, k);
    } else {
        lemma_operands(u, q + 1, a, j, b, k);
    }
    assert(expr_at(u, q + 1, 0) == Ok::<(Term, int), int>((t, k)));
    assert(u[k + 1] != Tok::Star);
    assert(starred(u, k + 1, t) == (t, k + 1));
    assert(q + toks_of(t).len() == k + 1);
}

/// An operator before its operand.
proof fn lemma_reread_wrap(u: Seq<Tok>, q: int, t: Term, a: Term, o: Tok)
    requires
        decreases_to!(t => a),
        printable(a),
        o == Tok::Tilde && t == Term::Complement(Box::new(a)) || o == Tok::Bang && t
            == Term::TestNegation(Box::new(a)) || o == Tok::LtlNext && t == Term::LtlNext(
            Box::new(a),
        ),
        toks_of(t) == wrapped(o, toks_of(a)),
        stands(u, q, toks_of(t)),
        q + toks_of(t).len() < u.len(),
        follows(t, u, q + toks_of(t).len()),
    ensures
        toks_of(t).len() > 0,
        expr_at(u, q, 4) == Ok::<(Term, int), int>((t, q + toks_of(t).len())),
    decreases t, 0nat,
{
    let ta = toks_of(a);
    let (p, l, r) = (seq![o], seq![Tok::LParen], seq![Tok::RParen]);
    lemma_stands(u, q, p + l + ta, r);
    lemma_stands(u, q, p + l, ta);
    lemma_stands(u, q, p, l);
    let j = q + 2 + ta.len();
    lemma_stands_at(u, q, p, 0);
    lemma_stands_at(u, q + 1, l, 0);
    lemma_stands_at(u, j, r, 0);
    lemma_reread(u, q + 2, a);
    lemma_to_end(u, q + 2, a, j);
    assert(starred(u, j + 1, a) == (a, j + 1));
    assert(expr_at(u, q + 1, 4) == Ok::<(Term, int), int>((a, j + 1)));
    assert(q + toks_of(t).len() == j + 1);
}

/// Brackets and a star.
proof fn lemma_reread_star(u: Seq<Tok>, q: int, t: Term)
    requires
        t is Star,
        printable(t),
        stands(u, q, toks_of(t)),
        q + toks_of(t).len() < u.len(),
        follows(t, u, q + toks_of(t).len()),
    ensures
        toks_of(t).len() > 0,
        expr_at(u, q, 4) == Ok::<(Term, int), int>((t, q + toks_of(t).len())),
    decreases t, 0nat,
{
    let e = q + toks_of(t).len();
    if let Term::Star(a) = t {
        let ta = toks_of(*a);
        let (l, r, p) = (seq![Tok::LParen], seq![Tok::RParen], seq![Tok::Star]);
        lemma_stands(u, q, l + ta + r, p);
        lemma_stands(u, q, l + ta, r);
        lemma_stands(u, q, l, ta);
        let j = q + 1 + ta.len();
        lemma_stands_at(u, q, l, 0);
        lemma_stands_at(u, j, r, 0);
        lemma_stands_at(u, j + 1, p, 0);
        lemma_reread(u, q + 1, *a);
        lemma_to_end(u, q + 1, *a, j);
        assert(starred(u, j + 2, t) == (t, j + 2));
        assert(starred(u, j + 1, *a) == (t, j + 2));
        assert(e == j + 2);
    }
}

/// A conditional.
proof fn lemma_reread_if(u: Seq<Tok>, q: int, t: Term)
    requires
        t is IfThenElse,
        printable(t),
        stands(u, q, toks_of(t)),
        q + toks_of(t).len() < u.len(),
        follows(t, u, q + toks_of(t).len()),
    ensures
        toks_of(t).len() > 0,
        expr_at(u, q, 4) == Ok::<(Term, int), int>((t, q + toks_of(t).len())),
    decreases t, 0nat,
{
    let e = q + toks_of(t).len();
    if let Term::IfThenElse(a, b, c) = t {
        let (ta, tb, tc) = (toks_of(*a), toks_of(*b), toks_of(*c));
        let (p, m, n) = (seq![Tok::If], seq![Tok::Then], seq![Tok::Else]);
        lemma_stands(u, q, p + ta + m + tb + n, tc);
        lemma_stands(u, q, p + ta + m + tb, n);
        lemma_stands(u, q, p + ta + m, tb);
        lemma_stands(u, q, p + ta, m);
        lemma_stands(u, q, p, ta);
        let j = q + 1 + ta.len();
        let k = j + 1 + tb.len();
        lemma_stands_at(u, q, p, 0);
        lemma_stands_at(u, j, m, 0);
        lemma_stands_at(u, k, n, 0);
        assert(e == k + 1 + tc.len());
        lemma_reread(u, q + 1, *a);
        lemma_to_end(u, q + 1, *a, j);
        lemma_reread(u, j + 1, *b);
        lemma_to_end(u, j + 1, *b, k);
        lemma_reread(u, k + 1, *c);
        lemma_to_end(u, k + 1, *c, e);
    }
}

/// A name for an expression.
proof fn lemma_reread_let(u: Seq<Tok>, q: int, t: Term)
    requires
        t is Let,
        printable(t),
        stands(u, q, toks_of(t)),
        q + toks_of(t).len() < u.len(),
        follows(t, u, q + toks_of(t).len()),
    ensures
        toks_of(t).len() > 0,
        expr_at(u, q, 4) == Ok::<(Term, int), int>((t, q + toks_of(t).len())),
    decreases t, 0nat,
{
    let e = q + toks_of(t).len();
    if let Term::Let(x, a, b) = t {
        let (ta, tb) = (toks_of(*a), toks_of(*b));
        let (p, n, m, i) = (seq![Tok::Let], seq![Tok::Ident(x)], seq![Tok::Eq], seq![Tok::In]);
        lemma_stands(u, q, p + n + m + ta + i, tb);
        lemma_stands(u, q, p + n + m + ta, i);
        lemma_stands(u, q, p + n + m, ta);
        lemma_stands(u, q, p + n, m);
        lemma_stands(u, q, p, n);
        let j = q + 3 + ta.len();
        lemma_stands_at(u, q, p, 0);
        lemma_stands_at(u, q + 1, n, 0);
        lemma_stands_at(u, q + 2, m, 0);
        lemma_stands_at(u, j, i, 0);
        assert(e == j + 1 + tb.len());
        lemma_reread(u, q + 3, *a);
        lemma_to_end(u, q + 3, *a, j);
        lemma_reread(u, j + 1, *b);
        lemma_to_end(u, j + 1, *b, e);
        if u[q + 3] == Tok::Amp {
            assert(expr_at(u, q + 3, 4) is Err);
        }
    }
}

/// A name for a range.
proof fn lemma_reread_range(u: Seq<Tok>, q: int, t: Term)
    requires
        t is LetBitRange,
        printable(t),
        stands(u, q, toks_of(t)),
        q + toks_of(t).len() < u.len(),
        follows(t, u, q + toks_of(t).len()),
    ensures
        toks_of(t).len() > 0,
        expr_at(u, q, 4) == Ok::<(Term, int), int>((t, q + toks_of(t).len())),
    decreases t, 0nat,
{
    let e = q + toks_of(t).len();
    if let Term::LetBitRange(x, f, g, a) = t {
        let (tr, ta) = (range_toks(f, g), toks_of(*a));
        let (p, n, m, i) = (seq![Tok::Let], seq![Tok::Ident(x)], seq![Tok::Eq], seq![Tok::In]);
        let h = seq![Tok::Amp];
        lemma_stands(u, q, p + n + m + h + tr + i, ta);
        lemma_stands(u, q, p + n + m + h + tr, i);
        lemma_stands(u, q, p + n + m + h, tr);
        lemma_stands(u, q, p + n + m, h);
        lemma_stands(u, q, p + n, m);
        lemma_stands(u, q, p, n);
        let j = q + 10;
        lemma_stands_at(u, q, p, 0);
        lemma_stands_at(u, q + 1, n, 0);
        lemma_stands_at(u, q + 2, m, 0);
        lemma_stands_at(u, q + 3, h, 0);
        lemma_stands_at(u, q + 4, tr, 0);
        lemma_stands_at(u, q + 4, tr, 1);
        lemma_stands_at(u, q + 4, tr, 2);
        lemma_stands_at(u, q + 4, tr, 3);
        lemma_stands_at(u, q + 4, tr, 4);
        lemma_stands_at(u, q + 4, tr, 5);
        lemma_stands_at(u, j, i, 0);
        assert(e == j + 1 + ta.len());
        assert(range_at(u, q + 4) == Ok::<((u32, u32), int), int>(((f, g), j)));
        lemma_reread(u, j + 1, *a);
        lemma_to_end(u, j + 1, *a, e);
    }
}

/// The tokens of the text form are read as the expression.
proof fn lemma_reread(u: Seq<Tok>, q: int, t: Term)
    requires
        printable(t),
        stands(u, q, toks_of(t)),
        q + toks_of(t).len() < u.len(),
        follows(t, u, q + toks_of(t).len()),
    ensures
        toks_of(t).len() > 0,
        expr_at(u, q, 4) == Ok::<(Term, int), int>((t, q + toks_of(t).len())),
    decreases t, 1nat,
{
    let e = q + toks_of(t).len();
    match t {
        Term::Zero | Term::One | Term::Top | Term::Dup | Term::Var(_) => {
            lemma_stands_at(u, q, toks_of(t), 0);
            assert(starred(u, e, t) == (t, e));
        },
        Term::Assign(_, _) | Term::Test(_, _) => {
            lemma_stands_at(u, q, toks_of(t), 0);
            lemma_stands_at(u, q, toks_of(t), 1);
            lemma_stands_at(u, q, toks_of(t), 2);
            assert(starred(u, e, t) == (t, e));
        },
        Term::Union(a, b) => lemma_reread_pair(u, q, t, *a, *b, Tok::Plus),
        Term::Intersect(a, b) => lemma_reread_pair(u, q, t, *a, *b, Tok::Amp),
        Term::Xor(a, b) => lemma_reread_pair(u, q, t, *a, *b, Tok::Caret),
        Term::Difference(a, b) => lemma_reread_pair(u, q, t, *a, *b, Tok::Minus),
        Term::Sequence(a, b) => lemma_reread_pair(u, q, t, *a, *b, Tok::Semi),
        Term::LtlUntil(a, b) => lemma_reread_pair(u, q, t, *a, *b, Tok::LtlUntil),
        Term::Complement(a) => lemma_reread_wrap(u, q, t, *a, Tok::Tilde),
        Term::TestNegation(a) => lemma_reread_wrap(u, q, t, *a, Tok::Bang),
        Term::LtlNext(a) => lemma_reread_wrap(u, q, t, *a, Tok::LtlNext),
        Term::Star(_) => lemma_reread_star(u, q, t),
        Term::IfThenElse(_, _, _) => lemma_reread_if(u, q, t),
        Term::Let(_, _, _) => lemma_reread_let(u, q, t),
        Term::LetBitRange(_, _, _, _) => lemma_reread_range(u, q, t),
        _ => {},
    }
}

/// Printing and reading back agree: the text form of an expression is read as that
/// expression.
pub proof fn law_read_printed(t: Term)
    requires
        printable(t),
    ensures
        reads_as(text_of(t), t),
{
    let s = text_of(t);
    let ts = toks_of(t);
    assert(s.subrange(0, s.len() as int) =~= s);
    lemma_printed(s, 0, t);
    lemma_all_lexes(s, ts);
    let u = toks_from(s, 0);
    assert(u == ts + seq![Tok::Eof]);
    assert(stands(u, 0, ts)) by {
        assert(u.subrange(0, ts.len() as int) =~= ts);
    }
    lemma_reread(u, 0, t);
    lemma_to_end(u, 0, t, ts.len() as int);
    assert(u[0] != Tok::Eof) by {
        if u[0] == Tok::Eof {
            assert(expr_at(u, 0, 4) is Err);
        }
    }
    lemma_whole(s, t);
}
/// Two expressions with the same text form are the same.
pub proof fn law_printed_apart(a: Term, b: Term)
    requires
        printable(a),
        printable(b),
        text_of(a) == text_of(b),
    ensures
        a == b,
{
    law_read_printed(a);
    law_read_printed(b);
    assert(seq![a][0] == seq![b][0]);
}

/// The node of an operator's character.
pub open spec fn node(c: char, x: Term, y: Term) -> Term {
    if c == '+' {
        Term::Union(Box::new(x), Box::new(y))
    } else if c == '&' {
        Term::Intersect(Box::new(x), Box::new(y))
    } else if c == '^' {
        Term::Xor(Box::new(x), Box::new(y))
    } else if c == '-' {
        Term::Difference(Box::new(x), Box::new(y))
    } else if c == ';' {
        Term::Sequence(Box::new(x), Box::new(y))
    } else {
        Term::LtlUntil(Box::new(x), Box::new(y))
    }
}

/// The characters between operands.
pub open spec fn is_operator(c: char) -> bool {
    c == '+' || c == '&' || c == '^' || c == '-' || c == ';' || c == 'U'
}

/// After `c`, what `d` joins is joined first: `&` before all others, then `+`, `^` and `-`,
/// then `;`, and `U` last, from the right.
pub open spec fn joins_first(c: char, d: char) -> bool {
    if c == 'U' {
        true
    } else if c == ';' {
        d == '&' || d == '+' || d == '^' || d == '-'
    } else if c == '&' {
        false
    } else {
        d == '&'
    }
}

spec fn tok_of(c: char) -> Tok {
    if c == '+' {
        Tok::Plus
    } else if c == '&' {
        Tok::Amp
    } else if c == '^' {
        Tok::Caret
    } else if c == '-' {
        Tok::Minus
    } else if c == ';' {
        Tok::Semi
    } else {
        Tok::LtlUntil
    }
}

proof fn lemma_operator_char(s: Seq<char>, i: int)
    requires
        0 <= i,
        i + 1 < s.len(),
        is_operator(s[i]),
        s[i + 1] == '(',
    ensures
        middle(s, i, tok_of(s[i])),
{
    if s[i] == 'U' {
        lemma_letter(s, i);
    }
}

/// Three operands in brackets.
#[verifier::rlimit(40)]
proof fn lemma_chain(u: Seq<Tok>, c: char, d: char, x: Term, y: Term, z: Term, j: int, k: int)
    requires
        is_operator(c),
        is_operator(d),
        0 < j,
        j + 1 < k,
        k + 2 < u.len(),
        u[j] == tok_of(c),
        u[k] == tok_of(d),
        u.last() == Tok::Eof,
        expr_at(u, 0, 4) == Ok::<(Term, int), int>((x, j)),
        expr_at(u, j + 1, 4) == Ok::<(Term, int), int>((y, k)),
        expr_at(u, k + 1, 4) == Ok::<(Term, int), int>((z, u.len() - 1)),
    ensures
        expr_at(u, 0, 0) == Ok::<(Term, int), int>(
            (
                if joins_first(c, d) {
                    node(c, x, node(d, y, z))
                } else {
                    node(d, node(c, x, y), z)
                },
                u.len() - 1,
            ),
        ),
{
    let e = u.len() - 1;
    let (m, n) = (level_of(u[j]), level_of(u[k]));
    if c == 'U' {
        if d == 'U' {
            lemma_looser(u, j + 1, 4, 1, y, k);
            lemma_looser(u, k + 1, 4, 0, z, e);
        } else {
            lemma_operands(u, j + 1, y, k, z, e);
        }
        lemma_looser(u, 0, 4, 1, x, j);
    } else {
        let v = node(c, x, y);
        let w = node(d, y, z);
        lemma_looser(u, 0, 4, (m + 1) as nat, x, j);
        if d == 'U' {
            lemma_looser(u, j + 1, 4, (m + 1) as nat, y, k);
            assert(rest_at(u, k, m, v) == Ok::<(Term, int), int>((v, k)));
            assert(rest_at(u, j, m, x) == Ok::<(Term, int), int>((v, k)));
            assert(expr_at(u, 0, m) == Ok::<(Term, int), int>((v, k)));
            lemma_looser(u, 0, m, 1, v, k);
            lemma_looser(u, k + 1, 4, 0, z, e);
        } else if joins_first(c, d) {
            let r = node(c, x, w);
            lemma_looser(u, j + 1, 4, (n + 1) as nat, y, k);
            lemma_looser(u, k + 1, 4, (n + 1) as nat, z, e);
            assert(rest_at(u, e, n, w) == Ok::<(Term, int), int>((w, e)));
            assert(rest_at(u, k, n, y) == Ok::<(Term, int), int>((w, e)));
            assert(expr_at(u, j + 1, n) == Ok::<(Term, int), int>((w, e)));
            lemma_looser(u, j + 1, n, (m + 1) as nat, w, e);
            assert(rest_at(u, e, m, r) == Ok::<(Term, int), int>((r, e)));
            assert(rest_at(u, j, m, x) == Ok::<(Term, int), int>((r, e)));
            assert(expr_at(u, 0, m) == Ok::<(Term, int), int>((r, e)));
            lemma_looser(u, 0, m, 0, r, e);
        } else {
            let r = node(d, v, z);
            lemma_looser(u, j + 1, 4, (m + 1) as nat, y, k);
            lemma_looser(u, k + 1, 4, (n + 1) as nat, z, e);
            assert(rest_at(u, e, n, r) == Ok::<(Term, int), int>((r, e)));
            assert(rest_at(u, k, n, v) == Ok::<(Term, int), int>((r, e)));
            if m > n {
                assert(rest_at(u, k, m, v) == Ok::<(Term, int), int>((v, k)));
                assert(rest_at(u, j, m, x) == Ok::<(Term, int), int>((v, k)));
                assert(expr_at(u, 0, m) == Ok::<(Term, int), int>((v, k)));
                lemma_looser(u, 0, m, (n + 1) as nat, v, k);
            } else {
                assert(m == n);
                assert(rest_at(u, j, m, x) == Ok::<(Term, int), int>((r, e)));
            }
            assert(expr_at(u, 0, n) == Ok::<(Term, int), int>((r, e)));
            lemma_looser(u, 0, n, 0, r, e);
        }
    }
}

/// Three texts in brackets, with a character after each but the last.
pub open spec fn chain(
    a: Seq<char>,
    c: char,
    b: Seq<char>,
    d: char,
    e: Seq<char>,
) -> Seq<char> {
    bracketed(a) + seq![c] + bracketed(b) + seq![d] + bracketed(e)
}

proof fn lemma_chain_lexes(
    a: Seq<char>,
    c: char,
    b: Seq<char>,
    d: char,
    e: Seq<char>,
    x: Term,
    y: Term,
    z: Term,
)
    requires
        reads_as(a, x),
        reads_as(b, y),
        reads_as(e, z),
        is_operator(c),
        is_operator(d),
    ensures
        tokens_from(chain(a, c, b, d, e), 0) is Ok,
        toks_from(chain(a, c, b, d, e), 0) == group(toks_from(a, 0)) + seq![tok_of(c)] + group(
            toks_from(b, 0),
        ) + seq![tok_of(d)] + group(toks_from(e, 0)) + seq![Tok::Eof],
{
    let s = chain(a, c, b, d, e);
    let (ba, bb, be) = (bracketed(a), bracketed(b), bracketed(e));
    let (ga, gb, ge) = (
        group(toks_from(a, 0)),
        group(toks_from(b, 0)),
        group(toks_from(e, 0)),
    );
    let m = a.len() as int + 3;
    let n = m + 1 + b.len() + 3;
    let l = s.len() as int;
    assert(s.subrange(0, l) =~= s);
    assert(stands(s, 0, ba + seq![c] + bb + seq![d] + be));
    lemma_stands(s, 0, ba + seq![c] + bb + seq![d], be);
    lemma_stands(s, 0, ba + seq![c] + bb, seq![d]);
    lemma_stands(s, 0, ba + seq![c], bb);
    lemma_stands(s, 0, ba, seq![c]);
    assert(ba.len() == m && bb.len() == b.len() + 3 && be.len() == e.len() + 3);
    lemma_stands_at(s, m, seq![c], 0);
    lemma_stands_at(s, m + 1, bb, 0);
    lemma_stands_at(s, n, seq![d], 0);
    lemma_stands_at(s, n + 1, be, 0);
    lemma_operator_char(s, m);
    lemma_operator_char(s, n);
    lemma_group_lexes(s, 0, a, x);
    lemma_middle(s, m, tok_of(c));
    lemma_group_lexes(s, m + 1, b, y);
    lemma_middle(s, n, tok_of(d));
    lemma_group_lexes(s, n + 1, e, z);
    let t1 = ga + seq![tok_of(c)];
    let t2 = t1 + gb;
    let t3 = t2 + seq![tok_of(d)];
    lemma_lexes(s, 0, ga, m, seq![tok_of(c)], m + 1);
    lemma_lexes(s, 0, t1, m + 1, gb, n);
    lemma_lexes(s, 0, t2, n, seq![tok_of(d)], n + 1);
    lemma_lexes(s, 0, t3, n + 1, ge, l);
    lemma_all_lexes(s, t3 + ge);
}

proof fn lemma_chain_parts(u: Seq<Tok>, a: Seq<Tok>, c: Tok, b: Seq<Tok>, d: Tok, e: Seq<Tok>)
    requires
        u == a + seq![c] + b + seq![d] + e + seq![Tok::Eof],
    ensures
        stands(u, 0, a),
        u[a.len() as int] == c,
        stands(u, a.len() as int + 1, b),
        u[a.len() as int + 1 + b.len()] == d,
        stands(u, a.len() as int + 1 + b.len() + 1, e),
        u.len() == a.len() + 1 + b.len() + 1 + e.len() + 1,
        u.last() == Tok::Eof,
{
    let (tc, td, te) = (seq![c], seq![d], seq![Tok::Eof]);
    let j = a.len() as int;
    let k = j + 1 + b.len();
    assert(u.subrange(0, u.len() as int) =~= u);
    lemma_stands(u, 0, a + tc + b + td + e, te);
    lemma_stands(u, 0, a + tc + b + td, e);
    lemma_stands(u, 0, a + tc + b, td);
    lemma_stands(u, 0, a + tc, b);
    lemma_stands(u, 0, a, tc);
    lemma_stands_at(u, j, tc, 0);
    lemma_stands_at(u, k, td, 0);
    lemma_stands_at(u, k + 1 + e.len(), te, 0);
}

proof fn lemma_chain_groups(
    u: Seq<Tok>,
    a: Seq<char>,
    c: char,
    b: Seq<char>,
    d: char,
    e: Seq<char>,
    x: Term,
    y: Term,
    z: Term,
) -> (r: (int, int))
    requires
        reads_as(a, x),
        reads_as(b, y),
        reads_as(e, z),
        u == group(toks_from(a, 0)) + seq![tok_of(c)] + group(toks_from(b, 0)) + seq![tok_of(d)]
            + group(toks_from(e, 0)) + seq![Tok::Eof],
    ensures
        0 < r.0,
        r.0 + 1 < r.1,
        r.1 + 2 < u.len(),
        u[0] == Tok::LParen,
        u[r.0] == tok_of(c),
        u[r.1] == tok_of(d),
        u.last() == Tok::Eof,
        expr_at(u, 0, 4) == Ok::<(Term, int), int>((x, r.0)),
        expr_at(u, r.0 + 1, 4) == Ok::<(Term, int), int>((y, r.1)),
        expr_at(u, r.1 + 1, 4) == Ok::<(Term, int), int>((z, u.len() - 1)),
{
    let (ga, gb, ge) = (
        group(toks_from(a, 0)),
        group(toks_from(b, 0)),
        group(toks_from(e, 0)),
    );
    let j = ga.len() as int;
    let k = j + 1 + gb.len();
    lemma_chain_parts(u, ga, tok_of(c), gb, tok_of(d), ge);
    lemma_group_at(u, 0, a, x);
    lemma_group_at(u, j + 1, b, y);
    lemma_group_at(u, k + 1, e, z);
    (j, k)
}

/// Without brackets the operators join in their order, those of one rank from the left, and
/// `U` from the right.
pub proof fn law_order_read(
    a: Seq<char>,
    c: char,
    b: Seq<char>,
    d: char,
    e: Seq<char>,
    x: Term,
    y: Term,
    z: Term,
)
    requires
        reads_as(a, x),
        reads_as(b, y),
        reads_as(e, z),
        is_operator(c),
        is_operator(d),
    ensures
        reads_as(
            chain(a, c, b, d, e),
            if joins_first(c, d) {
                node(c, x, node(d, y, z))
            } else {
                node(d, node(c, x, y), z)
            },
        ),
{
    let s = chain(a, c, b, d, e);
    lemma_chain_lexes(a, c, b, d, e, x, y, z);
    let u = toks_from(s, 0);
    let (j, k) = lemma_chain_groups(u, a, c, b, d, e, x, y, z);
    lemma_chain(u, c, d, x, y, z, j, k);
    lemma_whole(
        s,
        if joins_first(c, d) {
            node(c, x, node(d, y, z))
        } else {
            node(d, node(c, x, y), z)
        },
    );
}

// ---- files -------------------------------------------------------------------------------------

/// A statement in text form, on a line of its own.
pub open spec fn line_text(l: Line) -> Seq<char> {
    match l {
        Line::Hole(x) => "hole "@ + x + "\n"@,
        Line::Def(x, e) => "def "@ + x + " = "@ + text_of(e) + "\n"@,
        Line::Assert(a, AssertOp::Leq, b) => "assert "@ + text_of(a) + " <= "@ + text_of(b)
            + "\n"@,
        Line::Assert(a, AssertOp::Eq, b) => "assert "@ + text_of(a) + " == "@ + text_of(b) + "\n"@,
    }
}

/// The statements in text form.
pub open spec fn file_text(ls: Seq<Line>) -> Seq<char>
    decreases ls.len(),
{
    if ls.len() == 0 {
        Seq::empty()
    } else {
        line_text(ls[0]) + file_text(ls.drop_first())
    }
}

/// The statement has a text form that says all of it.  A name before `== 0` or `== 1` would
/// be tested.
pub open spec fn printable_line(l: Line) -> bool {
    match l {
        Line::Hole(x) => is_name(x),
        Line::Def(x, e) => is_name(x) && printable(e),
        Line::Assert(a, op, b) => {
            &&& printable(a)
            &&& printable(b)
            &&& op == AssertOp::Eq && ends_in_name(a) ==> !(b is Zero) && !(b is One)
        },
    }
}

spec fn op_tok(op: AssertOp) -> Tok {
    match op {
        AssertOp::Leq => Tok::Lte,
        AssertOp::Eq => Tok::Eq,
    }
}

/// The tokens of a statement's text form.
spec fn line_toks(l: Line) -> Seq<Tok> {
    match l {
        Line::Hole(x) => seq![Tok::Hole] + seq![Tok::Ident(x)],
        Line::Def(x, e) => seq![Tok::Def] + seq![Tok::Ident(x)] + seq![Tok::Eq] + toks_of(e),
        Line::Assert(a, op, b) => seq![Tok::Ident("assert"@)] + toks_of(a) + seq![op_tok(op)]
            + toks_of(b),
    }
}

spec fn file_toks(ls: Seq<Line>) -> Seq<Tok>
    decreases ls.len(),
{
    if ls.len() == 0 {
        Seq::empty()
    } else {
        line_toks(ls[0]) + file_toks(ls.drop_first())
    }
}

/// The words that statements begin with.
proof fn lemma_kept_first()
    ensures
        word_token("hole"@) == Some(Tok::Hole),
        word_token("def"@) == Some(Tok::Def),
        word_token("assert"@) == Some(Tok::Ident("assert"@)),
        is_word("hole"@),
        is_word("def"@),
        is_word("assert"@),
        "hole"@.len() == 4,
        "def"@.len() == 3,
        "assert"@.len() == 6,
{
    lemma_kept();
    reveal_strlit("mask");
    reveal_strlit("hole");
    reveal_strlit("def");
    reveal_strlit("assert");
    assert("hole"@[0] == 'h' && "def"@[0] == 'd' && "assert"@[0] == 'a' && "mask"@[0] == 'm');
    assert("then"@[0] == 't' && "else"@[0] == 'e' && "let"@[0] == 'l' && "def"@[1] == 'e');
    assert("dup"@[1] == 'u');
}

/// What ends with a line.
proof fn lemma_line_ends(s: Seq<char>, i: int, ts: Seq<Tok>, e: int)
    requires
        0 <= e < s.len(),
        s[e] == '\n',
        lexes(s, i, ts, e),
    ensures
        lexes(s, i, ts, e + 1),
{
    lemma_blank(s, e);
    lemma_lexes(s, i, ts, e, Seq::empty(), e + 1);
    assert(ts + Seq::empty() =~= ts);
}

proof fn lemma_hole_lexes(s: Seq<char>, i: int, x: Seq<char>)
    requires
        is_name(x),
        stands(s, i, line_text(Line::Hole(x))),
    ensures
        lexes(s, i, line_toks(Line::Hole(x)), i + line_text(Line::Hole(x)).len()),
{
    lemma_kept_first();
    reveal_strlit("hole ");
    reveal_strlit("\n");
    assert("hole "@ =~= "hole"@ + seq![' ']) by {
        reveal_strlit("hole");
    }
    lemma_wrap_parts(s, i, "hole "@, x, "\n"@);
    let e = i + 5 + x.len();
    lemma_stands_at(s, e, "\n"@, 0);
    lemma_first(s, i, "hole"@, Tok::Hole);
    lemma_word(s, i + 5, x, Tok::Ident(x));
    lemma_lexes(s, i, seq![Tok::Hole], i + 5, seq![Tok::Ident(x)], e);
    lemma_line_ends(s, i, line_toks(Line::Hole(x)), e);
}

proof fn lemma_def_lexes(s: Seq<char>, i: int, x: Seq<char>, a: Term)
    requires
        is_name(x),
        printable(a),
        stands(s, i, line_text(Line::Def(x, a))),
    ensures
        lexes(s, i, line_toks(Line::Def(x, a)), i + line_text(Line::Def(x, a)).len()),
{
    lemma_kept_first();
    reveal_strlit("def ");
    reveal_strlit(" = ");
    reveal_strlit("\n");
    assert("def "@ =~= "def"@ + seq![' ']) by {
        reveal_strlit("def");
    }
    assert(" = "@ =~= seq![' ', '=', ' ']);
    let ta = text_of(a);
    lemma_wrap_parts(s, i, "def "@ + x + " = "@, ta, "\n"@);
    lemma_wrap_parts(s, i, "def "@, x, " = "@);
    let j = i + 4;
    let k = j + x.len();
    let e = k + 3 + ta.len();
    lemma_stands_at(s, k, " = "@, 0);
    lemma_stands_at(s, e, "\n"@, 0);
    lemma_first(s, i, "def"@, Tok::Def);
    lemma_word(s, j, x, Tok::Ident(x));
    lemma_infix(s, k, '=', Tok::Eq);
    lemma_printed(s, k + 3, a);
    let t1 = seq![Tok::Def] + seq![Tok::Ident(x)];
    lemma_lexes(s, i, seq![Tok::Def], j, seq![Tok::Ident(x)], k);
    lemma_lexes(s, i, t1, k, seq![Tok::Eq], k + 3);
    lemma_lexes(s, i, t1 + seq![Tok::Eq], k + 3, toks_of(a), e);
    lemma_line_ends(s, i, line_toks(Line::Def(x, a)), e);
}

proof fn lemma_goal_lexes(s: Seq<char>, i: int, a: Term, op: AssertOp, b: Term)
    requires
        printable(a),
        printable(b),
        stands(s, i, line_text(Line::Assert(a, op, b))),
    ensures
        lexes(s, i, line_toks(Line::Assert(a, op, b)), i + line_text(Line::Assert(a, op, b)).len()),
{
    lemma_kept_first();
    reveal_strlit("assert ");
    reveal_strlit(" <= ");
    reveal_strlit(" == ");
    reveal_strlit("\n");
    let w = "assert"@;
    assert("assert "@ =~= w + seq![' ']) by {
        reveal_strlit("assert");
    }
    let m = match op {
        AssertOp::Leq => " <= "@,
        AssertOp::Eq => " == "@,
    };
    let (ta, tb) = (text_of(a), text_of(b));
    lemma_wrap_parts(s, i, "assert "@ + ta + m, tb, "\n"@);
    lemma_wrap_parts(s, i, "assert "@, ta, m);
    let j = i + 7;
    let k = j + ta.len();
    let e = k + 4 + tb.len();
    lemma_stands_at(s, k, m, 0);
    lemma_stands_at(s, k, m, 1);
    lemma_stands_at(s, k, m, 2);
    lemma_stands_at(s, k, m, 3);
    lemma_stands_at(s, e, "\n"@, 0);
    let o = op_tok(op);
    lemma_first(s, i, w, Tok::Ident(w));
    lemma_printed(s, j, a);
    lemma_one(s, k + 1, o, k + 3);
    lemma_spaced(s, k, o, k + 3);
    lemma_printed(s, k + 4, b);
    let t1 = seq![Tok::Ident(w)] + toks_of(a);
    lemma_lexes(s, i, seq![Tok::Ident(w)], j, toks_of(a), k);
    lemma_lexes(s, i, t1, k, seq![o], k + 4);
    lemma_lexes(s, i, t1 + seq![o], k + 4, toks_of(b), e);
    lemma_line_ends(s, i, line_toks(Line::Assert(a, op, b)), e);
}

proof fn lemma_file_lexes(s: Seq<char>, i: int, ls: Seq<Line>)
    requires
        forall|k: int| 0 <= k < ls.len() ==> printable_line(#[trigger] ls[k]),
        stands(s, i, file_text(ls)),
    ensures
        lexes(s, i, file_toks(ls), i + file_text(ls).len()),
    decreases ls.len(),
{
    if ls.len() == 0 {
        lemma_none_lexes(s, i);
    } else {
        let l = ls[0];
        let rest = ls.drop_first();
        lemma_stands(s, i, line_text(l), file_text(rest));
        match l {
            Line::Hole(x) => lemma_hole_lexes(s, i, x),
            Line::Def(x, a) => lemma_def_lexes(s, i, x, a),
            Line::Assert(a, op, b) => lemma_goal_lexes(s, i, a, op, b),
        }
        let k = i + line_text(l).len();
        assert forall|k: int| 0 <= k < rest.len() implies printable_line(#[trigger] rest[k]) by {
            assert(rest[k] == ls[k + 1]);
        }
        lemma_file_lexes(s, k, rest);
        lemma_lexes(s, i, line_toks(l), k, file_toks(rest), k + file_text(rest).len());
    }
}

/// Only the two constants begin with a number.
proof fn lemma_first_tok(t: Term)
    requires
        printable(t),
        !(t is Zero),
        !(t is One),
    ensures
        toks_of(t).len() > 0,
        value_bits(toks_of(t)[0]) is None,
{
    match t {
        Term::Star(a) => {
            assert(toks_of(t)[0] == Tok::LParen);
        },
        Term::IfThenElse(_, _, _) => {
            assert(toks_of(t)[0] == Tok::If);
        },
        Term::Let(_, _, _) => {
            assert(toks_of(t)[0] == Tok::Let);
        },
        Term::LetBitRange(_, _, _, _) => {
            assert(toks_of(t)[0] == Tok::Let);
        },
        _ => {},
    }
}

/// The tokens of a statement's text form are read as the statement.
proof fn lemma_line_read(u: Seq<Tok>, q: int, l: Line)
    requires
        printable_line(l),
        stands(u, q, line_toks(l)),
        q + line_toks(l).len() < u.len(),
        ({
            let n = u[q + line_toks(l).len()];
            n == Tok::Eof || n == Tok::Hole || n == Tok::Def || n is Ident
        }),
    ensures
        line_toks(l).len() > 0,
        line_at(u, q) == Ok::<(Line, int), (int, Fault)>((l, q + line_toks(l).len())),
{
    let e = q + line_toks(l).len();
    match l {
        Line::Hole(x) => {
            lemma_stands_at(u, q, line_toks(l), 0);
            lemma_stands_at(u, q, line_toks(l), 1);
        },
        Line::Def(x, a) => {
            let (d, n, m) = (seq![Tok::Def], seq![Tok::Ident(x)], seq![Tok::Eq]);
            lemma_stands(u, q, d + n + m, toks_of(a));
            lemma_stands(u, q, d + n, m);
            lemma_stands(u, q, d, n);
            lemma_stands_at(u, q, d, 0);
            lemma_stands_at(u, q + 1, n, 0);
            lemma_stands_at(u, q + 2, m, 0);
            lemma_reread(u, q + 3, a);
            lemma_to_end(u, q + 3, a, e);
        },
        Line::Assert(a, op, b) => {
            let (d, m) = (seq![Tok::Ident("assert"@)], seq![op_tok(op)]);
            let (ta, tb) = (toks_of(a), toks_of(b));
            lemma_stands(u, q, d + ta + m, tb);
            lemma_stands(u, q, d + ta, m);
            lemma_stands(u, q, d, ta);
            let j = q + 1 + ta.len();
            lemma_stands_at(u, q, d, 0);
            lemma_stands_at(u, j, m, 0);
            if op == AssertOp::Eq && ends_in_name(a) {
                lemma_first_tok(b);
                lemma_stands_at(u, j + 1, tb, 0);
            }
            lemma_reread(u, q + 1, a);
            lemma_to_end(u, q + 1, a, j);
            lemma_reread(u, j + 1, b);
            lemma_to_end(u, j + 1, b, e);
        },
    }
}

proof fn lemma_file_read(u: Seq<Tok>, q: int, ls: Seq<Line>)
    requires
        forall|k: int| 0 <= k < ls.len() ==> printable_line(#[trigger] ls[k]),
        stands(u, q, file_toks(ls)),
        q + file_toks(ls).len() == u.len() - 1,
        u.last() == Tok::Eof,
    ensures
        lines_from(u, q) == Ok::<Seq<Line>, (int, Fault)>(ls),
        u[q] == Tok::Eof || u[q] == Tok::Hole || u[q] == Tok::Def || u[q] is Ident,
    decreases ls.len(),
{
    if ls.len() == 0 {
        assert(ls =~= Seq::empty());
    } else {
        let l = ls[0];
        let rest = ls.drop_first();
        let n = q + line_toks(l).len();
        lemma_stands(u, q, line_toks(l), file_toks(rest));
        assert forall|k: int| 0 <= k < rest.len() implies printable_line(#[trigger] rest[k]) by {
            assert(rest[k] == ls[k + 1]);
        }
        lemma_file_read(u, n, rest);
        lemma_line_read(u, q, l);
        assert(line_at(u, q) is Ok);
        assert(seq![l] + rest =~= ls);
    }
}

/// A file is read as the statements that it was written from, in their order.
pub proof fn law_read_file(ls: Seq<Line>)
    requires
        forall|k: int| 0 <= k < ls.len() ==> printable_line(#[trigger] ls[k]),
    ensures
        text_lines(file_text(ls)) == Ok::<Seq<Line>, (Span, Fault)>(ls),
{
    let s = file_text(ls);
    let ts = file_toks(ls);
    assert(s.subrange(0, s.len() as int) =~= s);
    lemma_file_lexes(s, 0, ls);
    lemma_all_lexes(s, ts);
    let u = toks_from(s, 0);
    assert(u == ts + seq![Tok::Eof]);
    assert(u.subrange(0, ts.len() as int) =~= ts);
    lemma_file_read(u, 0, ls);
}
// ---- literals ----------------------------------------------------------------------------------

/// Two to the power `w`.
pub open spec fn two_to(w: nat) -> nat
    decreases w,
{
    if w == 0 {
        1
    } else {
        2 * two_to((w - 1) as nat)
    }
}

proof fn lemma_low(v: nat, w: nat)
    requires
        v < two_to(w),
    ensures
        low_bits(v, w).len() == w,
        value(low_bits(v, w)) == v,
    decreases w,
{
    if w > 0 {
        lemma_low(v / 2, (w - 1) as nat);
        assert(low_bits(v, w).drop_first() =~= low_bits(v / 2, (w - 1) as nat));
    }
}

proof fn lemma_min(v: nat)
    ensures
        min_bits(v).len() > 0,
        value(min_bits(v)) == v,
        v > 0 ==> min_bits(v).last(),
        v == 0 ==> min_bits(v).len() == 1,
    decreases v,
{
    let b = min_bits(v);
    if v >= 2 {
        lemma_min(v / 2);
        assert(b.drop_first() =~= min_bits(v / 2));
        assert(b.last() == min_bits(v / 2).last());
    } else {
        assert(b.drop_first() =~= Seq::empty());
        assert(value(b.drop_first()) == 0);
    }
}

proof fn lemma_value_cat(a: Seq<bool>, b: Seq<bool>)
    ensures
        value(a + b) == value(a) + two_to(a.len()) * value(b),
    decreases a.len(),
{
    if a.len() == 0 {
        assert(a + b =~= b);
        let v = value(b);
        assert(two_to(0) == 1);
        assert(1 * v == v) by (nonlinear_arith);
        assert(value(a) == 0);
    } else {
        let r = a.drop_first();
        assert((a + b).drop_first() =~= r + b);
        assert((a + b)[0] == a[0]);
        lemma_value_cat(r, b);
        assert(2 * (two_to(r.len()) * value(b)) == (2 * two_to(r.len())) * value(b))
            by (nonlinear_arith);
    }
}

/// The text is that of a literal of these bits, wherever it stands.
#[verifier::opaque]
spec fn literal_text(w: Seq<char>, b: Seq<bool>) -> bool {
    forall|s: Seq<char>, i: int| #[trigger]
        stands(s, i, w) && i + w.len() == s.len() ==> exists|t: Tok| #[trigger]
            lexes(s, i, seq![t], i + w.len()) && value_bits(t) == Some(b)
}

proof fn lemma_literal_token(s: Seq<char>, i: int, w: Seq<char>, b: Seq<bool>) -> (t: Tok)
    requires
        literal_text(w, b),
        stands(s, i, w),
        i + w.len() == s.len(),
    ensures
        lexes(s, i, seq![t], s.len() as int),
        value_bits(t) == Some(b),
{
    reveal(literal_text);
    choose|t: Tok| #[trigger] lexes(s, i, seq![t], i + w.len()) && value_bits(t) == Some(b)
}

proof fn lemma_relation(s: Seq<char>, k: int, m: Seq<char>, o: Tok)
    requires
        stands(s, k, m),
        m == seq![' ', '=', '=', ' '] && o == Tok::Eq || m == seq![' ', ':', '=', ' '] && o
            == Tok::Assign,
    ensures
        lexes(s, k, seq![o], k + 4),
        s[k] == ' ',
        k < s.len(),
{
    lemma_stands_at(s, k, m, 0);
    lemma_stands_at(s, k, m, 1);
    lemma_stands_at(s, k, m, 2);
    lemma_stands_at(s, k, m, 3);
    lemma_one(s, k + 1, o, k + 3);
    lemma_spaced(s, k, o, k + 3);
}

/// What is compared with a literal, or set to it.
proof fn lemma_literal_read(x: Seq<char>, w: Seq<char>, b: Seq<bool>)
    requires
        is_name(x),
        literal_text(w, b),
    ensures
        reads_as(x + " == "@ + w, Term::VarTest(x, b)),
        reads_as(x + " := "@ + w, Term::VarAssign(x, b)),
{
    reveal_strlit(" == ");
    reveal_strlit(" := ");
    assert(" == "@ =~= seq![' ', '=', '=', ' ']);
    assert(" := "@ =~= seq![' ', ':', '=', ' ']);
    lemma_literal_after(x, " == "@, Tok::Eq, w, b);
    lemma_literal_after(x, " := "@, Tok::Assign, w, b);
}

proof fn lemma_literal_lexes(
    x: Seq<char>,
    m: Seq<char>,
    o: Tok,
    w: Seq<char>,
    b: Seq<bool>,
) -> (t: Tok)
    requires
        is_name(x),
        literal_text(w, b),
        m == seq![' ', '=', '=', ' '] && o == Tok::Eq || m == seq![' ', ':', '=', ' '] && o
            == Tok::Assign,
    ensures
        tokens_from(x + m + w, 0) is Ok,
        toks_from(x + m + w, 0) == seq![Tok::Ident(x), o, t, Tok::Eof],
        value_bits(t) == Some(b),
{
    let s = x + m + w;
    let e = s.len() as int;
    let k = x.len() as int;
    assert(s.subrange(0, e) =~= s);
    assert(stands(s, 0, x + m + w));
    lemma_stands(s, 0, x + m, w);
    lemma_stands(s, 0, x, m);
    lemma_relation(s, k, m, o);
    lemma_word(s, 0, x, Tok::Ident(x));
    let t = lemma_literal_token(s, k + 4, w, b);
    let ti = seq![Tok::Ident(x)];
    lemma_lexes(s, 0, ti, k, seq![o], k + 4);
    lemma_lexes(s, 0, ti + seq![o], k + 4, seq![t], e);
    lemma_all_lexes(s, ti + seq![o] + seq![t]);
    assert(toks_from(s, 0) =~= seq![Tok::Ident(x), o, t, Tok::Eof]);
    t
}

proof fn lemma_literal_after(x: Seq<char>, m: Seq<char>, o: Tok, w: Seq<char>, b: Seq<bool>)
    requires
        is_name(x),
        literal_text(w, b),
        m == seq![' ', '=', '=', ' '] && o == Tok::Eq || m == seq![' ', ':', '=', ' '] && o
            == Tok::Assign,
    ensures
        reads_as(
            x + m + w,
            if o == Tok::Eq {
                Term::VarTest(x, b)
            } else {
                Term::VarAssign(x, b)
            },
        ),
{
    let s = x + m + w;
    let t = lemma_literal_lexes(x, m, o, w, b);
    let u = toks_from(s, 0);
    let z = if o == Tok::Eq {
        Term::VarTest(x, b)
    } else {
        Term::VarAssign(x, b)
    };
    assert(at(u, 0) == Tok::Ident(x) && at(u, 1) == o && at(u, 2) == t);
    assert(leaf_at(u, 0) == Ok::<(Term, int), int>((z, 3)));
    assert(starred(u, 3, z) == (z, 3int));
    assert(expr_at(u, 0, 4) == Ok::<(Term, int), int>((z, 3)));
    lemma_to_end(u, 0, z, 3);
    lemma_whole(s, z);
}

/// A number is read as its bits, the lowest first, and no more of them than it needs.
pub proof fn law_number_read(x: Seq<char>, n: u64) -> (b: Seq<bool>)
    requires
        is_name(x),
    ensures
        value(b) == n,
        b.len() == 1 || b.last(),
        reads_as(x + " == "@ + decimal(n as nat), Term::VarTest(x, b)),
        reads_as(x + " := "@ + decimal(n as nat), Term::VarAssign(x, b)),
{
    let w = decimal(n as nat);
    let b = min_bits(n as nat);
    lemma_min(n as nat);
    reveal(literal_text);
    assert forall|s: Seq<char>, i: int| #[trigger]
        stands(s, i, w) && i + w.len() == s.len() implies exists|t: Tok| #[trigger]
        lexes(s, i, seq![t], i + w.len()) && value_bits(t) == Some(b) by {
        lemma_number(s, i, n);
        assert(value_bits(Tok::Num(n)) == Some(b));
    }
    lemma_literal_read(x, w, b);
    b
}

proof fn lemma_low_one(v: bool)
    ensures
        low_bits(
            if v {
                1
            } else {
                0
            },
            1,
        ) == seq![v],
{
    reveal_with_fuel(low_bits, 2);
    assert(low_bits(
        if v {
            1
        } else {
            0
        },
        1,
    ) =~= seq![v]);
}

proof fn lemma_bit_chars(v: Seq<bool>)
    ensures
        bit_digits(v).len() == v.len(),
        forall|j: int|
            0 <= j < v.len() ==> bit_digits(v)[j] == if #[trigger] v[j] {
                '1'
            } else {
                '0'
            },
    decreases v.len(),
{
    reveal_strlit("");
    reveal_strlit("0");
    reveal_strlit("1");
    if v.len() > 0 {
        let r = v.drop_last();
        lemma_bit_chars(r);
        assert forall|j: int| 0 <= j < v.len() implies bit_digits(v)[j] == if #[trigger] v[j] {
            '1'
        } else {
            '0'
        } by {
            if j < r.len() {
                assert(r[j] == v[j]);
                assert(bit_digits(v)[j] == bit_digits(r)[j]);
            }
        }
    }
}

proof fn lemma_bit_digits(s: Seq<char>, i: int, v: Seq<bool>)
    requires
        0 <= i,
        i + v.len() <= s.len(),
        forall|j: int|
            0 <= j < v.len() ==> s[i + j] == if #[trigger] v[j] {
                '1'
            } else {
                '0'
            },
    ensures
        digit_bits(s, i, i + v.len(), 1) == v.reverse(),
    decreases v.len(),
{
    if v.len() == 0 {
        assert(v.reverse() =~= Seq::empty());
    } else {
        let r = v.drop_last();
        let b = v[v.len() - 1];
        let e = i + v.len();
        assert forall|j: int| 0 <= j < r.len() implies s[i + j] == if #[trigger] r[j] {
            '1'
        } else {
            '0'
        } by {
            assert(r[j] == v[j]);
        }
        lemma_bit_digits(s, i, r);
        assert(s[e - 1] == if b {
            '1'
        } else {
            '0'
        });
        lemma_low_one(b);
        assert(v.reverse() =~= seq![b] + r.reverse());
    }
}

/// Binary digits are read as the bits, the last digit first.
pub proof fn law_binary_read(x: Seq<char>, v: Seq<bool>)
    requires
        is_name(x),
        v.len() > 0,
    ensures
        reads_as(x + " == "@ + ("0b"@ + bit_digits(v)), Term::VarTest(x, v.reverse())),
        reads_as(x + " := "@ + ("0b"@ + bit_digits(v)), Term::VarAssign(x, v.reverse())),
{
    let w = "0b"@ + bit_digits(v);
    let b = v.reverse();
    reveal(literal_text);
    assert forall|s: Seq<char>, i: int| #[trigger]
        stands(s, i, w) && i + w.len() == s.len() implies exists|t: Tok| #[trigger]
        lexes(s, i, seq![t], i + w.len()) && value_bits(t) == Some(b) by {
        lemma_bits_token(s, i, v);
        assert(value_bits(Tok::Lit(b)) == Some(b));
    }
    lemma_literal_read(x, w, b);
}

/// The digit of a number below sixteen.
pub open spec fn hex_digit(n: nat) -> char {
    "0123456789abcdef"@[n as int]
}

/// The number of which these are the digits to the base sixteen, the highest first.
pub open spec fn hex_value(ns: Seq<nat>) -> nat
    decreases ns.len(),
{
    if ns.len() == 0 {
        0
    } else {
        16 * hex_value(ns.drop_last()) + ns.last()
    }
}

proof fn lemma_hex_digit(n: nat)
    requires
        n < 16,
    ensures
        in_class(hex_digit(n), Class::Hex),
        digit_value(hex_digit(n)) == n,
{
    reveal_strlit("0123456789abcdef");
}

proof fn lemma_hex_digits(s: Seq<char>, i: int, ns: Seq<nat>)
    requires
        0 <= i,
        i + ns.len() <= s.len(),
        forall|k: int| 0 <= k < ns.len() ==> (#[trigger] ns[k]) < 16 && s[i + k] == hex_digit(ns[k]),
    ensures
        digit_bits(s, i, i + ns.len(), 4).len() == 4 * ns.len(),
        value(digit_bits(s, i, i + ns.len(), 4)) == hex_value(ns),
    decreases ns.len(),
{
    if ns.len() > 0 {
        let r = ns.drop_last();
        let e = i + ns.len();
        assert forall|k: int| 0 <= k < r.len() implies (#[trigger] r[k]) < 16 && s[i + k]
            == hex_digit(r[k]) by {
            assert(r[k] == ns[k]);
        }
        lemma_hex_digits(s, i, r);
        let n = ns[ns.len() - 1];
        assert(s[e - 1] == hex_digit(n));
        lemma_hex_digit(n);
        reveal_with_fuel(two_to, 5);
        assert(two_to(4) == 16);
        lemma_low(n, 4);
        lemma_value_cat(low_bits(n, 4), digit_bits(s, i, e - 1, 4));
    } else {
        assert(value(digit_bits(s, i, i, 4)) == 0);
    }
}

/// Hexadecimal digits are read as four bits each, of the number that they are together.
pub proof fn law_hex_read(x: Seq<char>, ns: Seq<nat>, w: Seq<char>) -> (b: Seq<bool>)
    requires
        is_name(x),
        ns.len() > 0,
        w.len() == ns.len(),
        forall|k: int| 0 <= k < ns.len() ==> (#[trigger] ns[k]) < 16 && w[k] == hex_digit(ns[k]),
    ensures
        b.len() == 4 * ns.len(),
        value(b) == hex_value(ns),
        reads_as(x + " == "@ + ("0x"@ + w), Term::VarTest(x, b)),
        reads_as(x + " := "@ + ("0x"@ + w), Term::VarAssign(x, b)),
{
    let z = "0x"@ + w;
    reveal_strlit("0x");
    assert forall|k: int| 0 <= k < ns.len() implies (#[trigger] ns[k]) < 16 && w[0 + k]
        == hex_digit(ns[k]) by {}
    lemma_hex_digits(w, 0, ns);
    let b = digit_bits(w, 0, 0 + w.len() as int, 4);
    reveal(literal_text);
    assert forall|s: Seq<char>, i: int| #[trigger]
        stands(s, i, z) && i + z.len() == s.len() implies exists|t: Tok| #[trigger]
        lexes(s, i, seq![t], i + z.len()) && value_bits(t) == Some(b) by {
        lemma_stands(s, i, "0x"@, w);
        lemma_stands_at(s, i, "0x"@, 0);
        lemma_stands_at(s, i, "0x"@, 1);
        let e = i + z.len();
        assert forall|k: int| 0 <= k < ns.len() implies (#[trigger] ns[k]) < 16 && s[i + 2 + k]
            == hex_digit(ns[k]) by {
            lemma_stands_at(s, i + 2, w, k);
        }
        assert forall|j: int| i + 2 <= j < e implies in_class(#[trigger] s[j], Class::Hex) by {
            lemma_stands_at(s, i + 2, w, j - i - 2);
            lemma_hex_digit(ns[j - i - 2]);
        }
        lemma_run_to(s, i + 2, e, Class::Hex);
        let c = digit_bits(s, i + 2, e, 4);
        lemma_hex_digits(s, i + 2, ns);
        law_value_injective(b, c);
        assert(number_at(s, i) == Some((Tok::Lit(b), e)));
        lemma_one(s, i, Tok::Lit(b), e);
        assert(value_bits(Tok::Lit(b)) == Some(b));
    }
    lemma_literal_read(x, z, b);
    b
}

/// The text form of an address.
pub open spec fn address_text(p: nat, q: nat, r: nat, t: nat) -> Seq<char> {
    decimal(p) + "."@ + decimal(q) + "."@ + decimal(r) + "."@ + decimal(t)
}

proof fn lemma_address_bits(p: nat, q: nat, r: nat, t: nat)
    requires
        p < 256,
        q < 256,
        r < 256,
        t < 256,
    ensures
        ({
            let b = low_bits(t, 8) + low_bits(r, 8) + low_bits(q, 8) + low_bits(p, 8);
            b.len() == 32 && value(b) == ((p * 256 + q) * 256 + r) * 256 + t
        }),
{
    reveal_with_fuel(two_to, 9);
    assert(two_to(8) == 256);
    lemma_low(p, 8);
    lemma_low(q, 8);
    lemma_low(r, 8);
    lemma_low(t, 8);
    let (bp, bq, br, bt) = (low_bits(p, 8), low_bits(q, 8), low_bits(r, 8), low_bits(t, 8));
    lemma_value_cat(bq, bp);
    assert(value(bq + bp) == q + 256 * p);
    lemma_value_cat(br, bq + bp);
    assert(value(br + (bq + bp)) == r + 256 * (q + 256 * p));
    lemma_value_cat(bt, br + (bq + bp));
    assert(value(bt + (br + (bq + bp))) == t + 256 * (r + 256 * (q + 256 * p)));
    assert(bt + br + bq + bp =~= bt + (br + (bq + bp)));
}

proof fn lemma_address(s: Seq<char>, i: int, p: nat, q: nat, r: nat, t: nat)
    requires
        p < 256,
        q < 256,
        r < 256,
        t < 256,
        stands(s, i, address_text(p, q, r, t)),
        i + address_text(p, q, r, t).len() == s.len(),
    ensures
        number_at(s, i) == Some(
            (
                Tok::Lit(low_bits(t, 8) + low_bits(r, 8) + low_bits(q, 8) + low_bits(p, 8)),
                s.len() as int,
            ),
        ),
        in_class(s[i], Class::Digit),
        i < s.len(),
{
    reveal_strlit(".");
    let (dp, dq, dr, dt) = (decimal(p), decimal(q), decimal(r), decimal(t));
    let h = "."@;
    lemma_stands(s, i, dp + h + dq + h + dr + h, dt);
    lemma_stands(s, i, dp + h + dq + h + dr, h);
    lemma_stands(s, i, dp + h + dq + h, dr);
    lemma_stands(s, i, dp + h + dq, h);
    lemma_stands(s, i, dp + h, dq);
    lemma_stands(s, i, dp, h);
    let a = i + dp.len();
    let b = a + 1 + dq.len();
    let c = b + 1 + dr.len();
    let d = c + 1 + dt.len();
    lemma_stands_at(s, a, h, 0);
    lemma_stands_at(s, b, h, 0);
    lemma_stands_at(s, c, h, 0);
    lemma_decimal(s, i, p);
    lemma_decimal(s, a + 1, q);
    lemma_decimal(s, b + 1, r);
    lemma_decimal(s, c + 1, t);
    lemma_run_to(s, i, a, Class::Digit);
    lemma_run_to(s, a + 1, b, Class::Digit);
    lemma_run_to(s, b + 1, c, Class::Digit);
    lemma_run_to(s, c + 1, d, Class::Digit);
    assert(in_class(s[i], Class::Digit));
    assert(in_class(s[a + 1], Class::Digit));
    assert(in_class(s[b + 1], Class::Digit));
    assert(in_class(s[c + 1], Class::Digit));
    assert(s[i + 1] != 'b' && s[i + 1] != 'x') by {
        if i + 1 < a {
            assert(in_class(s[i + 1], Class::Digit));
        }
    }
}

/// Four numbers with points in between are read as 32 bits, those of the first the highest.
pub proof fn law_address_read(x: Seq<char>, p: nat, q: nat, r: nat, t: nat) -> (b: Seq<bool>)
    requires
        is_name(x),
        p < 256,
        q < 256,
        r < 256,
        t < 256,
    ensures
        b.len() == 32,
        value(b) == ((p * 256 + q) * 256 + r) * 256 + t,
        reads_as(x + " == "@ + address_text(p, q, r, t), Term::VarTest(x, b)),
        reads_as(x + " := "@ + address_text(p, q, r, t), Term::VarAssign(x, b)),
{
    let w = address_text(p, q, r, t);
    let b = low_bits(t, 8) + low_bits(r, 8) + low_bits(q, 8) + low_bits(p, 8);
    lemma_address_bits(p, q, r, t);
    reveal(literal_text);
    assert forall|s: Seq<char>, i: int| #[trigger]
        stands(s, i, w) && i + w.len() == s.len() implies exists|k: Tok| #[trigger]
        lexes(s, i, seq![k], i + w.len()) && value_bits(k) == Some(b) by {
        lemma_address(s, i, p, q, r, t);
        lemma_one(s, i, Tok::Lit(b), i + w.len());
        assert(value_bits(Tok::Lit(b)) == Some(b));
    }
    lemma_literal_read(x, w, b);
    b
}
// ---- ranges and patterns -----------------------------------------------------------------------

proof fn lemma_bits_token(s: Seq<char>, i: int, v: Seq<bool>)
    requires
        v.len() > 0,
        stands(s, i, "0b"@ + bit_digits(v)),
        ({
            let e = i + ("0b"@ + bit_digits(v)).len();
            e < s.len() ==> s[e] == ' ' || s[e] == '/' || s[e] == '-'
        }),
    ensures
        lexes(s, i, seq![Tok::Lit(v.reverse())], i + ("0b"@ + bit_digits(v)).len()),
        ("0b"@ + bit_digits(v)).len() == v.len() + 2,
{
    reveal_strlit("0b");
    lemma_stands(s, i, "0b"@, bit_digits(v));
    lemma_stands_at(s, i, "0b"@, 0);
    lemma_stands_at(s, i, "0b"@, 1);
    lemma_bit_chars(v);
    let e = i + 2 + v.len();
    assert forall|j: int| 0 <= j < v.len() implies s[i + 2 + j] == if #[trigger] v[j] {
        '1'
    } else {
        '0'
    } by {
        lemma_stands_at(s, i + 2, bit_digits(v), j);
    }
    lemma_bit_digits(s, i + 2, v);
    assert forall|j: int| i + 2 <= j < e implies in_class(#[trigger] s[j], Class::Binary) by {
        assert(s[i + 2 + (j - i - 2)] == if v[j - i - 2] {
            '1'
        } else {
            '0'
        });
    }
    lemma_run_to(s, i + 2, e, Class::Binary);
    assert(number_at(s, i) == Some((Tok::Lit(v.reverse()), e)));
    lemma_one(s, i, Tok::Lit(v.reverse()), e);
}

/// A pattern with bits to read, and with a prefix and bounds that fit.
pub open spec fn printable_pattern(p: Pat) -> bool {
    match p {
        Pat::Exact(b) => b.len() > 0,
        Pat::Cidr(b, n) => b.len() > 0 && n <= u32::MAX,
        Pat::Wildcard(b, m) => b.len() > 0 && m.len() > 0,
        Pat::IpRange(a, b) => a.len() > 0 && a.len() == b.len(),
    }
}

/// The pattern with the bits in the other order.
pub open spec fn turned(p: Pat) -> Pat {
    match p {
        Pat::Exact(b) => Pat::Exact(b.reverse()),
        Pat::Cidr(b, n) => Pat::Cidr(b.reverse(), n),
        Pat::Wildcard(b, m) => Pat::Wildcard(b.reverse(), m.reverse()),
        Pat::IpRange(a, b) => Pat::IpRange(a.reverse(), b.reverse()),
    }
}

spec fn pat_toks(p: Pat) -> Seq<Tok> {
    match p {
        Pat::Exact(b) => seq![Tok::Lit(b.reverse())],
        Pat::Cidr(b, n) => seq![Tok::Lit(b.reverse())] + seq![Tok::Slash] + seq![
            Tok::Num(n as u64),
        ],
        Pat::Wildcard(b, m) => seq![Tok::Lit(b.reverse())] + seq![Tok::Mask] + seq![
            Tok::Lit(m.reverse()),
        ],
        Pat::IpRange(a, b) => seq![Tok::Lit(a.reverse())] + seq![Tok::Minus] + seq![
            Tok::Lit(b.reverse()),
        ],
    }
}

proof fn lemma_slash(s: Seq<char>, i: int)
    requires
        0 <= i,
        i + 1 < s.len(),
        s[i] == '/',
        s[i + 1] != '/',
    ensures
        lexes(s, i, seq![Tok::Slash], i + 1),
{
    reveal(lexes);
    assert(run_end(s, i, Class::Space) == i);
    assert(skip_blank(s, i) == i);
    if tokens_from(s, i + 1) is Ok {
        assert(toks_from(s, i) =~= seq![Tok::Slash] + toks_from(s, i + 1));
    }
}

proof fn lemma_cidr_lexes(s: Seq<char>, i: int, b: Seq<bool>, n: nat)
    requires
        printable_pattern(Pat::Cidr(b, n)),
        stands(s, i, pat_text(Pat::Cidr(b, n))),
        i + pat_text(Pat::Cidr(b, n)).len() == s.len(),
    ensures
        lexes(s, i, pat_toks(Pat::Cidr(b, n)), s.len() as int),
{
    reveal_strlit("/");
    reveal_strlit("");
    let w = "0b"@ + bit_digits(b);
    let d = decimal(n);
    assert(pat_text(Pat::Cidr(b, n)) =~= w + "/"@ + d);
    lemma_wrap_parts(s, i, w, "/"@, d);
    let e = i + w.len();
    lemma_stands_at(s, e, "/"@, 0);
    lemma_bits_token(s, i, b);
    lemma_decimal(s, e + 1, n);
    assert(in_class(s[e + 1], Class::Digit));
    lemma_slash(s, e);
    lemma_number(s, e + 1, n as u64);
    let t = seq![Tok::Lit(b.reverse())];
    lemma_lexes(s, i, t, e, seq![Tok::Slash], e + 1);
    lemma_lexes(s, i, t + seq![Tok::Slash], e + 1, seq![Tok::Num(n as u64)], s.len() as int);
}

proof fn lemma_wildcard_lexes(s: Seq<char>, i: int, b: Seq<bool>, m: Seq<bool>)
    requires
        printable_pattern(Pat::Wildcard(b, m)),
        stands(s, i, pat_text(Pat::Wildcard(b, m))),
        i + pat_text(Pat::Wildcard(b, m)).len() == s.len(),
    ensures
        lexes(s, i, pat_toks(Pat::Wildcard(b, m)), s.len() as int),
{
    lemma_kept();
    reveal_strlit(" mask 0b");
    reveal_strlit("mask");
    reveal_strlit("0b");
    reveal_strlit("");
    let k = seq![' '] + "mask"@ + seq![' '];
    let v = "0b"@ + bit_digits(b);
    let w = "0b"@ + bit_digits(m);
    assert("mask"@[0] == 'm' && "then"@[0] == 't' && "else"@[0] == 'e');
    assert(word_token("mask"@) == Some(Tok::Mask));
    assert(is_word("mask"@));
    assert(" mask 0b"@ =~= k + "0b"@);
    assert(pat_text(Pat::Wildcard(b, m)) =~= v + k + w);
    lemma_wrap_parts(s, i, v, k, w);
    let e = i + v.len();
    lemma_stands_at(s, e, k, 0);
    lemma_bits_token(s, i, b);
    lemma_key(s, e, "mask"@, Tok::Mask);
    lemma_bits_token(s, e + 6, m);
    let t = seq![Tok::Lit(b.reverse())];
    let z = seq![Tok::Lit(m.reverse())];
    lemma_lexes(s, i, t, e, seq![Tok::Mask], e + 6);
    lemma_lexes(s, i, t + seq![Tok::Mask], e + 6, z, s.len() as int);
}

proof fn lemma_bounds_lexes(s: Seq<char>, i: int, a: Seq<bool>, b: Seq<bool>)
    requires
        printable_pattern(Pat::IpRange(a, b)),
        stands(s, i, pat_text(Pat::IpRange(a, b))),
        i + pat_text(Pat::IpRange(a, b)).len() == s.len(),
    ensures
        lexes(s, i, pat_toks(Pat::IpRange(a, b)), s.len() as int),
{
    reveal_strlit("-0b");
    reveal_strlit("0b");
    reveal_strlit("");
    let v = "0b"@ + bit_digits(a);
    let w = "0b"@ + bit_digits(b);
    assert("-0b"@ =~= seq!['-'] + "0b"@);
    assert(pat_text(Pat::IpRange(a, b)) =~= v + seq!['-'] + w);
    lemma_wrap_parts(s, i, v, seq!['-'], w);
    let e = i + v.len();
    lemma_stands_at(s, e, seq!['-'], 0);
    lemma_bits_token(s, i, a);
    lemma_mark(s, e, Tok::Minus);
    lemma_bits_token(s, e + 1, b);
    let t = seq![Tok::Lit(a.reverse())];
    let z = seq![Tok::Lit(b.reverse())];
    lemma_lexes(s, i, t, e, seq![Tok::Minus], e + 1);
    lemma_lexes(s, i, t + seq![Tok::Minus], e + 1, z, s.len() as int);
}

proof fn lemma_pattern_read(u: Seq<Tok>, q: int, p: Pat)
    requires
        printable_pattern(p),
        stands(u, q, pat_toks(p)),
        q + pat_toks(p).len() == u.len() - 1,
        u.last() == Tok::Eof,
    ensures
        pat_toks(p).len() > 0,
        pattern_at(u, q) == Ok::<(Pat, int), int>((turned(p), u.len() - 1)),
{
    lemma_stands_at(u, q, pat_toks(p), 0);
    if !(p is Exact) {
        lemma_stands_at(u, q, pat_toks(p), 1);
        lemma_stands_at(u, q, pat_toks(p), 2);
    }
}

/// What is matched with the pattern: a name, or a range of fields.
spec fn matches_with(z: Term, th: Seq<Tok>, p: Pat) -> bool {
    match z {
        Term::VarMatch(x, q) => th == seq![Tok::Ident(x)] && q == turned(p),
        Term::BitRangeMatch(f, g, q) => f <= g && th == range_toks(f, g) && q == turned(p),
        _ => false,
    }
}

proof fn lemma_match_read(s: Seq<char>, h: Seq<char>, th: Seq<Tok>, p: Pat, z: Term)
    requires
        printable_pattern(p),
        s == h + " ~ "@ + pat_text(p),
        lexes(s, 0, th, h.len() as int),
        matches_with(z, th, p),
    ensures
        reads_as(s, z),
{
    reveal_strlit(" ~ ");
    let e = s.len() as int;
    let k = h.len() as int;
    assert(s.subrange(0, e) =~= s);
    lemma_wrap_parts(s, 0, h, " ~ "@, pat_text(p));
    lemma_stands_at(s, k, " ~ "@, 0);
    lemma_stands_at(s, k, " ~ "@, 1);
    lemma_stands_at(s, k, " ~ "@, 2);
    lemma_mark(s, k + 1, Tok::Tilde);
    lemma_spaced(s, k, Tok::Tilde, k + 2);
    match p {
        Pat::Exact(b) => lemma_bits_token(s, k + 3, b),
        Pat::Cidr(b, n) => lemma_cidr_lexes(s, k + 3, b, n),
        Pat::Wildcard(b, m) => lemma_wildcard_lexes(s, k + 3, b, m),
        Pat::IpRange(a, b) => lemma_bounds_lexes(s, k + 3, a, b),
    }
    let tl = seq![Tok::Tilde];
    lemma_lexes(s, 0, th, k, tl, k + 3);
    lemma_lexes(s, 0, th + tl, k + 3, pat_toks(p), e);
    lemma_all_lexes(s, th + tl + pat_toks(p));
    let u = toks_from(s, 0);
    lemma_match_toks(u, th, p, z);
    lemma_whole(s, z);
}

#[verifier::rlimit(40)]
proof fn lemma_match_toks(u: Seq<Tok>, th: Seq<Tok>, p: Pat, z: Term)
    requires
        printable_pattern(p),
        u == th + seq![Tok::Tilde] + pat_toks(p) + seq![Tok::Eof],
        matches_with(z, th, p),
    ensures
        u.len() >= 2,
        u.last() == Tok::Eof,
        u[0] != Tok::Eof,
        expr_at(u, 0, 0) == Ok::<(Term, int), int>((z, u.len() - 1)),
{
    let tl = seq![Tok::Tilde];
    let te = seq![Tok::Eof];
    let e = u.len() - 1;
    let k = th.len() as int;
    assert(u.subrange(0, u.len() as int) =~= u);
    lemma_stands(u, 0, th + tl + pat_toks(p), te);
    lemma_stands(u, 0, th + tl, pat_toks(p));
    lemma_stands(u, 0, th, tl);
    lemma_stands_at(u, k, tl, 0);
    lemma_stands_at(u, e, te, 0);
    lemma_pattern_read(u, k + 1, p);
    assert(at(u, k) == Tok::Tilde);
    lemma_stands_at(u, 0, th, 0);
    if th.len() > 1 {
        lemma_stands_at(u, 0, th, 1);
        lemma_stands_at(u, 0, th, 2);
        lemma_stands_at(u, 0, th, 3);
        lemma_stands_at(u, 0, th, 4);
        lemma_stands_at(u, 0, th, 5);
    }
    assert(leaf_at(u, 0) == Ok::<(Term, int), int>((z, e)));
    assert(starred(u, e, z) == (z, e));
    assert(expr_at(u, 0, 4) == Ok::<(Term, int), int>((z, e)));
    lemma_to_end(u, 0, z, e);
}

/// A name before a pattern is read as a match of that pattern, and so is a range of fields;
/// binary digits are read from the last.
pub proof fn law_pattern_read(x: Seq<char>, f: u32, g: u32, p: Pat)
    requires
        is_name(x),
        f <= g,
        printable_pattern(p),
    ensures
        reads_as(x + " ~ "@ + pat_text(p), Term::VarMatch(x, turned(p))),
        reads_as(range_of(f, g) + " ~ "@ + pat_text(p), Term::BitRangeMatch(f, g, turned(p))),
{
    reveal_strlit(" ~ ");
    let s = x + " ~ "@ + pat_text(p);
    assert(s.subrange(0, s.len() as int) =~= s);
    assert(s.subrange(0, x.len() as int) =~= x);
    assert(s[x.len() as int] == ' ');
    lemma_word(s, 0, x, Tok::Ident(x));
    lemma_match_read(s, x, seq![Tok::Ident(x)], p, Term::VarMatch(x, turned(p)));
    let h = range_of(f, g);
    let r = h + " ~ "@ + pat_text(p);
    assert(r.subrange(0, h.len() as int) =~= h);
    lemma_range_text(r, 0, f, g);
    lemma_match_read(r, h, range_toks(f, g), p, Term::BitRangeMatch(f, g, turned(p)));
}

proof fn lemma_padded(b: Seq<bool>, width: nat)
    ensures
        padded(b, width).len() == if b.len() < width {
            width
        } else {
            b.len()
        },
        value(padded(b, width)) == value(b),
{
    if b.len() < width {
        let z = Seq::new((width - b.len()) as nat, |i: int| false);
        lemma_value_cat(b, z);
        lemma_value_off(z);
        assert(two_to(b.len()) * 0 == 0) by (nonlinear_arith);
    }
}

proof fn lemma_value_off(z: Seq<bool>)
    requires
        forall|i: int| 0 <= i < z.len() ==> !#[trigger] z[i],
    ensures
        value(z) == 0,
    decreases z.len(),
{
    if z.len() > 0 {
        let r = z.drop_first();
        assert forall|i: int| 0 <= i < r.len() implies !#[trigger] r[i] by {
            assert(r[i] == z[i + 1]);
        }
        lemma_value_off(r);
        assert(!z[0]);
    }
}

proof fn lemma_range_toks(u: Seq<Tok>, f: u32, g: u32, n: u64, o: Tok, z: Term)
    requires
        f <= g,
        o == Tok::Eq && z == Term::BitRangeTest(
            f,
            g,
            padded(min_bits(n as nat), (g - f) as nat),
        ) || o == Tok::Assign && z == Term::BitRangeAssign(
            f,
            g,
            padded(min_bits(n as nat), (g - f) as nat),
        ),
        u == range_toks(f, g) + seq![o] + seq![Tok::Num(n)] + seq![Tok::Eof],
    ensures
        u.len() == 9,
        u.last() == Tok::Eof,
        u[0] != Tok::Eof,
        expr_at(u, 0, 0) == Ok::<(Term, int), int>((z, u.len() - 1)),
{
    assert(u =~= seq![
        Tok::Bits,
        Tok::LBracket,
        Tok::Num(f as u64),
        Tok::DotDot,
        Tok::Num(g as u64),
        Tok::RBracket,
        o,
        Tok::Num(n),
        Tok::Eof,
    ]);
    assert(range_at(u, 0) == Ok::<((u32, u32), int), int>(((f, g), 6)));
    assert(at(u, 6) == o && at(u, 7) == Tok::Num(n));
    assert(leaf_at(u, 0) == Ok::<(Term, int), int>((z, 8)));
    assert(starred(u, 8, z) == (z, 8int));
    assert(expr_at(u, 0, 4) == Ok::<(Term, int), int>((z, 8)));
    lemma_to_end(u, 0, z, 8);
}

proof fn lemma_number_after(
    s: Seq<char>,
    h: Seq<char>,
    th: Seq<Tok>,
    m: Seq<char>,
    o: Tok,
    n: u64,
)
    requires
        s == h + m + decimal(n as nat),
        lexes(s, 0, th, h.len() as int),
        m == seq![' ', '=', '=', ' '] && o == Tok::Eq || m == seq![' ', ':', '=', ' '] && o
            == Tok::Assign,
    ensures
        tokens_from(s, 0) is Ok,
        toks_from(s, 0) == th + seq![o] + seq![Tok::Num(n)] + seq![Tok::Eof],
{
    let k = h.len() as int;
    let e = s.len() as int;
    assert(s.subrange(0, e) =~= s);
    lemma_wrap_parts(s, 0, h, m, decimal(n as nat));
    lemma_relation(s, k, m, o);
    lemma_number(s, k + 4, n);
    lemma_lexes(s, 0, th, k, seq![o], k + 4);
    lemma_lexes(s, 0, th + seq![o], k + 4, seq![Tok::Num(n)], e);
    lemma_all_lexes(s, th + seq![o] + seq![Tok::Num(n)]);
}

proof fn lemma_range_number(f: u32, g: u32, n: u64, m: Seq<char>, o: Tok, z: Term)
    requires
        f <= g,
        m == seq![' ', '=', '=', ' '] && o == Tok::Eq && z == Term::BitRangeTest(
            f,
            g,
            padded(min_bits(n as nat), (g - f) as nat),
        ) || m == seq![' ', ':', '=', ' '] && o == Tok::Assign && z == Term::BitRangeAssign(
            f,
            g,
            padded(min_bits(n as nat), (g - f) as nat),
        ),
    ensures
        reads_as(range_of(f, g) + m + decimal(n as nat), z),
{
    let h = range_of(f, g);
    let s = h + m + decimal(n as nat);
    assert(stands(s, 0, h)) by {
        assert(s.subrange(0, h.len() as int) =~= h);
    }
    lemma_range_text(s, 0, f, g);
    lemma_number_after(s, h, range_toks(f, g), m, o, n);
    let u = toks_from(s, 0);
    lemma_range_toks(u, f, g, n, o, z);
    lemma_whole(s, z);
}

/// A number for a range of fields is read as its bits, with as many zeros above as the range
/// has room for.
pub proof fn law_range_read(f: u32, g: u32, n: u64) -> (b: Seq<bool>)
    requires
        f <= g,
    ensures
        value(b) == n,
        b.len() >= g - f,
        b.len() > g - f ==> b.len() == 1 || b.last(),
        reads_as(range_of(f, g) + " == "@ + decimal(n as nat), Term::BitRangeTest(f, g, b)),
        reads_as(range_of(f, g) + " := "@ + decimal(n as nat), Term::BitRangeAssign(f, g, b)),
{
    let b = padded(min_bits(n as nat), (g - f) as nat);
    lemma_min(n as nat);
    lemma_padded(min_bits(n as nat), (g - f) as nat);
    reveal_strlit(" == ");
    reveal_strlit(" := ");
    assert(" == "@ =~= seq![' ', '=', '=', ' ']);
    assert(" := "@ =~= seq![' ', ':', '=', ' ']);
    lemma_range_number(f, g, n, " == "@, Tok::Eq, Term::BitRangeTest(f, g, b));
    lemma_range_number(f, g, n, " := "@, Tok::Assign, Term::BitRangeAssign(f, g, b));
    b
}
} // verus!
