//! What a text says, and how two texts differ.
use vstd::prelude::*;
use vstd::string::*;
use crate::aut::Aut;
use crate::desugar::{
    desugar, expand, law_expand_bounded, lemma_bounded, lemma_closed, lemma_fields, Scope,
};
use crate::expr::{fields_of, larger, max_u32, Exp, Expr, Term};
use crate::lang::{closed_over, is_word, lang, packets, Word};
use crate::parser::{
    decimal_value, expr_at, exprs_from, leaf_at, only_toks, parse_expressions, rest_at, run_end,
    skip_blank, starred, terms, text_exprs, token_at, tokens_from, unexpected, well_read, Class,
    ParseErrorDetails, Span, Tok,
};
use crate::sp::Pkt;
use crate::text::join2;

verus! {

/// A run: the packets that it records, and its output if it ended.
pub type Trace = (Vec<Vec<bool>>, Option<Vec<bool>>);

/// What the analysis of one text found.
#[derive(Debug)]
pub struct AnalysisResult {
    pub status: String,
    pub error: Option<ParseErrorDetails>,
    pub traces: Option<Vec<Trace>>,
}

/// What the comparison of two texts found.
#[derive(Debug)]
pub struct DifferenceResult {
    pub expr1_errors: Option<ParseErrorDetails>,
    pub expr2_errors: Option<ParseErrorDetails>,
    pub example_traces: Option<Vec<Trace>>,
}

/// A greeting.
pub fn greet(name: &str) -> (s: String)
    ensures
        s@ == "Hello from Rust, "@ + name@ + "!"@,
{
    crate::text::join3("Hello from Rust, ", name, "!")
}

// ---- the order of traces -----------------------------------------------------------------------

/// How two values are ordered.
#[derive(Debug, Clone, Copy, PartialEq, Eq, Structural)]
pub enum Rank {
    Less,
    Same,
    More,
}

/// The other way round.
pub open spec fn turned(r: Rank) -> Rank {
    match r {
        Rank::Less => Rank::More,
        Rank::Same => Rank::Same,
        Rank::More => Rank::Less,
    }
}

/// The order of bits, word by word, from position `i` on.
pub open spec fn bits_rank(a: Seq<bool>, b: Seq<bool>, i: int) -> Rank
    decreases a.len() - i,
{
    if i >= a.len() {
        if i >= b.len() {
            Rank::Same
        } else {
            Rank::Less
        }
    } else if i >= b.len() {
        Rank::More
    } else if a[i] == b[i] {
        bits_rank(a, b, i + 1)
    } else if b[i] {
        Rank::Less
    } else {
        Rank::More
    }
}

/// The order of lists of packets from position `i` on.
pub open spec fn list_rank(a: Seq<Pkt>, b: Seq<Pkt>, i: int) -> Rank
    decreases a.len() - i,
{
    if i >= a.len() {
        if i >= b.len() {
            Rank::Same
        } else {
            Rank::Less
        }
    } else if i >= b.len() {
        Rank::More
    } else if bits_rank(a[i], b[i], 0) == Rank::Same {
        list_rank(a, b, i + 1)
    } else {
        bits_rank(a[i], b[i], 0)
    }
}

/// The order of traces: by their packets, and then by their outputs, none first.
pub open spec fn trace_rank(a: Trace, b: Trace) -> Rank {
    let r = list_rank(packets(a.0@), packets(b.0@), 0);
    if r != Rank::Same {
        r
    } else {
        match (a.1, b.1) {
            (None, None) => Rank::Same,
            (None, Some(_)) => Rank::Less,
            (Some(_), None) => Rank::More,
            (Some(x), Some(y)) => bits_rank(x@, y@, 0),
        }
    }
}

proof fn lemma_bits_turned(a: Seq<bool>, b: Seq<bool>, i: int)
    ensures
        bits_rank(b, a, i) == turned(bits_rank(a, b, i)),
    decreases a.len() - i,
{
    if i < a.len() && i < b.len() && a[i] == b[i] {
        lemma_bits_turned(a, b, i + 1);
    }
}

proof fn lemma_list_turned(a: Seq<Pkt>, b: Seq<Pkt>, i: int)
    ensures
        list_rank(b, a, i) == turned(list_rank(a, b, i)),
    decreases a.len() - i,
{
    if i < a.len() && i < b.len() {
        lemma_bits_turned(a[i], b[i], 0);
        lemma_list_turned(a, b, i + 1);
    }
}

/// The order of traces is the same both ways round.
pub proof fn law_rank_turned(a: Trace, b: Trace)
    ensures
        trace_rank(b, a) == turned(trace_rank(a, b)),
{
    lemma_list_turned(packets(a.0@), packets(b.0@), 0);
    match (a.1, b.1) {
        (Some(x), Some(y)) => lemma_bits_turned(x@, y@, 0),
        _ => {},
    }
}

fn rank_bits(a: &Vec<bool>, b: &Vec<bool>) -> (r: Rank)
    ensures
        r == bits_rank(a@, b@, 0),
{
    let mut i: usize = 0;
    while i < a.len() && i < b.len()
        invariant
            i <= a@.len(),
            i <= b@.len(),
            bits_rank(a@, b@, i as int) == bits_rank(a@, b@, 0),
        decreases a.len() - i,
    {
        if a[i] != b[i] {
            return if b[i] {
                Rank::Less
            } else {
                Rank::More
            };
        }
        i = i + 1;
    }
    if i < b.len() {
        Rank::Less
    } else if i < a.len() {
        Rank::More
    } else {
        Rank::Same
    }
}

fn rank_traces(a: &Trace, b: &Trace) -> (r: Rank)
    ensures
        r == trace_rank(*a, *b),
{
    let ghost x = packets(a.0@);
    let ghost y = packets(b.0@);
    let mut i: usize = 0;
    while i < a.0.len() && i < b.0.len()
        invariant
            x == packets(a.0@),
            y == packets(b.0@),
            i <= a.0@.len(),
            i <= b.0@.len(),
            list_rank(x, y, i as int) == list_rank(x, y, 0),
        decreases a.0.len() - i,
    {
        let r = rank_bits(&a.0[i], &b.0[i]);
        assert(x[i as int] == a.0@[i as int]@ && y[i as int] == b.0@[i as int]@);
        if r != Rank::Same {
            return r;
        }
        i = i + 1;
    }
    if i < b.0.len() {
        return Rank::Less;
    }
    if i < a.0.len() {
        return Rank::More;
    }
    match (&a.1, &b.1) {
        (None, None) => Rank::Same,
        (None, Some(_)) => Rank::Less,
        (Some(_), None) => Rank::More,
        (Some(p), Some(q)) => rank_bits(p, q),
    }
}

/// A trace comes before the next.
pub open spec fn ascends(v: Seq<Trace>, i: int) -> bool {
    trace_rank(v[i], v[i + 1]) == Rank::Less
}

/// Each trace comes before the next.
pub open spec fn ascending(v: Seq<Trace>) -> bool {
    forall|i: int| 0 <= i < v.len() - 1 ==> #[trigger] ascends(v, i)
}

/// Where a trace belongs, if it is not there.
fn place_of(v: &Vec<Trace>, t: &Trace) -> (r: Option<usize>)
    ensures
        match r {
            Some(p) => p <= v@.len() && (p > 0 ==> trace_rank(*t, v@[p - 1]) == Rank::More) && (p
                < v@.len() ==> trace_rank(*t, v@[p as int]) == Rank::Less),
            None => exists|i: int|
                0 <= i < v@.len() && trace_rank(*t, #[trigger] v@[i]) == Rank::Same,
        },
{
    let mut p: usize = 0;
    while p < v.len()
        invariant
            p <= v@.len(),
            p > 0 ==> trace_rank(*t, v@[p - 1]) == Rank::More,
        decreases v.len() - p,
    {
        match rank_traces(t, &v[p]) {
            Rank::Same => {
                return None;
            },
            Rank::Less => {
                return Some(p);
            },
            Rank::More => {},
        }
        p = p + 1;
    }
    Some(p)
}

/// Puts a trace in its place, if it is not there.
fn insert_trace(v: &mut Vec<Trace>, t: Trace)
    requires
        ascending(old(v)@),
    ensures
        ascending(final(v)@),
        final(v)@.len() >= 1,
        old(v)@.len() <= final(v)@.len() <= old(v)@.len() + 1,
        forall|i: int|
            0 <= i < final(v)@.len() ==> #[trigger] final(v)@[i] == t || old(v)@.contains(
                final(v)@[i],
            ),
{
    let ghost v0 = v@;
    let ghost t0 = t;
    match place_of(v, &t) {
        None => {
            proof {
                assert forall|i: int| 0 <= i < v@.len() implies #[trigger] v@[i] == t0
                    || v0.contains(v@[i]) by {
                    assert(v0[i] == v@[i]);
                }
            }
        },
        Some(p) => {
            v.insert(p, t);
            proof {
                if p > 0 {
                    law_rank_turned(t0, v0[p - 1]);
                }
                assert forall|i: int| 0 <= i < v@.len() - 1 implies #[trigger] ascends(v@, i) by {
                    if i + 1 < p {
                        assert(ascends(v0, i));
                    } else if i > p {
                        assert(ascends(v0, i - 1));
                    }
                }
                assert forall|i: int| 0 <= i < v@.len() implies #[trigger] v@[i] == t0
                    || v0.contains(v@[i]) by {
                    if i < p {
                        assert(v0[i] == v@[i]);
                    } else if i > p {
                        assert(v0[i - 1] == v@[i]);
                    }
                }
            }
        },
    }
}

// ---- texts -------------------------------------------------------------------------------------

/// What is wrong with a text: a message, and where.
pub type Wrong = (Seq<char>, Option<Span>);

/// The error says what is wrong.
pub open spec fn tells(e: ParseErrorDetails, w: Wrong) -> bool {
    e.message@ == w.0 && e.span == w.1
}

/// The errors say what is wrong with two texts.
pub open spec fn tells_both(
    e: (Option<ParseErrorDetails>, Option<ParseErrorDetails>),
    w: (Option<Wrong>, Option<Wrong>),
) -> bool {
    &&& e.0 is Some <==> w.0 is Some
    &&& e.1 is Some <==> w.1 is Some
    &&& e.0 is Some ==> tells(e.0->Some_0, w.0->Some_0)
    &&& e.1 is Some ==> tells(e.1->Some_0, w.1->Some_0)
}

/// The first expression of a text.
pub open spec fn first_expr(s: Seq<char>, none: Seq<char>) -> Result<Term, Wrong> {
    match text_exprs(s) {
        Err(at) => Err((unexpected(s, at), Some(at))),
        Ok(es) => if es.len() == 0 {
            Err((none, None))
        } else {
            Ok(es[0])
        },
    }
}

fn read_first(text: &str, none: &str) -> (r: Result<Exp, ParseErrorDetails>)
    requires
        text@.len() + 64 <= usize::MAX,
    ensures
        match r {
            Ok(e) => first_expr(text@, none@) == Ok::<Term, Wrong>(e@) && well_read(e@),
            Err(e) => first_expr(text@, none@) is Err && tells(
                e,
                first_expr(text@, none@)->Err_0,
            ),
        },
{
    match parse_expressions(text) {
        Err(e) => Err(e),
        Ok(mut es) => {
            if es.len() == 0 {
                Err(ParseErrorDetails { message: String::from_str(none), span: None })
            } else {
                assert(terms(es@)[0] == es@[0]@);
                Ok(es.remove(0))
            }
        },
    }
}

/// The expression without sugar.
pub open spec fn plain(t: Term) -> Result<Term, Wrong> {
    match expand(t, Scope::empty()) {
        Ok(u) => Ok(u),
        Err(m) => Err(("Desugaring error: "@ + m, None)),
    }
}

fn make_plain(e: &Exp) -> (r: Result<Exp, ParseErrorDetails>)
    requires
        well_read(e@),
    ensures
        match r {
            Ok(d) => plain(e@) == Ok::<Term, Wrong>(d@) && closed_over(d@, fields_of(d@))
                && fields_of(d@) <= u32::MAX && crate::desugar::bounded(d@, u32::MAX as nat, 0)
                && crate::expr::is_core(d@),
            Err(d) => plain(e@) is Err && tells(d, plain(e@)->Err_0),
        },
{
    proof {
        law_expand_bounded(e@, Scope::empty(), u32::MAX as nat, 0);
    }
    match desugar(e) {
        Ok(d) => {
            proof {
                lemma_fields(d@, u32::MAX as nat, 0);
                lemma_bounded(d@, u32::MAX as nat, fields_of(d@), 0);
                lemma_closed(d@, fields_of(d@));
            }
            Ok(d)
        },
        Err(m) => Err(
            ParseErrorDetails {
                message: join2("Desugaring error: ", m.message.as_str()),
                span: None,
            },
        ),
    }
}

/// The difference of two texts, as an expression, or what is wrong with them.
pub open spec fn difference_of(s1: Seq<char>, s2: Seq<char>) -> Result<
    Term,
    (Option<Wrong>, Option<Wrong>),
> {
    let a = first_expr(s1, "Expression 1 is empty or only comments"@);
    let b = first_expr(s2, "Expression 2 is empty or only comments"@);
    if a is Err || b is Err {
        Err(
            (
                if a is Err {
                    Some(a->Err_0)
                } else {
                    None
                },
                if b is Err {
                    Some(b->Err_0)
                } else {
                    None
                },
            ),
        )
    } else if plain(a->Ok_0) is Err {
        Err((Some(plain(a->Ok_0)->Err_0), None))
    } else if plain(b->Ok_0) is Err {
        Err((None, Some(plain(b->Ok_0)->Err_0)))
    } else {
        Ok(Term::Difference(Box::new(plain(a->Ok_0)->Ok_0), Box::new(plain(b->Ok_0)->Ok_0)))
    }
}

/// The expression has a word.
pub open spec fn has_words(t: Term) -> bool {
    exists|w: Word| is_word(fields_of(t), w) && #[trigger] lang(t, fields_of(t))(w)
}

/// The trace is a word of the expression, or the first `most` packets of one.
pub open spec fn is_sample(t: Term, trace: Trace, most: nat) -> bool {
    let n = fields_of(t);
    match trace.1 {
        Some(out) => trace.0@.len() <= most && is_word(n, packets(trace.0@).push(out@)) && lang(
            t,
            n,
        )(packets(trace.0@).push(out@)),
        None => trace.0@.len() == most && exists|w: Word|
            is_word(n, w) && #[trigger] lang(t, n)(w) && most <= w.len() && w.take(most as int)
                == packets(trace.0@),
    }
}

/// The traces are some of the words, in order and none twice.
pub open spec fn are_samples(t: Term, v: Seq<Trace>, most: nat) -> bool {
    &&& ascending(v)
    &&& forall|i: int| 0 <= i < v.len() ==> is_sample(t, #[trigger] v[i], most)
}

/// The text begins with an expression that stands for `x`.
pub open spec fn stands_for(s: Seq<char>, x: Term) -> bool {
    &&& text_exprs(s) is Ok
    &&& text_exprs(s)->Ok_0.len() > 0
    &&& expand(text_exprs(s)->Ok_0[0], Scope::empty()) == Ok::<Term, Seq<char>>(x)
}

/// The text begins with an expression.
pub open spec fn readable(s: Seq<char>) -> bool {
    exists|x: Term| stands_for(s, x)
}

/// A word over the fields of both that the first has and the second has not.
pub open spec fn only_first(x: Term, y: Term, w: Word) -> bool {
    let n = larger(fields_of(x), fields_of(y));
    is_word(n, w) && lang(x, n)(w) && !lang(y, n)(w)
}

/// The first has a word that the second has not.
pub open spec fn differ(x: Term, y: Term) -> bool {
    exists|w: Word| #[trigger] only_first(x, y, w)
}

/// The trace is a word of the first and none of the second, or the first `most` packets of
/// one.
pub open spec fn shows_difference(x: Term, y: Term, trace: Trace, most: nat) -> bool {
    match trace.1 {
        Some(out) => trace.0@.len() <= most && only_first(x, y, packets(trace.0@).push(out@)),
        None => trace.0@.len() == most && exists|w: Word| #[trigger]
            only_first(x, y, w) && most <= w.len() && w.take(most as int) == packets(trace.0@),
    }
}

/// What comparing the first text with the second comes to: whether there is a difference,
/// and traces that show it.
pub open spec fn compares(
    s1: Seq<char>,
    s2: Seq<char>,
    different: bool,
    traces: Option<Vec<Trace>>,
    x: Term,
    y: Term,
    most: nat,
) -> bool {
    &&& stands_for(s1, x)
    &&& stands_for(s2, y)
    &&& different <==> differ(x, y)
    &&& traces matches Some(v) ==> forall|i: int|
        0 <= i < v@.len() ==> shows_difference(x, y, #[trigger] v@[i], most)
}

/// The difference of two texts has the words that the first has and the second has not.
pub proof fn law_difference(s1: Seq<char>, s2: Seq<char>, x: Term, y: Term, w: Word)
    requires
        stands_for(s1, x),
        stands_for(s2, y),
    ensures
        difference_of(s1, s2) is Ok,
        ({
            let t = difference_of(s1, s2)->Ok_0;
            let n = fields_of(t);
            is_word(n, w) && lang(t, n)(w) <==> only_first(x, y, w)
        }),
        fields_of(difference_of(s1, s2)->Ok_0) == larger(fields_of(x), fields_of(y)),
{
}

/// Texts that cannot be read have no difference.
pub proof fn law_no_difference(s1: Seq<char>, s2: Seq<char>)
    ensures
        difference_of(s1, s2) is Err <==> !readable(s1) || !readable(s2),
{
    if difference_of(s1, s2) is Ok {
        let a = text_exprs(s1)->Ok_0[0];
        let b = text_exprs(s2)->Ok_0[0];
        assert(stands_for(s1, expand(a, Scope::empty())->Ok_0));
        assert(stands_for(s2, expand(b, Scope::empty())->Ok_0));
    }
    if readable(s1) && readable(s2) {
        let x = choose|x: Term| stands_for(s1, x);
        let y = choose|y: Term| stands_for(s2, y);
        law_difference(s1, s2, x, y, Seq::empty());
    }
}

/// What was found of the difference, as a term, is what was found of the two texts.
proof fn lemma_compares(
    s1: Seq<char>,
    s2: Seq<char>,
    different: bool,
    traces: Option<Vec<Trace>>,
    most: nat,
) -> (res: (Term, Term))
    requires
        difference_of(s1, s2) is Ok,
        different == has_words(difference_of(s1, s2)->Ok_0),
        traces matches Some(v) ==> are_samples(difference_of(s1, s2)->Ok_0, v@, most),
    ensures
        compares(s1, s2, different, traces, res.0, res.1, most),
{
    let t = difference_of(s1, s2)->Ok_0;
    let n = fields_of(t);
    let x = expand(text_exprs(s1)->Ok_0[0], Scope::empty())->Ok_0;
    let y = expand(text_exprs(s2)->Ok_0[0], Scope::empty())->Ok_0;
    assert(stands_for(s1, x) && stands_for(s2, y));
    assert forall|w: Word| is_word(n, w) && #[trigger] lang(t, n)(w) <==> only_first(x, y, w) by {
        law_difference(s1, s2, x, y, w);
    }
    if has_words(t) {
        let w = choose|w: Word| is_word(n, w) && #[trigger] lang(t, n)(w);
        assert(only_first(x, y, w));
    }
    if differ(x, y) {
        let w = choose|w: Word| #[trigger] only_first(x, y, w);
        assert(is_word(n, w) && lang(t, n)(w));
    }
    if let Some(v) = traces {
        assert forall|i: int| 0 <= i < v@.len() implies shows_difference(
            x,
            y,
            #[trigger] v@[i],
            most,
        ) by {
            assert(is_sample(t, v@[i], most));
            match v@[i].1 {
                Some(out) => {
                    let w = packets(v@[i].0@).push(out@);
                    assert(is_word(n, w) && lang(t, n)(w));
                    assert(only_first(x, y, w));
                },
                None => {
                    let w = choose|w: Word|
                        is_word(n, w) && #[trigger] lang(t, n)(w) && most <= w.len() && w.take(
                            most as int,
                        ) == packets(v@[i].0@);
                    assert(only_first(x, y, w));
                },
            }
        }
    }
    (x, y)
}

/// Whether the difference of two texts is empty, and up to `num_traces` random words
/// of it, of at most `max_trace_length` packets before the last; or what is wrong
/// with the texts.
pub fn analyze_expressions_internal(
    expr1_str: &str,
    expr2_str: &str,
    num_traces: usize,
    max_trace_length: usize,
) -> (r: Result<
    (bool, Option<Vec<Trace>>),
    (Option<ParseErrorDetails>, Option<ParseErrorDetails>),
>)
    requires
        expr1_str@.len() + 64 <= usize::MAX,
        expr2_str@.len() + 64 <= usize::MAX,
    ensures
        match r {
            Ok((empty, traces)) => {
                let t = difference_of(expr1_str@, expr2_str@);
                &&& t is Ok
                &&& empty == !has_words(t->Ok_0)
                &&& traces is Some <==> !empty && num_traces > 0
                &&& traces matches Some(v) ==> 1 <= v@.len() <= num_traces && are_samples(
                    t->Ok_0,
                    v@,
                    max_trace_length as nat,
                )
                &&& exists|x: Term, y: Term|
                    #![trigger stands_for(expr1_str@, x), stands_for(expr2_str@, y)]
                    compares(
                        expr1_str@,
                        expr2_str@,
                        !empty,
                        traces,
                        x,
                        y,
                        max_trace_length as nat,
                    )
            },
            Err(e) => (!readable(expr1_str@) || !readable(expr2_str@)) && difference_of(
                expr1_str@,
                expr2_str@,
            ) is Err && tells_both(
                e,
                difference_of(expr1_str@, expr2_str@)->Err_0,
            ),
        },
{
    proof {
        law_no_difference(expr1_str@, expr2_str@);
    }
    let first = read_first(expr1_str, "Expression 1 is empty or only comments");
    let second = read_first(expr2_str, "Expression 2 is empty or only comments");
    let (parsed1, parsed2) = match (first, second) {
        (Ok(a), Ok(b)) => (a, b),
        (Err(e), Ok(_)) => {
            return Err((Some(e), None));
        },
        (Ok(_), Err(e)) => {
            return Err((None, Some(e)));
        },
        (Err(d), Err(e)) => {
            return Err((Some(d), Some(e)));
        },
    };
    let expr1 = match make_plain(&parsed1) {
        Ok(e) => e,
        Err(e) => {
            return Err((Some(e), None));
        },
    };
    let expr2 = match make_plain(&parsed2) {
        Ok(e) => e,
        Err(e) => {
            return Err((None, Some(e)));
        },
    };
    let fields = max_u32(expr1.num_fields(), expr2.num_fields());
    proof {
        lemma_bounded(expr1@, u32::MAX as nat, fields as nat, 0);
        lemma_closed(expr1@, fields as nat);
        lemma_bounded(expr2@, u32::MAX as nat, fields as nat, 0);
        lemma_closed(expr2@, fields as nat);
    }
    let target = Expr::difference(expr1, expr2);
    let ghost t = target@;
    let ghost n = fields as nat;
    let mut aut = Aut::new(fields);
    let state = aut.expr_to_state(&target);
    let ghost a0 = aut;
    proof {
        assert(fields_of(t) == n);
        if a0.inhabited(state) {
            let w = choose|w: Word| is_word(n, w) && #[trigger] a0.accepts(state, w);
            assert(lang(t, n)(w));
        }
        if has_words(t) {
            let w = choose|w: Word| is_word(n, w) && #[trigger] lang(t, n)(w);
            assert(a0.accepts(state, w));
        }
    }
    let is_empty = aut.is_empty(state);
    if is_empty || num_traces == 0 {
        proof {
            let ghost none: Option<Vec<Trace>> = None;
            let p = lemma_compares(
                expr1_str@,
                expr2_str@,
                !is_empty,
                none,
                max_trace_length as nat,
            );
        }
        return Ok((is_empty, None));
    }
    let attempts: usize = if num_traces > usize::MAX / 10 {
        usize::MAX
    } else {
        num_traces * 10
    };
    let mut traces: Vec<Trace> = Vec::new();
    let mut i: usize = 0;
    while i < attempts && traces.len() < num_traces
        invariant
            aut.wf(),
            a0.wf(),
            a0.has(state),
            a0.n() == n,
            aut.extends(&a0),
            fields_of(t) == n,
            a0.inhabited(state),
            forall|w: Word| is_word(n, w) ==> (#[trigger] a0.accepts(state, w) <==> lang(t, n)(w)),
            i <= attempts,
            num_traces <= attempts,
            num_traces > 0,
            i > 0 ==> traces@.len() >= 1,
            traces@.len() <= num_traces,
            are_samples(t, traces@, max_trace_length as nat),
        decreases attempts - i,
    {
        let ghost a1 = aut;
        proof {
            assert forall|w: Word| is_word(n, w) implies #[trigger] a1.accepts(state, w)
                == a0.accepts(state, w) by {}
            let w = choose|w: Word| is_word(n, w) && #[trigger] a0.accepts(state, w);
            assert(a1.accepts(state, w));
        }
        match aut.random_trace(state, max_trace_length) {
            Some(trace) => {
                let ghost before = traces@;
                let ghost trace0 = trace;
                proof {
                    match trace0.1 {
                        Some(out) => {
                            assert(a1.accepts(state, packets(trace0.0@).push(out@)));
                        },
                        None => {
                            let w = choose|w: Word|
                                is_word(n, w) && #[trigger] a1.accepts(state, w)
                                    && packets(trace0.0@).len() <= w.len() && w.take(
                                    packets(trace0.0@).len() as int,
                                ) == packets(trace0.0@);
                            assert(lang(t, n)(w));
                        },
                    }
                    assert(is_sample(t, trace0, max_trace_length as nat));
                }
                insert_trace(&mut traces, trace);
                proof {
                    assert forall|j: int| 0 <= j < traces@.len() implies is_sample(
                        t,
                        #[trigger] traces@[j],
                        max_trace_length as nat,
                    ) by {
                        if traces@[j] != trace0 {
                            assert(before.contains(traces@[j]));
                            let k = choose|k: int| 0 <= k < before.len() && before[k] == traces@[j];
                            assert(is_sample(t, before[k], max_trace_length as nat));
                        }
                    }
                }
            },
            None => {
                assert(false);
            },
        }
        i = i + 1;
    }
    proof {
        let p = lemma_compares(
            expr1_str@,
            expr2_str@,
            !is_empty,
            Some(traces),
            max_trace_length as nat,
        );
    }
    Ok((is_empty, Some(traces)))
}

/// White space, as Unicode has it.
pub open spec fn is_white(c: char) -> bool {
    ('\u{9}' <= c && c <= '\u{d}') || c == ' ' || c == '\u{85}' || c == '\u{a0}' || c == '\u{1680}'
        || ('\u{2000}' <= c && c <= '\u{200a}') || c == '\u{2028}' || c == '\u{2029}' || c
        == '\u{202f}' || c == '\u{205f}' || c == '\u{3000}'
}

/// The text is white space.
pub open spec fn all_white(s: Seq<char>) -> bool {
    forall|i: int| 0 <= i < s.len() ==> is_white(#[trigger] s[i])
}

fn only_white(text: &str) -> (b: bool)
    ensures
        b == all_white(text@),
{
    let n: usize = text.unicode_len();
    let mut i: usize = 0;
    while i < n
        invariant
            n == text@.len(),
            i <= n,
            forall|j: int| 0 <= j < i ==> is_white(#[trigger] text@[j]),
        decreases n - i,
    {
        let c = text.get_char(i);
        let white: bool = ('\u{9}' <= c && c <= '\u{d}') || c == ' ' || c == '\u{85}' || c == '\u{a0}'
            || c == '\u{1680}' || ('\u{2000}' <= c && c <= '\u{200a}') || c == '\u{2028}' || c
            == '\u{2029}' || c == '\u{202f}' || c == '\u{205f}' || c == '\u{3000}';
        if !white {
            return false;
        }
        i = i + 1;
    }
    true
}

/// The trace is a word of the expression, or the first `most` packets of one.
pub open spec fn shows_word(x: Term, trace: Trace, most: nat) -> bool {
    let n = fields_of(x);
    match trace.1 {
        Some(out) => trace.0@.len() <= most && has_word(x, packets(trace.0@).push(out@)),
        None => trace.0@.len() == most && exists|w: Word| #[trigger]
            has_word(x, w) && most <= w.len() && w.take(most as int) == packets(trace.0@),
    }
}

/// The expression has the word.
pub open spec fn has_word(x: Term, w: Word) -> bool {
    is_word(fields_of(x), w) && lang(x, fields_of(x))(w)
}

/// What reading a text comes to: whether it allows traffic, and traces of that.
pub open spec fn allows(
    s: Seq<char>,
    traffic: bool,
    traces: Option<Vec<Trace>>,
    x: Term,
    most: nat,
) -> bool {
    &&& stands_for(s, x)
    &&& traffic <==> exists|w: Word| #[trigger] has_word(x, w)
    &&& traces matches Some(v) ==> forall|i: int|
        0 <= i < v@.len() ==> shows_word(x, #[trigger] v@[i], most)
}

proof fn lemma_zero_tokens()
    ensures
        tokens_from("0"@, 0) is Ok,
        only_toks(tokens_from("0"@, 0)->Ok_0) == seq![Tok::Num(0), Tok::Eof],
{
    reveal_strlit("0");
    let s = "0"@;
    assert(s.len() == 1 && s[0] == '0');
    assert(run_end(s, 1, Class::Space) == 1);
    assert(run_end(s, 1, Class::Digit) == 1);
    assert(run_end(s, 0, Class::Space) == 0);
    assert(run_end(s, 0, Class::Digit) == 1);
    assert(skip_blank(s, 1) == 1);
    assert(skip_blank(s, 0) == 0);
    assert(decimal_value(s, 0, 0) == 0);
    assert(decimal_value(s, 0, 1) == 0);
    let e = seq![(Tok::Eof, Span { start: 1, end: 1 })];
    assert(tokens_from(s, 1) == Ok::<Seq<(Tok, Span)>, int>(e));
    assert(token_at(s, 0) == Some((Tok::Num(0), 1int)));
    let t = seq![(Tok::Num(0), Span { start: 0, end: 1 })] + e;
    assert(tokens_from(s, 0) == Ok::<Seq<(Tok, Span)>, int>(t));
    assert(only_toks(t) =~= seq![Tok::Num(0), Tok::Eof]);
}

proof fn lemma_zero_read(ts: Seq<Tok>)
    requires
        ts == seq![Tok::Num(0), Tok::Eof],
    ensures
        exprs_from(ts, 0) == Ok::<Seq<Term>, int>(seq![Term::Zero]),
{
    let z = Ok::<(Term, int), int>((Term::Zero, 1));
    assert(ts.len() == 2 && ts[0] == Tok::Num(0) && ts[1] == Tok::Eof);
    assert(starred(ts, 1, Term::Zero) == (Term::Zero, 1int));
    assert(leaf_at(ts, 0) == z);
    assert(expr_at(ts, 0, 4) == z);
    assert(rest_at(ts, 1, 3, Term::Zero) == z);
    assert(expr_at(ts, 0, 3) == z);
    assert(rest_at(ts, 1, 2, Term::Zero) == z);
    assert(expr_at(ts, 0, 2) == z);
    assert(rest_at(ts, 1, 1, Term::Zero) == z);
    assert(expr_at(ts, 0, 1) == z);
    assert(expr_at(ts, 0, 0) == z);
    assert(exprs_from(ts, 1) == Ok::<Seq<Term>, int>(Seq::empty()));
    assert(seq![Term::Zero] + Seq::<Term>::empty() =~= seq![Term::Zero]);
}

/// The text `0` is read as the expression without words.
pub proof fn law_zero()
    ensures
        stands_for("0"@, Term::Zero),
{
    lemma_zero_tokens();
    lemma_zero_read(only_toks(tokens_from("0"@, 0)->Ok_0));
}

/// What differs from no words are the words.
proof fn lemma_allows(
    s: Seq<char>,
    different: bool,
    traces: Option<Vec<Trace>>,
    x: Term,
    y: Term,
    most: nat,
)
    requires
        compares(s, "0"@, different, traces, x, y, most),
    ensures
        allows(s, different, traces, x, most),
{
    law_zero();
    assert(y == Term::Zero);
    assert forall|w: Word| #[trigger] only_first(x, y, w) <==> has_word(x, w) by {}
    if differ(x, y) {
        let w = choose|w: Word| #[trigger] only_first(x, y, w);
        assert(has_word(x, w));
    }
    if exists|w: Word| #[trigger] has_word(x, w) {
        let w = choose|w: Word| #[trigger] has_word(x, w);
        assert(only_first(x, y, w));
    }
    if let Some(v) = traces {
        assert forall|i: int| 0 <= i < v@.len() implies shows_word(x, #[trigger] v@[i], most) by {
            assert(shows_difference(x, y, v@[i], most));
            match v@[i].1 {
                Some(out) => {
                    assert(only_first(x, y, packets(v@[i].0@).push(out@)));
                },
                None => {
                    let w = choose|w: Word| #[trigger]
                        only_first(x, y, w) && most <= w.len() && w.take(most as int) == packets(
                            v@[i].0@,
                        );
                    assert(has_word(x, w));
                },
            }
        }
    }
}

/// What a text allows: whether it drops all packets, and up to five random words of it
/// unless another number is given.
pub fn analyze_expression(
    expr_str: &str,
    num_traces_opt: Option<usize>,
    max_trace_length_opt: Option<usize>,
) -> (r: AnalysisResult)
    requires
        expr_str@.len() + 64 <= usize::MAX,
    ensures
        ({
            let t = difference_of(expr_str@, "0"@);
            let k: usize = if num_traces_opt is Some {
                num_traces_opt->Some_0
            } else {
                5
            };
            let most: usize = if max_trace_length_opt is Some {
                max_trace_length_opt->Some_0
            } else {
                5
            };
            if all_white(expr_str@) {
                r.status@ == "Empty (no input)"@ && r.error is None && r.traces is None
            } else if t is Err {
                &&& !readable(expr_str@)
                &&& r.status@ == "Syntax Error"@
                &&& r.traces is None
                &&& r.error is Some <==> t->Err_0.0 is Some
                &&& r.error is Some ==> tells(r.error->Some_0, t->Err_0.0->Some_0)
            } else {
                &&& r.status@ == (if has_words(t->Ok_0) {
                    "Analysis result: Allows traffic"@
                } else {
                    "Analysis result: Drops all packets"@
                })
                &&& r.error is None
                &&& r.traces is Some <==> has_words(t->Ok_0) && k > 0
                &&& r.traces is Some ==> 1 <= r.traces->Some_0@.len() <= k && are_samples(
                    t->Ok_0,
                    r.traces->Some_0@,
                    most as nat,
                )
                &&& exists|x: Term|
                    #![trigger stands_for(expr_str@, x)]
                    allows(
                        expr_str@,
                        r.status@ == "Analysis result: Allows traffic"@,
                        r.traces,
                        x,
                        most as nat,
                    )
            }
        }),
{
    if only_white(expr_str) {
        return AnalysisResult {
            status: String::from_str("Empty (no input)"),
            error: None,
            traces: None,
        };
    }
    let k: usize = match num_traces_opt {
        Some(k) => k,
        None => 5,
    };
    let most: usize = match max_trace_length_opt {
        Some(k) => k,
        None => 5,
    };
    proof {
        reveal_strlit("0");
        law_zero();
        law_no_difference(expr_str@, "0"@);
    }
    match analyze_expressions_internal(expr_str, "0", k, most) {
        Ok((empty, traces)) => {
            proof {
                let (x, y) = choose|x: Term, y: Term|
                    #![trigger stands_for(expr_str@, x), stands_for("0"@, y)]
                    compares(expr_str@, "0"@, !empty, traces, x, y, most as nat);
                lemma_allows(expr_str@, !empty, traces, x, y, most as nat);
                reveal_strlit("Analysis result: Allows traffic");
                reveal_strlit("Analysis result: Drops all packets");
                assert("Analysis result: Drops all packets"@.len()
                    != "Analysis result: Allows traffic"@.len());
            }
            let status = if empty {
                String::from_str("Analysis result: Drops all packets")
            } else {
                String::from_str("Analysis result: Allows traffic")
            };
            AnalysisResult { status, error: None, traces }
        },
        Err((e, _)) => AnalysisResult {
            status: String::from_str("Syntax Error"),
            error: e,
            traces: None,
        },
    }
}

/// How the first text differs from the second: up to three random words of the first
/// that are none of the second, unless another number is given.
pub fn analyze_difference(
    expr1_str: &str,
    expr2_str: &str,
    num_traces_opt: Option<usize>,
    max_trace_length_opt: Option<usize>,
) -> (r: DifferenceResult)
    requires
        expr1_str@.len() + 64 <= usize::MAX,
        expr2_str@.len() + 64 <= usize::MAX,
    ensures
        ({
            let t = difference_of(expr1_str@, expr2_str@);
            let k: usize = if num_traces_opt is Some {
                num_traces_opt->Some_0
            } else {
                3
            };
            let most: usize = if max_trace_length_opt is Some {
                max_trace_length_opt->Some_0
            } else {
                5
            };
            if t is Err {
                (!readable(expr1_str@) || !readable(expr2_str@)) && r.example_traces is None && tells_both((r.expr1_errors, r.expr2_errors), t->Err_0)
            } else {
                &&& r.expr1_errors is None
                &&& r.expr2_errors is None
                &&& r.example_traces is Some <==> has_words(t->Ok_0) && k > 0
                &&& r.example_traces is Some ==> 1 <= r.example_traces->Some_0@.len() <= k
                    && are_samples(t->Ok_0, r.example_traces->Some_0@, most as nat)
                &&& k > 0 ==> exists|x: Term, y: Term|
                    #![trigger stands_for(expr1_str@, x), stands_for(expr2_str@, y)]
                    compares(
                        expr1_str@,
                        expr2_str@,
                        r.example_traces is Some,
                        r.example_traces,
                        x,
                        y,
                        most as nat,
                    )
            }
        }),
{
    let k: usize = match num_traces_opt {
        Some(k) => k,
        None => 3,
    };
    let most: usize = match max_trace_length_opt {
        Some(k) => k,
        None => 5,
    };
    proof {
        law_no_difference(expr1_str@, expr2_str@);
    }
    match analyze_expressions_internal(expr1_str, expr2_str, k, most) {
        Ok((_, traces)) => DifferenceResult {
            expr1_errors: None,
            expr2_errors: None,
            example_traces: traces,
        },
        Err((d, e)) => DifferenceResult { expr1_errors: d, expr2_errors: e, example_traces: None },
    }
}

} // verus!
