use katch2::analysis::{analyze_difference, analyze_expression, greet};
use katch2::aut::{Aut, ST};
use katch2::desugar::{desugar, desugar_all};
use katch2::expr::{Expr, Hole};
use katch2::flags::Flags;
use katch2::holes::candidate::spp_reference_dfa;
use katch2::holes::cegis::{next_candidates, verdict, CegisError};
use katch2::holes::aut::DFA;
use katch2::holes::explicit::{expr_to_dfa, ExplicitDFA};
use katch2::holes::inst::Filling;
use katch2::holes::learner::{learn_spp, Example};
use katch2::holes::nk_with_holes::Expr as HExpr;
use katch2::holes::parser::{desugar as lower, parse_program, to_hole_expr};
use katch2::holes::problem::to_automata;
use katch2::holes::search::is_empty_with_reachable;
use katch2::holes::smt::{InconsistentError, LearnError, Solution};
use katch2::holes::{full_reference_dfa, solve_holes};
use katch2::parser::{parse_expressions, Lexer, Parser, Span, TokenKind};
use katch2::spp::{SPPstore, SPP};

fn one(text: &str) -> Box<Expr> {
    let mut es = parse_expressions(text).unwrap();
    assert_eq!(es.len(), 1);
    es.remove(0)
}

#[test]
fn tokens_have_their_places() {
    let tokens = Lexer::new("x10 := 1 // set\n0xA5").tokens().unwrap();
    let kinds: Vec<TokenKind> = tokens.iter().map(|t| t.kind.clone()).collect();
    assert_eq!(
        kinds,
        vec![
            TokenKind::Field(10),
            TokenKind::Assign,
            TokenKind::Num(1),
            TokenKind::Lit(vec![true, false, true, false, false, true, false, true]),
            TokenKind::Eof,
        ]
    );
    assert_eq!(tokens[0].span, Span { start: 0, end: 3 });
    assert_eq!(tokens[3].span, Span { start: 16, end: 20 });
}

#[test]
fn addresses_are_numbers_of_four_bytes() {
    let tokens = Lexer::new("192.168.1.2").tokens().unwrap();
    let n: u32 = 0xC0A8_0102;
    let bits: Vec<bool> = (0..32).map(|i| (n >> i) & 1 == 1).collect();
    assert_eq!(tokens[0].kind, TokenKind::Lit(bits));
    assert!(Lexer::new("1.2.3.256").tokens().is_err());
}

#[test]
fn operators_bind_as_they_should() {
    assert_eq!(
        one("0 + 1 & T ; dup*"),
        Expr::sequence(
            Expr::union(Expr::zero(), Expr::intersect(Expr::one(), Expr::top())),
            Expr::star(Expr::dup()),
        )
    );
    assert_eq!(
        one("0 - 1 - T"),
        Expr::difference(Expr::difference(Expr::zero(), Expr::one()), Expr::top())
    );
    assert_eq!(
        one("X 0 U 1 U T"),
        Expr::ltl_until(
            Expr::ltl_next(Expr::zero()),
            Expr::ltl_until(Expr::one(), Expr::top()),
        )
    );
    assert_eq!(
        one("if x0 == 1 then !x1 == 0 else ~dup"),
        Expr::if_then_else(
            Expr::test(0, true),
            Expr::test_negation(Expr::test(1, false)),
            Expr::complement(Expr::dup()),
        )
    );
}

#[test]
fn texts_that_are_none() {
    let e = parse_expressions("x0 := 2").unwrap_err();
    assert_eq!(e.message, "Unexpected `2`");
    assert_eq!(e.span, Some(Span { start: 6, end: 7 }));
    let e = parse_expressions("(0 + 1").unwrap_err();
    assert_eq!(e.message, "Unexpected end of input");
    let e = parse_expressions("0 ? 1").unwrap_err();
    assert_eq!(e.message, "Unexpected `?`");
    assert_eq!(parse_expressions("// nothing").unwrap().len(), 0);
    assert!(parse_expressions("x[4..2] := 0").is_err());
}

#[test]
fn a_parser_reads_one_expression_after_the_other() {
    let mut p = Parser::new(Lexer::new("0 1")).unwrap();
    assert_eq!(p.parse_single_expression().unwrap(), Expr::zero());
    assert_eq!(p.peek_cloned().kind, TokenKind::Num(1));
    assert_eq!(p.advance().kind, TokenKind::Num(1));
    assert_eq!(p.advance().kind, TokenKind::Eof);
}

#[test]
fn lists_are_desugared_one_by_one() {
    let es = vec![Expr::one(), Expr::var("y".to_string()), Expr::test_negation(Expr::one())];
    let (good, bad) = desugar_all(&es);
    assert_eq!(good, vec![Expr::one(), Expr::zero()]);
    assert_eq!(bad.len(), 1);
    assert_eq!(bad[0].0, 1);
    assert_eq!(bad[0].1.message, "Unbound variable: y");
}

#[test]
fn faults_of_files() {
    let message = |text: &str| parse_program(text).unwrap_err().message;
    assert_eq!(
        message("goal"),
        "Expected `hole`, `def`, or `assert` at start of statement, found Ident(\"goal\")"
    );
    assert_eq!(
        message("hole X"),
        "Expected an identifier name after `hole`, found LtlNext"
    );
    assert_eq!(
        message("def a := 1"),
        "Expected `=` after definition name, found Assign"
    );
    assert_eq!(
        message("assert 0 + 1"),
        "Expected `<=` or `==` in assertion, found Eof"
    );
    assert_eq!(
        message("hole 0b110"),
        "Expected an identifier name after `hole`, found Lit([false, true, true])"
    );
    assert_eq!(
        message("hole x12"),
        "Expected an identifier name after `hole`, found Field(12)"
    );
    assert_eq!(
        message("def 80 = 1"),
        "Expected an identifier name after `def`, found Num(80)"
    );
    assert_eq!(message("def a = )"), "Unexpected `)`");
    let both = parse_program("hole h\nassert h <= h").unwrap();
    assert_eq!(
        lower(&both).err().unwrap().message,
        "both sides of an assertion contain holes; at least one side must be hole-free"
    );
    let cut = parse_program("hole h\nassert h & 1 <= 1").unwrap();
    assert_eq!(
        lower(&cut).err().unwrap().message,
        "construct not supported by expressions with holes"
    );
}

#[test]
fn files_are_solved() {
    let text = "hole h\ndef target = x0 := 1\nassert h == target\n";
    for mincut in [true, false] {
        let mut flags = Flags::new();
        flags.set_lb_mincut(mincut);
        let mut problem = lower(&parse_program(text).unwrap()).unwrap();
        let found = problem.solve(None, flags).unwrap();
        let h = *found.get(&Hole(0)).unwrap();
        assert!(problem.store.accepts(h, &[false], &[true]));
        assert!(!problem.store.accepts(h, &[true], &[false]));
    }
}

#[test]
fn files_with_dups_need_automata() {
    let text = "hole h\nassert h == dup\n";
    let mut problem = lower(&parse_program(text).unwrap()).unwrap();
    assert_eq!(verdict(&problem.solve(None, Flags::new())), "UNSAT");
    assert_eq!(verdict(&problem.solve_full(None, Flags::new())), "SAT");
    assert_eq!(verdict(&problem.solve(Some(0), Flags::new())), "UNKNOWN");
}

#[test]
fn rounds_can_be_limited() {
    let mut store = SPPstore::new(1);
    let target = expr_to_dfa(&Expr::assign(0, true), &mut store);
    let r = solve_holes(
        &HExpr::hole(Hole(0)),
        &[Hole(0)],
        &target,
        &target,
        &mut store,
        Some(1),
        Flags::new(),
    );
    assert!(matches!(r, Err(CegisError::IterationLimit)));
}

#[test]
fn the_flags_change_no_answer() {
    for bits in 0..8u32 {
        let mut flags = Flags::new();
        flags.set_lb_mincut(bits & 1 == 0);
        flags.set_clause_merge(bits & 2 == 0);
        flags.set_example_cover(bits & 4 == 0);
        let mut store = SPPstore::new(1);
        let target = expr_to_dfa(
            &Expr::union(Expr::test(0, true), Expr::assign(0, false)),
            &mut store,
        );
        let sum = HExpr::union(HExpr::hole(Hole(0)), HExpr::hole(Hole(1)));
        let r = solve_holes(
            &sum,
            &[Hole(0), Hole(1)],
            &target,
            &target,
            &mut store,
            None,
            flags,
        );
        assert!(r.is_ok());
        let dup = expr_to_dfa(&Expr::dup(), &mut store);
        let r = solve_holes(
            &sum,
            &[Hole(0), Hole(1)],
            &dup,
            &dup,
            &mut store,
            None,
            flags,
        );
        assert!(matches!(r, Err(CegisError::Infeasible)));
    }
}

#[test]
fn expressions_with_holes_from_expressions() {
    let mut store = SPPstore::new(1);
    let e = to_hole_expr(
        &Expr::sequence(Expr::hole(Hole(3)), Expr::star(Expr::dup())),
        &mut store,
    );
    assert_eq!(
        e,
        HExpr::sequence(HExpr::hole(Hole(3)), HExpr::star(HExpr::dup()))
    );
}

#[test]
fn analyses_of_texts() {
    assert_eq!(greet("Ada"), "Hello from Rust, Ada!");
    let r = analyze_expression("  \n", None, None);
    assert_eq!(r.status, "Empty (no input)");
    let r = analyze_expression("x0 == 1 ; x0 == 0", None, None);
    assert_eq!(r.status, "Analysis result: Drops all packets");
    assert!(r.traces.is_none());
    let r = analyze_expression("x0 := 1", Some(2), None);
    assert_eq!(r.status, "Analysis result: Allows traffic");
    let traces = r.traces.unwrap();
    assert!(!traces.is_empty() && traces.len() <= 2);
    for (trace, output) in &traces {
        assert_eq!(trace.len(), 1);
        assert_eq!(output, &Some(vec![true]));
    }
    for pair in traces.windows(2) {
        assert!(pair[0] < pair[1]);
    }
    let r = analyze_expression("!dup", None, None);
    assert_eq!(r.status, "Syntax Error");
    assert!(r
        .error
        .unwrap()
        .message
        .starts_with("Desugaring error: Test negation"));
    let r = analyze_difference("0 +", "// none", None, None);
    assert_eq!(r.expr1_errors.unwrap().message, "Unexpected end of input");
    assert_eq!(
        r.expr2_errors.unwrap().message,
        "Expression 2 is empty or only comments"
    );
    let r = analyze_difference("dup", "dup + 1", None, None);
    assert!(r.example_traces.is_none());
}

#[test]
fn random_traces_are_words() {
    let e = desugar(&one("(x0 := 1 ; dup)*")).unwrap();
    let mut aut = Aut::new(1);
    let state = aut.expr_to_state(&e);
    let mut lengths = std::collections::HashSet::new();
    for _ in 0..50 {
        let (trace, output) = aut.random_trace(state, 4).unwrap();
        assert!(trace.len() <= 4);
        for packet in trace.iter().skip(1) {
            assert_eq!(packet, &vec![true]);
        }
        if let (Some(out), true) = (&output, trace.len() > 1) {
            assert_eq!(out, &vec![true]);
        }
        lengths.insert(trace.len());
    }
    assert!(lengths.len() > 1);
}

#[test]
fn flags_in_words() {
    assert_eq!(Flags::parse_flag("ON"), Some(true));
    assert_eq!(Flags::parse_flag("no"), Some(false));
    assert_eq!(Flags::parse_flag("maybe"), None);
}

#[test]
fn candidates_become_automata() {
    let mut store = SPPstore::new(1);
    let set = store.assign(0, true);
    let found: Filling<SPP> = Filling {
        entries: vec![(Hole(3), set)],
    };
    let r = to_automata(&mut store, Ok(found)).unwrap();
    assert_eq!(r.entries.len(), 1);
    assert_eq!(r.entries[0].0, Hole(3));
    let dfa = &r.entries[0].1;
    assert!(dfa.dfa_accepts(&mut store, &[vec![false]], &[true]));
    assert!(!dfa.dfa_accepts(&mut store, &[vec![false]], &[false]));
    assert!(!dfa.dfa_accepts(&mut store, &[vec![false], vec![true]], &[true]));
    for e in [CegisError::Infeasible, CegisError::IterationLimit, CegisError::Unknown] {
        let kept: Result<Filling<SPP>, CegisError> = Err(e.clone());
        assert_eq!(to_automata(&mut store, kept).err(), Some(e));
    }
}

#[test]
fn no_rounds_find_nothing() {
    let text = "hole h\nassert h == dup\n";
    let mut problem = lower(&parse_program(text).unwrap()).unwrap();
    assert_eq!(
        problem.solve_full(Some(0), Flags::new()).err(),
        Some(CegisError::IterationLimit)
    );
}

#[test]
fn contradictions_have_no_automata() {
    let text = "hole h\nassert dup <= h\nassert h <= 0\n";
    let mut problem = lower(&parse_program(text).unwrap()).unwrap();
    assert_eq!(
        problem.solve_full(None, Flags::new()).err(),
        Some(CegisError::Infeasible)
    );
}

#[test]
fn outcomes_of_the_learner_decide_a_round() {
    let mut store = SPPstore::new(1);
    let dfa = spp_reference_dfa(&store);
    let vars = Filling {
        entries: Vec::new(),
    };
    let unknown: Result<Solution<'_>, LearnError> = Err(LearnError::Unknown);
    let r = next_candidates::<SPP>(&unknown, &vars, &store, &dfa);
    assert_eq!(r.err(), Some(CegisError::Unknown));
    let none: Result<Solution<'_>, LearnError> = Err(LearnError::Inconsistent(InconsistentError));
    let r = next_candidates::<SPP>(&none, &vars, &store, &dfa);
    assert_eq!(r.err(), Some(CegisError::Infeasible));
    let target = expr_to_dfa(&Expr::assign(0, true), &mut store);
    let r = solve_holes(
        &HExpr::hole(Hole(0)),
        &[Hole(0)],
        &target,
        &target,
        &mut store,
        Some(0),
        Flags::new(),
    );
    assert_eq!(r.err(), Some(CegisError::IterationLimit));
}

#[test]
fn reference_automata_have_the_words_of_the_upper_bound() {
    let mut store = SPPstore::new(1);
    let lower = expr_to_dfa(&Expr::zero(), &mut store);
    let upper = expr_to_dfa(
        &Expr::sequence(Expr::assign(0, true), Expr::dup()),
        &mut store,
    );
    let dfa = full_reference_dfa(&mut store, &HExpr::hole(Hole(0)), &lower, &upper);
    assert!(dfa.dfa_accepts(&mut store, &[vec![false], vec![true]], &[true]));
    assert!(!dfa.dfa_accepts(&mut store, &[vec![false], vec![false]], &[false]));
    assert!(!dfa.dfa_accepts(&mut store, &[vec![false]], &[true]));
}

#[test]
fn the_product_of_none_has_one_state() {
    let mut store = SPPstore::new(1);
    let none: Vec<ExplicitDFA> = Vec::new();
    let dfa = ExplicitDFA::product(&mut store, &none);
    assert_eq!(dfa.start, 0);
    assert_eq!(dfa.transitions, vec![vec![(store.top, 0)]]);
    assert_eq!(dfa.outputs, vec![store.top]);
    assert!(dfa.dfa_accepts(&mut store, &[vec![false], vec![true]], &[false]));
}

#[test]
fn transitions_are_kept_tidy() {
    let mut aut = Aut::new(1);
    let one = aut.expr_to_state(&Expr::one());
    let zero = aut.expr_to_state(&Expr::zero());
    let test = aut.expr_to_state(&Expr::test(0, true));
    let (none, all) = (aut.spp_store().zero, aut.spp_store().top);
    assert!(aut.st_singleton(none, one).get_transitions().is_empty());
    assert!(aut.st_singleton(all, zero).get_transitions().is_empty());
    let single = aut.st_singleton(all, one);
    assert_eq!(single.get_transitions().get(&one), Some(&all));
    assert_eq!(single.get_transitions().len(), 1);
    let both = ST::new([(one, all), (test, all)].into_iter().collect());
    let empty = aut.st_empty();
    let joined = aut.st_union(both, empty);
    assert_eq!(joined.get_transitions().len(), 1);
    assert_eq!(aut.mk_difference(one, one), zero);
}

#[test]
fn relations_are_learned_by_merging() {
    let mut store = SPPstore::new(1);
    let examples = vec![
        Example {
            input: vec![false],
            output: vec![false],
            in_spp: true,
        },
        Example {
            input: vec![true],
            output: vec![false],
            in_spp: false,
        },
    ];
    let x = learn_spp(&examples, &mut store).unwrap();
    assert!(store.accepts(x, &[false], &[false]));
    assert!(!store.accepts(x, &[true], &[false]));
    assert!(store.accepts(x, &[false], &[true]));
    assert!(store.accepts(x, &[true], &[true]));
}

#[test]
fn hole_expressions_keep_the_tree() {
    let mut store = SPPstore::new(1);
    let e = Expr::union(Expr::star(Expr::hole(Hole(2))), Expr::sequence(Expr::one(), Expr::dup()));
    let one = store.one;
    assert_eq!(
        format!("{:?}", to_hole_expr(&e, &mut store)),
        format!(
            "{:?}",
            HExpr::union(
                HExpr::star(HExpr::hole(Hole(2))),
                HExpr::sequence(HExpr::spp(one), HExpr::dup()),
            )
        )
    );
}

#[test]
fn packets_that_are_listed_are_not_searched_again() {
    let mut store = SPPstore::new(1);
    let dfa = expr_to_dfa(&Expr::assign(0, true), &mut store);
    let mut none = Vec::new();
    assert!(!is_empty_with_reachable(&dfa, &mut store, &mut none));
    let mut all = vec![(dfa.start, store.sp.one)];
    assert!(is_empty_with_reachable(&dfa, &mut store, &mut all));
    assert_eq!(all, vec![(dfa.start, store.sp.one)]);
    let nothing = expr_to_dfa(&Expr::zero(), &mut store);
    let mut found = Vec::new();
    assert!(is_empty_with_reachable(&nothing, &mut store, &mut found));
    assert_eq!(found[0], (nothing.start, store.sp.one));
}
