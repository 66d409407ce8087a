use katch2::expr::{Exp, Expr, Hole};
use katch2::flags::Flags;
use katch2::holes::cegis::CegisError;
use katch2::holes::explicit::expr_to_dfa;
use katch2::holes::nk_with_holes::Expr as HExpr;
use katch2::holes::{full_reference_dfa, solve_holes, solve_holes_full};
use katch2::spp::SPPstore;
use std::collections::BTreeSet;

#[test]
fn two_holes() {
    let mut store = SPPstore::new(1);
    let target_dfa = expr_to_dfa(&Expr::one(), &mut store);
    let spp_0 = store.test(0, true);
    let spp_1 = store.test(0, false);
    let spp_01 = store.union(spp_0, spp_1);
    let hole_expr = HExpr::sequence(
        HExpr::hole(Hole(0)),
        HExpr::sequence(HExpr::spp(spp_01), HExpr::hole(Hole(1))),
    );
    let result = solve_holes(
        &hole_expr,
        &[Hole(0), Hole(1)],
        &target_dfa,
        &target_dfa,
        &mut store,
        Some(FUZZ_MAX_ITERS), Flags::new(),
    );
    assert!(result.is_ok());
}

fn slow(n_fields: u32) {
    let mut store = SPPstore::new(n_fields);
    let target_dfa = expr_to_dfa(&Expr::one(), &mut store);
    let mut spp = store.zero;
    for i in 0..n_fields {
        let spp_i = store.test(i, true);
        spp = store.union(spp, spp_i);
    }
    let hole_expr = HExpr::sequence(
        HExpr::hole(Hole(0)),
        HExpr::sequence(HExpr::spp(spp), HExpr::hole(Hole(1))),
    );
    let result = solve_holes(
        &hole_expr,
        &[Hole(0), Hole(1)],
        &target_dfa,
        &target_dfa,
        &mut store,
        Some(FUZZ_MAX_ITERS), Flags::new(),
    );
    assert!(result.is_err());
}

#[test]
fn slightly_slow_test() {
    slow(2);
}

#[test]
fn slow_test() {
    slow(3);
}

#[test]
fn full_solves_spp_problem() {
    let mut store = SPPstore::new(2);
    let target = Expr::sequence(Expr::dup(), Expr::assign(0, true));
    let target_dfa = expr_to_dfa(&target, &mut store);
    let hole_expr = HExpr::sequence(HExpr::dup(), HExpr::hole(Hole(0)));
    let rdfa = full_reference_dfa(&mut store, &hole_expr, &target_dfa, &target_dfa);
    let result = solve_holes_full(
        &hole_expr,
        &[Hole(0)],
        &target_dfa,
        &target_dfa,
        &rdfa,
        &mut store,
        Some(FUZZ_MAX_ITERS), Flags::new(),
    );
    assert!(result.is_ok());
}

#[test]
fn full_solves_dup_where_spp_cannot() {
    let mut store = SPPstore::new(2);
    let target = expr_to_dfa(&Expr::dup(), &mut store);
    let hole_expr = HExpr::hole(Hole(0));

    let spp_result = solve_holes(
        &hole_expr,
        &[Hole(0)],
        &target,
        &target,
        &mut store,
        Some(FUZZ_MAX_ITERS), Flags::new(),
    );
    assert!(matches!(spp_result, Err(CegisError::Infeasible)));

    let rdfa = full_reference_dfa(&mut store, &hole_expr, &target, &target);
    let full_result = solve_holes_full(
        &hole_expr,
        &[Hole(0)],
        &target,
        &target,
        &rdfa,
        &mut store,
        Some(FUZZ_MAX_ITERS), Flags::new(),
    );
    assert!(full_result.is_ok());
}

#[test]
fn full_infeasible_bounds() {
    let mut store = SPPstore::new(1);
    let lower = expr_to_dfa(&Expr::one(), &mut store);
    let upper = expr_to_dfa(&Expr::zero(), &mut store);
    let hole_expr = HExpr::hole(Hole(0));
    let rdfa = full_reference_dfa(&mut store, &hole_expr, &lower, &upper);
    let result = solve_holes_full(
        &hole_expr,
        &[Hole(0)],
        &lower,
        &upper,
        &rdfa,
        &mut store,
        Some(FUZZ_MAX_ITERS), Flags::new(),
    );
    assert!(matches!(result, Err(CegisError::Infeasible)));
}

//
//
//

const FUZZ_FIELDS: u32 = 2;

const FUZZ_MAX_ITERS: usize = 64;

fn random_dup_free(depth: u32) -> Exp {
    if depth == 0 || rand::random::<f64>() < 0.4 {
        return match rand::random_range(0..4u32) {
            0 => Expr::one(),
            1 => Expr::zero(),
            2 => Expr::test(rand::random_range(0..FUZZ_FIELDS), rand::random()),
            _ => Expr::assign(rand::random_range(0..FUZZ_FIELDS), rand::random()),
        };
    }
    match rand::random_range(0..3u32) {
        0 => Expr::union(random_dup_free(depth - 1), random_dup_free(depth - 1)),
        1 => Expr::sequence(random_dup_free(depth - 1), random_dup_free(depth - 1)),
        _ => Expr::star(random_dup_free(depth - 1)),
    }
}

fn random_maybe_dupful(depth: u32) -> Exp {
    if depth == 0 || rand::random::<f64>() < 0.4 {
        return match rand::random_range(0..5u32) {
            0 => Expr::one(),
            1 => Expr::zero(),
            2 => Expr::test(rand::random_range(0..FUZZ_FIELDS), rand::random()),
            3 => Expr::assign(rand::random_range(0..FUZZ_FIELDS), rand::random()),
            _ => Expr::dup(),
        };
    }
    match rand::random_range(0..3u32) {
        0 => Expr::union(
            random_maybe_dupful(depth - 1),
            random_maybe_dupful(depth - 1),
        ),
        1 => Expr::sequence(
            random_maybe_dupful(depth - 1),
            random_maybe_dupful(depth - 1),
        ),
        _ => Expr::star(random_maybe_dupful(depth - 1)),
    }
}

fn random_template(depth: u32, insts: &[Exp], used: &mut BTreeSet<Hole>) -> (HExpr, Exp) {
    if depth == 0 || rand::random::<f64>() < 0.4 {
        if rand::random::<f64>() < 0.85 {
            let i = rand::random_range(0..insts.len());
            used.insert(Hole(i as u32));
            return (HExpr::hole(Hole(i as u32)), insts[i].clone());
        }
        return (HExpr::dup(), Expr::dup());
    }
    match rand::random_range(0..3u32) {
        0 => {
            let (a1, a2) = random_template(depth - 1, insts, used);
            let (b1, b2) = random_template(depth - 1, insts, used);
            (HExpr::union(a1, b1), Expr::union(a2, b2))
        }
        1 => {
            let (a1, a2) = random_template(depth - 1, insts, used);
            let (b1, b2) = random_template(depth - 1, insts, used);
            (HExpr::sequence(a1, b1), Expr::sequence(a2, b2))
        }
        _ => {
            let (a1, a2) = random_template(depth - 1, insts, used);
            (HExpr::star(a1), Expr::star(a2))
        }
    }
}

fn random_instance(
    template_depth: u32,
    inst_depth: u32,
    inst_gen: fn(u32) -> Exp,
) -> (HExpr, Exp, Vec<Hole>, Vec<Exp>) {
    let num_holes = 1 + rand::random_range(0..3usize); // 1..=3 holes
    let insts: Vec<Exp> = (0..num_holes).map(|_| inst_gen(inst_depth)).collect();
    let mut used = BTreeSet::new();
    let (hole_expr, target_expr) = random_template(template_depth, &insts, &mut used);
    let holes: Vec<Hole> = used.into_iter().collect();
    (hole_expr, target_expr, holes, insts)
}

fn assert_not_infeasible(
    trial: usize,
    solver: &str,
    result: Result<(), CegisError>,
    hole_expr: &HExpr,
    target_expr: &Exp,
    holes: &[Hole],
    insts: &[Exp],
) {
    assert!(
        !matches!(result, Err(CegisError::Infeasible)),
        "trial {trial}: {solver} wrongly reported Infeasible on a known-satisfiable instance\n  \
         hole_expr = {hole_expr:?}\n  target    = {target_expr:?}\n  \
         insts     = {insts:?}\n  holes     = {holes:?}\n  result    = {result:?}"
    );
}

#[test]
fn random_templates_are_feasible() {
    for trial in 0..10 {
        let mut store = SPPstore::new(FUZZ_FIELDS);
        let (hole_expr, target_expr, holes, insts) = random_instance(2, 2, random_dup_free);
        let target_dfa = expr_to_dfa(&target_expr, &mut store);
        let result = solve_holes(
            &hole_expr,
            &holes,
            &target_dfa,
            &target_dfa,
            &mut store,
            Some(FUZZ_MAX_ITERS), Flags::new(),
        )
        .map(|_| ());
        assert_not_infeasible(
            trial,
            "solve_holes",
            result,
            &hole_expr,
            &target_expr,
            &holes,
            &insts,
        );
    }
}

#[test]
fn random_small_templates_are_feasible_with_automata() {
    for trial in 0..5 {
        let mut store = SPPstore::new(FUZZ_FIELDS);
        let (hole_expr, target_expr, holes, insts) = random_instance(1, 1, random_maybe_dupful);
        let target_dfa = expr_to_dfa(&target_expr, &mut store);
        let rdfa = full_reference_dfa(&mut store, &hole_expr, &target_dfa, &target_dfa);
        let result = solve_holes_full(
            &hole_expr,
            &holes,
            &target_dfa,
            &target_dfa,
            &rdfa,
            &mut store,
            Some(FUZZ_MAX_ITERS), Flags::new(),
        )
        .map(|_| ());
        assert_not_infeasible(
            trial,
            "solve_holes_full",
            result,
            &hole_expr,
            &target_expr,
            &holes,
            &insts,
        );
    }
}

#[test]
fn roundtrip_nondeterministic_hole_fill() {
    let mut store = SPPstore::new(2);
    let hole_expr = HExpr::star(HExpr::sequence(
        HExpr::star(HExpr::hole(Hole(1))),
        HExpr::star(HExpr::hole(Hole(2))),
    ));
    let h1 = Expr::star(Expr::sequence(Expr::test(1, true), Expr::test(1, false)));
    let h2 = Expr::union(Expr::assign(0, false), Expr::test(1, true));
    let target = Expr::star(Expr::sequence(Expr::star(h1), Expr::star(h2)));
    let target_dfa = expr_to_dfa(&target, &mut store);
    let result = solve_holes(
        &hole_expr,
        &[Hole(1), Hole(2)],
        &target_dfa,
        &target_dfa,
        &mut store,
        Some(FUZZ_MAX_ITERS), Flags::new(),
    );
    assert!(result.is_ok(), "{result:?}");
}

#[test]
fn roundtrip_three_hole_chain_blowup() {
    let chain = |a: Hole, b: Hole, c: Hole| {
        HExpr::sequence(
            HExpr::sequence(HExpr::hole(a), HExpr::hole(b)),
            HExpr::hole(c),
        )
    };
    let dup = Expr::dup();
    let dup2 = Expr::sequence(dup.clone(), dup.clone());
    let dup3 = Expr::sequence(dup2.clone(), dup.clone());
    let run = |full: bool, he: &HExpr, holes: &[Hole], target: &Expr| {
        let mut store = SPPstore::new(2);
        let dfa = expr_to_dfa(target, &mut store);
        if full {
            let rdfa = full_reference_dfa(&mut store, he, &dfa, &dfa);
            solve_holes_full(
                he,
                holes,
                &dfa,
                &dfa,
                &rdfa,
                &mut store,
                Some(FUZZ_MAX_ITERS), Flags::new(),
            )
            .map(|_| ())
        } else {
            solve_holes(he, holes, &dfa, &dfa, &mut store, Some(FUZZ_MAX_ITERS), Flags::new()).map(|_| ())
        }
    };

    let assert_sat = |r: Result<(), CegisError>| {
        assert!(
            matches!(r, Ok(()) | Err(CegisError::IterationLimit)),
            "satisfiable instance wrongly reported {r:?}"
        );
    };

    let [h0, h1, h2] = [Hole(0), Hole(1), Hole(2)];
    assert_sat(run(true, &chain(h0, h2, h2), &[h0, h2], &dup));
    assert_sat(run(false, &chain(h0, h1, h2), &[h0, h1, h2], &Expr::one()));
    assert_sat(run(false, &chain(h0, h0, h0), &[h0], &Expr::one()));
    assert!(run(true, &chain(h0, h0, h0), &[h0], &dup).is_err());
    assert_sat(run(true, &chain(h0, h0, h0), &[h0], &dup3));
}

#[test]
fn sqrt_of_dup() {
    let mut store = SPPstore::new(1);
    let hole_expr = HExpr::sequence(HExpr::hole(Hole(0)), HExpr::hole(Hole(0)));
    let target = expr_to_dfa(&Expr::dup(), &mut store);

    let rdfa = full_reference_dfa(&mut store, &hole_expr, &target, &target);
    let result = solve_holes_full(
        &hole_expr,
        &[Hole(0)],
        &target,
        &target,
        &rdfa,
        &mut store,
        Some(FUZZ_MAX_ITERS), Flags::new(),
    );
    assert!(matches!(result, Err(CegisError::Infeasible)));
}

#[test]
fn full_solves_chained_dup() {
    let mut store = SPPstore::new(1);
    let target = Expr::sequence(Expr::dup(), Expr::dup());
    let target_dfa = expr_to_dfa(&target, &mut store);
    let hole_expr = HExpr::hole(Hole(0));
    let rdfa = full_reference_dfa(&mut store, &hole_expr, &target_dfa, &target_dfa);
    let result = solve_holes_full(
        &hole_expr,
        &[Hole(0)],
        &target_dfa,
        &target_dfa,
        &rdfa,
        &mut store,
        Some(FUZZ_MAX_ITERS), Flags::new(),
    );
    assert!(result.is_ok(), "{:?}", result.map(|_| ()));
}

#[test]
fn dup_in_a_loop() {
    let mut store = SPPstore::new(2);
    let hole_expr = HExpr::star(HExpr::sequence(
        HExpr::star(HExpr::dup()),
        HExpr::sequence(HExpr::hole(Hole(0)), HExpr::dup()),
    ));
    let target = Expr::star(Expr::sequence(
        Expr::star(Expr::dup()),
        Expr::sequence(Expr::assign(0, false), Expr::dup()),
    ));
    let target_dfa = expr_to_dfa(&target, &mut store);
    let result = solve_holes(
        &hole_expr,
        &[Hole(0)],
        &target_dfa,
        &target_dfa,
        &mut store,
        Some(FUZZ_MAX_ITERS), Flags::new(),
    )
    .map(|_| ());
    result.expect("should have a solution");
}

#[test]
fn full_solves_assign_dup_under_star() {
    let mut store = SPPstore::new(1);
    let hole_expr = HExpr::star(HExpr::hole(Hole(0)));
    let target = Expr::star(Expr::sequence(Expr::assign(0, true), Expr::dup()));
    let target_dfa = expr_to_dfa(&target, &mut store);
    let rdfa = full_reference_dfa(&mut store, &hole_expr, &target_dfa, &target_dfa);
    let result = solve_holes_full(
        &hole_expr,
        &[Hole(0)],
        &target_dfa,
        &target_dfa,
        &rdfa,
        &mut store,
        Some(FUZZ_MAX_ITERS), Flags::new(),
    );
    result.expect("should have a solution");
}

#[test]
fn repro_fuzz_wrong_infeasible() {
    let h0: Exp = Expr::sequence(Expr::dup(), Expr::assign(0, false)); // dup ; 0:=false
    let h1: Exp = Expr::dup();

    let hole_expr = HExpr::union(
        HExpr::sequence(
            HExpr::union(HExpr::hole(Hole(1)), HExpr::hole(Hole(0))),
            HExpr::hole(Hole(0)),
        ),
        HExpr::hole(Hole(0)),
    );
    let target = Expr::union(
        Expr::sequence(Expr::union(h1.clone(), h0.clone()), h0.clone()),
        h0.clone(),
    );

    let mut store = SPPstore::new(2);
    let target_dfa = expr_to_dfa(&target, &mut store);
    let rdfa = full_reference_dfa(&mut store, &hole_expr, &target_dfa, &target_dfa);
    let result = solve_holes_full(
        &hole_expr,
        &[Hole(0), Hole(1)],
        &target_dfa,
        &target_dfa,
        &rdfa,
        &mut store,
        Some(FUZZ_MAX_ITERS), Flags::new(),
    )
    .map(|_| ());
    assert_ne!(result, Err(CegisError::Infeasible), "wrong Infeasible");
}

#[test]
fn hole_equal_to_an_assignment() {
    let mut store = SPPstore::new(2);
    let target = Expr::sequence(Expr::dup(), Expr::assign(0, true));
    let target_dfa = expr_to_dfa(&target, &mut store);
    let hole_expr = HExpr::sequence(HExpr::dup(), HExpr::hole(Hole(0)));
    let result = solve_holes(
        &hole_expr,
        &[Hole(0)],
        &target_dfa,
        &target_dfa,
        &mut store,
        None,
        Flags::new(),
    )
    .unwrap();
    let h0 = *result.get(&Hole(0)).unwrap();
    for b1 in [false, true] {
        for b0 in [false, true] {
            assert!(store.accepts(h0, &[b0, b1], &[true, b1]));
        }
    }
    assert!(!store.accepts(h0, &[true, true], &[false, true]));
}

#[test]
fn hole_equal_to_dup_needs_an_automaton() {
    let mut store = SPPstore::new(2);
    let target = expr_to_dfa(&Expr::dup(), &mut store);
    let hole_expr = HExpr::hole(Hole(0));
    let result = solve_holes(
        &hole_expr,
        &[Hole(0)],
        &target,
        &target,
        &mut store,
        None,
        Flags::new(),
    );
    assert!(matches!(result, Err(CegisError::Infeasible)));
    let rdfa = full_reference_dfa(&mut store, &hole_expr, &target, &target);
    let full = solve_holes_full(
        &hole_expr,
        &[Hole(0)],
        &target,
        &target,
        &rdfa,
        &mut store,
        None,
        Flags::new(),
    );
    assert!(full.is_ok());
}

/// The reference automaton is the upper bound with a sink, whatever the expression and the
/// lower bound are.
#[test]
fn the_reference_is_made_of_the_upper_bound() {
    let mut store = SPPstore::new(1);
    let upper = expr_to_dfa(&Expr::sequence(Expr::test(0, true), Expr::dup()), &mut store);
    let lower = expr_to_dfa(&Expr::zero(), &mut store);
    let hole = HExpr::hole(Hole(0));
    let a = full_reference_dfa(&mut store, &hole, &lower, &upper);
    let b = full_reference_dfa(&mut store, &HExpr::star(HExpr::hole(Hole(1))), &upper, &upper);
    assert_eq!(a.start, 0);
    assert_eq!(a.transitions.len(), upper.transitions.len() + 1);
    assert_eq!(a.transitions.len(), b.transitions.len());
    assert_eq!(a.outputs, b.outputs);
}
