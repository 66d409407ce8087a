use katch2::expr::Hole;
use katch2::flags::Flags;
use katch2::holes::cand::{Cand, Input};
use katch2::holes::candidate::Candidate;
use katch2::holes::cegis::{run, CegisError};
use katch2::holes::explicit::ExplicitDFA;
use katch2::holes::inst::Filling;
use katch2::holes::network::min_cut_edges;
use katch2::holes::nk_with_holes::Expr;
use katch2::holes::problem::Constraint;
use katch2::holes::smt::Z3;
use katch2::spp::{SPPstore, SPP};
use petgraph::graph::DiGraph;

/// Iteration cap for these unit tests.  Every case here converges (or
/// proves infeasible) in a couple of rounds, so this is purely a guard
/// against an unexpected divergence hanging the suite.
const MAX_ITERS: usize = 64;

fn mk_store() -> SPPstore {
    SPPstore::new(3)
}

fn zero_dfa(store: &SPPstore) -> ExplicitDFA {
    ExplicitDFA {
        start: 0,
        transitions: vec![vec![]],
        outputs: vec![store.zero],
    }
}

fn top_dfa(store: &SPPstore) -> ExplicitDFA {
    ExplicitDFA {
        start: 0,
        transitions: vec![vec![(store.top, 0)]],
        outputs: vec![store.top],
    }
}

/// The upper/lower bound constraints for `lb ⊆ expr[holes] ⊆ ub`.
fn bounds_constraints(
    store: &mut SPPstore,
    expr: &Expr,
    lb: &ExplicitDFA,
    ub: &ExplicitDFA,
) -> Vec<Constraint> {
    vec![
        Constraint::upper_bound(store, expr, ub.copy()),
        Constraint::lower_bound(store, expr, lb.copy()),
    ]
}

/// The caller-owned reference DFA grounding candidates of kind `C` for
/// `lb ⊆ expr[holes] ⊆ ub`.  Must outlive the candidates `run_bounds`
/// returns (a [`Cand`] borrows it).
fn bounds_reference_dfa<'a, C: Candidate<'a>>(
    store: &mut SPPstore,
    expr: &Expr,
    lb: &ExplicitDFA,
    ub: &ExplicitDFA,
) -> ExplicitDFA {
    let constraints = bounds_constraints(store, expr, lb, ub);
    C::make_reference_dfa(store, &constraints)
}

/// Solve `lb ⊆ expr[holes] ⊆ ub` via a pair of [`Constraint`]s (an upper
/// and a lower bound over `expr`), grounding the candidates on the
/// caller-owned `reference_dfa` (see [`bounds_reference_dfa`]).
fn run_bounds<'a, C: Candidate<'a>>(
    store: &mut SPPstore,
    expr: &Expr,
    holes: &[Hole],
    lb: &ExplicitDFA,
    ub: &ExplicitDFA,
    reference_dfa: &'a ExplicitDFA,
    max_iters: Option<usize>,
) -> Result<Filling<C>, CegisError> {
    let constraints = bounds_constraints(store, expr, lb, ub);
    run::<C, Z3<'a>>(&constraints, holes, reference_dfa, store, max_iters, Flags::new())
}

/// 0 ⊆ Hole ⊆ top: trivially solvable.  The learner returns the empty
/// SPP (its default when unconstrained), the upper-bound check passes
/// vacuously, the lower-bound check passes vacuously, done.
#[test]
fn trivial_bounds_converge_immediately() {
    let mut store = mk_store();
    let lb = zero_dfa(&store);
    let ub = top_dfa(&store);
    let expr = Expr::hole(Hole(0));
    let rdfa = bounds_reference_dfa::<SPP>(&mut store, &expr, &lb, &ub);
    let result = run_bounds::<SPP>(
        &mut store,
        &expr,
        &[Hole(0)],
        &lb,
        &ub,
        &rdfa,
        Some(MAX_ITERS),
    )
    .unwrap();
    assert_eq!(*result.get(&Hole(0)).unwrap(), store.zero);
}

/// Expression is just a concrete `top`, no holes used.  With ub = zero,
/// the upper-bound check finds a *concrete* violation: witness is
/// empty, which produces an empty clause, which makes the learner
/// immediately UNSAT → `Infeasible`.
#[test]
fn concrete_violation_is_infeasible() {
    let mut store = mk_store();
    let top = store.top;
    let lb = zero_dfa(&store);
    let ub = zero_dfa(&store);
    let expr = Expr::spp(top);
    let rdfa = bounds_reference_dfa::<SPP>(&mut store, &expr, &lb, &ub);
    let err = run_bounds::<SPP>(&mut store, &expr, &[], &lb, &ub, &rdfa, Some(MAX_ITERS))
        .unwrap_err();
    assert_eq!(err, CegisError::Infeasible);
}

/// `Hole(0)` with ub = zero: the only valid value is `store.zero`.  The
/// learner's empty extraction is already zero, so we converge on the
/// first iteration without ever needing to refine.
#[test]
fn hole_bounded_above_by_zero_yields_zero() {
    let mut store = mk_store();
    let lb = zero_dfa(&store);
    let ub = zero_dfa(&store);
    let expr = Expr::hole(Hole(0));
    let rdfa = bounds_reference_dfa::<SPP>(&mut store, &expr, &lb, &ub);
    let result = run_bounds::<SPP>(
        &mut store,
        &expr,
        &[Hole(0)],
        &lb,
        &ub,
        &rdfa,
        Some(MAX_ITERS),
    )
    .unwrap();
    assert_eq!(*result.get(&Hole(0)).unwrap(), store.zero);
}

/// Two holes in `Hole(0) ∪ Hole(1)` with trivial bounds: the empty
/// candidate for both passes vacuously, returns a map with one entry
/// per hole.
#[test]
fn two_holes_trivial_bounds() {
    let mut store = mk_store();
    let expr = Expr::union(Expr::hole(Hole(0)), Expr::hole(Hole(1)));
    let lb = zero_dfa(&store);
    let ub = top_dfa(&store);
    let rdfa = bounds_reference_dfa::<SPP>(&mut store, &expr, &lb, &ub);
    let result = run_bounds::<SPP>(
        &mut store,
        &expr,
        &[Hole(0), Hole(1)],
        &lb,
        &ub,
        &rdfa,
        Some(MAX_ITERS),
    )
    .unwrap();
    assert_eq!(result.len(), 2);
    assert_eq!(*result.get(&Hole(0)).unwrap(), store.zero);
    assert_eq!(*result.get(&Hole(1)).unwrap(), store.zero);
}

/// Two holes with ub = zero: again the only valid assignment is
/// `zero, zero`.  Converges on the first iteration.
#[test]
fn two_holes_bounded_above_by_zero() {
    let mut store = mk_store();
    let expr = Expr::union(Expr::hole(Hole(0)), Expr::hole(Hole(1)));
    let lb = zero_dfa(&store);
    let ub = zero_dfa(&store);
    let rdfa = bounds_reference_dfa::<SPP>(&mut store, &expr, &lb, &ub);
    let result = run_bounds::<SPP>(
        &mut store,
        &expr,
        &[Hole(0), Hole(1)],
        &lb,
        &ub,
        &rdfa,
        Some(MAX_ITERS),
    )
    .unwrap();
    assert_eq!(*result.get(&Hole(0)).unwrap(), store.zero);
    assert_eq!(*result.get(&Hole(1)).unwrap(), store.zero);
}

/// Build the SPP that accepts only the single pair `(p_in, p_out)`.
fn singleton_pair_spp(store: &mut SPPstore, p_in: &[bool], p_out: &[bool]) -> SPP {
    let mut spp_acc = SPP::new(1);
    let mut zero = SPP::new(0);
    for (&bi, &bo) in p_in.iter().rev().zip(p_out.iter().rev()) {
        let next = match (bi, bo) {
            (false, false) => store.mk(spp_acc, zero, zero, zero),
            (false, true) => store.mk(zero, spp_acc, zero, zero),
            (true, false) => store.mk(zero, zero, spp_acc, zero),
            (true, true) => store.mk(zero, zero, zero, spp_acc),
        };
        zero = store.mk(zero, zero, zero, zero);
        spp_acc = next;
    }
    spp_acc
}

/// Lower-bound failure forces refinement.  Expression `Hole(0)` alone;
/// upper bound = top; lower bound is the one-state DFA that accepts
/// exactly the trace `([false,false])` with output `[true,true]`.  The
/// initial candidate (zero) doesn't accept that, so the lower-bound
/// check fails — `add_lower_bound_clause` is exercised end-to-end.
/// After refinement, the returned SPP must accept the pair.
#[test]
fn lower_bound_drives_refinement() {
    let n_vars: u32 = 2;
    let mut store = SPPstore::new(n_vars);
    let trace0 = vec![false, false];
    let output_pkt = vec![true, true];
    let singleton = singleton_pair_spp(&mut store, &trace0, &output_pkt);
    let lb = ExplicitDFA {
        start: 0,
        transitions: vec![vec![]],
        outputs: vec![singleton],
    };
    let ub = ExplicitDFA {
        start: 0,
        transitions: vec![vec![(store.top, 0)]],
        outputs: vec![store.top],
    };

    let expr = Expr::hole(Hole(0));
    let rdfa = bounds_reference_dfa::<SPP>(&mut store, &expr, &lb, &ub);
    let result = run_bounds::<SPP>(
        &mut store,
        &expr,
        &[Hole(0)],
        &lb,
        &ub,
        &rdfa,
        Some(MAX_ITERS),
    )
    .unwrap();
    let h0 = *result.get(&Hole(0)).unwrap();
    assert!(
        store.accepts(h0, &trace0, &output_pkt),
        "refined hole SPP must accept the lower-bound's witness pair"
    );
}

/// `0 ⊆ Hole ⊆ top` with `Cand` candidates: converges on the first
/// iteration (both checks vacuous), returning the unconstrained Cand, which
/// accepts everything.  Exercises the whole `run::<Cand, _>` pipeline —
/// fresh_cand, from_solution, and the `Instantiate<Cand>` embedding.
#[test]
fn cand_trivial_bounds_converge() {
    let mut store = mk_store();
    let lb = zero_dfa(&store);
    let ub = top_dfa(&store); // one state ⇒ Cand has num_states == 1
    let expr = Expr::hole(Hole(0));
    let rdfa = bounds_reference_dfa::<Cand>(&mut store, &expr, &lb, &ub);
    let result = run_bounds::<Cand>(
        &mut store,
        &expr,
        &[Hole(0)],
        &lb,
        &ub,
        &rdfa,
        Some(MAX_ITERS),
    )
    .unwrap();
    let cand = result.get(&Hole(0)).unwrap();
    assert!(cand.accepts_input(
        &mut store,
        &Input {
            pkt_in: vec![false, false, false],
            pkt_start: vec![true, false, true],
            states: vec![0],
            pkt_end: vec![false, true, false],
            pkt_out: vec![true, true, false],
        },
    ));
}

// ---- min-cut helper ------------------------------------------------

/// Two capacity-1 (hole) edges in series, joined by an infinite (concrete)
/// backbone edge: the min cut is the single bottleneck, not both holes.
#[test]
fn min_cut_series_picks_one() {
    const INF: u32 = 1 << 30;
    let mut g: DiGraph<(), u32> = DiGraph::new();
    let s = g.add_node(());
    let a = g.add_node(());
    let b = g.add_node(());
    let t = g.add_node(());
    let e1 = g.add_edge(s, a, 1); // hole
    g.add_edge(a, b, INF); // concrete backbone
    let _e2 = g.add_edge(b, t, 1); // hole
    let cut = min_cut_edges(&g, s.index(), t.index());
    // Exactly one hole edge, and it is the one nearest the source.
    assert_eq!(cut, vec![e1.index()]);
}

/// Two capacity-1 edges in parallel: both must be cut (no smaller
/// separator exists), so shrinking would be unsound.
#[test]
fn min_cut_parallel_keeps_both() {
    let mut g: DiGraph<(), u32> = DiGraph::new();
    let s = g.add_node(());
    let t = g.add_node(());
    let e1 = g.add_edge(s, t, 1);
    let e2 = g.add_edge(s, t, 1);
    let mut cut = min_cut_edges(&g, s.index(), t.index());
    cut.sort();
    let mut expected = vec![e1.index(), e2.index()];
    expected.sort();
    assert_eq!(cut, expected);
}

/// A diamond: one hole into a fork, then two holes out.  The single
/// upstream hole is the bottleneck, so the cut is just that one edge.
#[test]
fn min_cut_diamond_bottleneck() {
    const INF: u32 = 1 << 30;
    let mut g: DiGraph<(), u32> = DiGraph::new();
    let s = g.add_node(());
    let mid = g.add_node(());
    let x = g.add_node(());
    let y = g.add_node(());
    let t = g.add_node(());
    let bottleneck = g.add_edge(s, mid, 1); // hole
    g.add_edge(mid, x, INF);
    g.add_edge(mid, y, INF);
    g.add_edge(x, t, 1); // hole
    g.add_edge(y, t, 1); // hole
    assert_eq!(min_cut_edges(&g, s.index(), t.index()), vec![bottleneck.index()]);
}

/// No source→sink path → empty cut (an unfixable, purely-concrete gap).
#[test]
fn min_cut_disconnected_is_empty() {
    let mut g: DiGraph<(), u32> = DiGraph::new();
    let s = g.add_node(());
    let t = g.add_node(());
    let isolated = g.add_node(());
    g.add_edge(s, isolated, 1);
    assert!(min_cut_edges(&g, s.index(), t.index()).is_empty());
}
