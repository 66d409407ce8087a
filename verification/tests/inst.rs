use katch2::expr::Hole;
use katch2::holes::aut::ENFA;
use katch2::holes::explicit::ExplicitDFA;
use katch2::holes::inst::{Filling, Instantiate};
use katch2::holes::nk_with_holes::{AutWithHoles, Expr};
use katch2::holes::search::is_empty;
use katch2::spp::{SPPstore, SPP};

fn mk_store() -> SPPstore {
    SPPstore::new(3)
}

fn build_inst(
    store: &mut SPPstore,
    expr: &Expr,
    holes: Filling<SPP>,
) -> Instantiate<SPP> {
    let mut aut = AutWithHoles::new();
    let start = aut.expr_to_state(store, expr);
    Instantiate::new(store, aut, start, holes)
}

#[test]
fn resolves_concrete_output() {
    let mut store = mk_store();
    let top = store.top;
    let inst = build_inst(&mut store, &Expr::spp(top), Filling::new());
    let q = inst.start(&mut store);
    assert!(inst.is_visible(&mut store, &q));
    assert_eq!(inst.transitions(&mut store, &q), vec![]);
    assert_eq!(inst.output(&mut store, &q), top);
}

#[test]
fn resolves_abstract_output_from_map() {
    let mut store = mk_store();
    let top = store.top;
    let mut holes = Filling::new();
    holes.insert(Hole(0), top);
    let inst = build_inst(&mut store, &Expr::hole(Hole(0)), holes);
    let q = inst.start(&mut store);
    // Hole(0) → top, and there are no other summands, so output == top.
    assert_eq!(inst.output(&mut store, &q), top);
    assert_eq!(inst.transitions(&mut store, &q), vec![]);
}

#[test]
fn unions_atomic_summands() {
    // Union(Spp(top), Hole(0)) with Hole(0) → one.  output should be
    // union(top, one) == top.
    let mut store = mk_store();
    let top = store.top;
    let one = store.one;
    let mut holes = Filling::new();
    holes.insert(Hole(0), one);
    let inst = build_inst(
        &mut store,
        &Expr::union(Expr::spp(top), Expr::hole(Hole(0))),
        holes,
    );
    let q = inst.start(&mut store);
    let want = store.union(top, one);
    assert_eq!(inst.output(&mut store, &q), want);
}

#[test]
fn resolves_abstract_edges() {
    // Sequence(Hole(0), Dup, Spp(top)) with Hole(0) → top.
    // From start (visible), transitions = [(Abstract(0), invisible_state)].
    // After resolving Hole(0) → top, the concrete SPP is `top`.
    let mut store = mk_store();
    let top = store.top;
    let mut holes = Filling::new();
    holes.insert(Hole(0), top);
    let inst = build_inst(
        &mut store,
        &Expr::sequence(
            Expr::hole(Hole(0)),
            Expr::sequence(Expr::dup(), Expr::spp(top)),
        ),
        holes,
    );
    let q = inst.start(&mut store);
    let trans = inst.transitions(&mut store, &q);
    assert_eq!(trans.len(), 1);
    let (spp, target) = trans[0].clone();
    assert_eq!(spp, top);
    // Target is invisible (within-segment).
    assert!(!inst.is_visible(&mut store, &target));
}

#[test]
fn is_empty_for_zero() {
    // Spp(zero) instantiated has no acceptance.
    let mut store = mk_store();
    let zero = store.zero;
    let inst = build_inst(&mut store, &Expr::spp(zero), Filling::new());
    assert!(is_empty(&inst, &mut store));
}

#[test]
fn is_empty_for_hole_mapped_to_zero() {
    // Hole(0) → zero ⇒ acceptance is zero ⇒ empty.
    let mut store = mk_store();
    let zero = store.zero;
    let mut holes = Filling::new();
    holes.insert(Hole(0), zero);
    let inst = build_inst(&mut store, &Expr::hole(Hole(0)), holes);
    assert!(is_empty(&inst, &mut store));
}

#[test]
fn non_empty_for_hole_mapped_to_top() {
    // Hole(0) → top ⇒ non-empty.
    let mut store = mk_store();
    let top = store.top;
    let mut holes = Filling::new();
    holes.insert(Hole(0), top);
    let inst = build_inst(&mut store, &Expr::hole(Hole(0)), holes);
    assert!(!is_empty(&inst, &mut store));
}

#[test]
fn dup_crosses_into_visible_state() {
    // `dup` with empty holes: transitions out of the start consume a
    // trace element and land in a visible "1" state with output one.
    let mut store = mk_store();
    let inst = build_inst(&mut store, &Expr::dup(), Filling::new());
    let q = inst.start(&mut store);
    assert_eq!(inst.output(&mut store, &q), store.zero);
    let trans = inst.transitions(&mut store, &q);
    assert_eq!(trans.len(), 1);
    let (spp, target) = trans[0].clone();
    assert_eq!(spp, store.one);
    assert!(inst.is_visible(&mut store, &target));
    assert_eq!(inst.output(&mut store, &target), store.one);
    // The full automaton is non-empty: traces like (input, [input], input).
    assert!(!is_empty(&inst, &mut store));
}

fn top_dfa(store: &SPPstore) -> ExplicitDFA {
    ExplicitDFA {
        start: 0,
        transitions: vec![vec![(store.top, 0)]],
        outputs: vec![store.top],
    }
}

fn zero_dfa(store: &SPPstore) -> ExplicitDFA {
    ExplicitDFA {
        start: 0,
        transitions: vec![vec![]],
        outputs: vec![store.zero],
    }
}

#[test]
fn check_less_than_empty_self_is_ok() {
    let mut store = mk_store();
    let zero = store.zero;
    let inst = build_inst(&mut store, &Expr::spp(zero), Filling::new());
    let ub = zero_dfa(&store);
    assert!(inst.check_less_than(&mut store, &ub).is_ok());
}

#[test]
fn check_less_than_top_upper_bound_is_ok() {
    let mut store = mk_store();
    let top = store.top;
    let inst = build_inst(&mut store, &Expr::spp(top), Filling::new());
    let ub = top_dfa(&store);
    assert!(inst.check_less_than(&mut store, &ub).is_ok());
}

#[test]
fn check_less_than_concrete_violation_returns_err() {
    // self = top (non-empty), upper bound = zero (empty) → violation,
    // no holes to record.
    let mut store = mk_store();
    let top = store.top;
    let inst = build_inst(&mut store, &Expr::spp(top), Filling::new());
    let ub = zero_dfa(&store);
    let result = inst.check_less_than(&mut store, &ub);
    assert!(result.is_err());
    assert_eq!(result.unwrap_err(), vec![]);
}

#[test]
fn check_less_than_hole_in_output_is_recorded() {
    // self = Hole(0) with Hole(0) → top. upper bound = zero.  The
    // violation should record Hole(0) as used in the final output step.
    let mut store = mk_store();
    let top = store.top;
    let mut holes = Filling::new();
    holes.insert(Hole(0), top);
    let inst = build_inst(&mut store, &Expr::hole(Hole(0)), holes);
    let ub = zero_dfa(&store);
    let result = inst.check_less_than(&mut store, &ub);
    let used = result.expect_err("should be a violation");
    assert_eq!(used.len(), 1);
    assert_eq!(used[0].0, Hole(0));
}

#[test]
fn check_less_than_hole_to_zero_is_ok() {
    // self = Hole(0) with Hole(0) → zero (no acceptance).  Even against
    // the zero DFA, containment holds vacuously.
    let mut store = mk_store();
    let zero = store.zero;
    let mut holes = Filling::new();
    holes.insert(Hole(0), zero);
    let inst = build_inst(&mut store, &Expr::hole(Hole(0)), holes);
    let ub = zero_dfa(&store);
    assert!(inst.check_less_than(&mut store, &ub).is_ok());
}

#[test]
fn check_less_than_hole_on_edge_is_recorded() {
    // self = Sequence(Hole(0), Dup, Spp(top)) with Hole(0) → top.
    // Non-empty, upper bound zero → violation.  The trace traverses an
    // abstract edge labeled Hole(0).
    let mut store = mk_store();
    let top = store.top;
    let mut holes = Filling::new();
    holes.insert(Hole(0), top);
    let inst = build_inst(
        &mut store,
        &Expr::sequence(
            Expr::hole(Hole(0)),
            Expr::sequence(Expr::dup(), Expr::spp(top)),
        ),
        holes,
    );
    let ub = zero_dfa(&store);
    let used = inst
        .check_less_than(&mut store, &ub)
        .expect_err("should be a violation");
    assert!(used.iter().any(|(h, _)| *h == Hole(0)));
}
