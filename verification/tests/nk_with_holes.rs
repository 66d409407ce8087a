use katch2::expr::Hole;
use katch2::holes::nk_with_holes::{AExpr, AutWithHoles, EdgeLabel, Expr};
use katch2::spp::SPPstore;

fn mk_store() -> SPPstore {
    SPPstore::new(3)
}

// ---- hash-consing tests ------

#[test]
fn hash_cons_dedup() {
    let mut store = mk_store();
    let mut aut = AutWithHoles::new();
    let h = Hole(0);
    let a = aut.expr_to_aexpr(&mut store, &Expr::hole(h));
    let b = aut.expr_to_aexpr(&mut store, &Expr::hole(h));
    assert_eq!(a, b);
}

#[test]
fn union_zero_identity() {
    let mut store = mk_store();
    let mut aut = AutWithHoles::new();
    let zero = store.zero;
    let h = aut.expr_to_aexpr(&mut store, &Expr::hole(Hole(0)));
    let z = aut.expr_to_aexpr(&mut store, &Expr::spp(zero));
    assert_eq!(aut.mk_union(&mut store, z, h), h);
    assert_eq!(aut.mk_union(&mut store, h, z), h);
}

#[test]
fn union_idempotent() {
    let mut store = mk_store();
    let mut aut = AutWithHoles::new();
    let h = aut.expr_to_aexpr(&mut store, &Expr::hole(Hole(0)));
    assert_eq!(aut.mk_union(&mut store, h, h), h);
}

#[test]
fn union_combines_spps() {
    let mut store = mk_store();
    let mut aut = AutWithHoles::new();
    let one = store.one;
    let top = store.top;
    let s1 = aut.expr_to_aexpr(&mut store, &Expr::spp(one));
    let s2 = aut.expr_to_aexpr(&mut store, &Expr::spp(top));
    let both = store.union(one, top);
    let expected = aut.mk_spp(both, &store);
    assert_eq!(aut.mk_union(&mut store, s1, s2), expected);
}

#[test]
fn sequence_one_identity() {
    let mut store = mk_store();
    let mut aut = AutWithHoles::new();
    let one = store.one;
    let h = aut.expr_to_aexpr(&mut store, &Expr::hole(Hole(0)));
    let o = aut.expr_to_aexpr(&mut store, &Expr::spp(one));
    assert_eq!(aut.mk_sequence(&mut store, o, h), h);
    assert_eq!(aut.mk_sequence(&mut store, h, o), h);
}

#[test]
fn sequence_zero_absorbs() {
    let mut store = mk_store();
    let mut aut = AutWithHoles::new();
    let zero = store.zero;
    let h = aut.expr_to_aexpr(&mut store, &Expr::hole(Hole(0)));
    let z = aut.expr_to_aexpr(&mut store, &Expr::spp(zero));
    let z_state = aut.mk_spp(zero, &store);
    assert_eq!(aut.mk_sequence(&mut store, z, h), z_state);
    assert_eq!(aut.mk_sequence(&mut store, h, z), z_state);
}

#[test]
fn sequence_collapses_adjacent_spps() {
    let mut store = mk_store();
    let mut aut = AutWithHoles::new();
    let one = store.one;
    let top = store.top;
    let s1 = aut.expr_to_aexpr(&mut store, &Expr::spp(top));
    let s2 = aut.expr_to_aexpr(&mut store, &Expr::spp(one));
    let direct = aut.mk_spp(top, &store);
    assert_eq!(aut.mk_sequence(&mut store, s1, s2), direct);
}

#[test]
fn star_idempotent() {
    let mut store = mk_store();
    let mut aut = AutWithHoles::new();
    let h = aut.expr_to_aexpr(&mut store, &Expr::hole(Hole(0)));
    let s = aut.mk_star(&mut store, h);
    assert_eq!(aut.mk_star(&mut store, s), s);
}

#[test]
fn star_of_spp_uses_store_star() {
    let mut store = mk_store();
    let mut aut = AutWithHoles::new();
    let top = store.top;
    let s = aut.expr_to_aexpr(&mut store, &Expr::spp(top));
    let starred = aut.mk_star(&mut store, s);
    let star = store.star(top);
    let expected = aut.mk_spp(star, &store);
    assert_eq!(starred, expected);
}

#[test]
fn nested_sequences_flatten() {
    let mut store = mk_store();
    let mut aut = AutWithHoles::new();
    let h1 = aut.expr_to_aexpr(&mut store, &Expr::hole(Hole(0)));
    let h2 = aut.expr_to_aexpr(&mut store, &Expr::hole(Hole(1)));
    let h3 = aut.expr_to_aexpr(&mut store, &Expr::hole(Hole(2)));
    let s_l = aut.expr_to_aexpr(
        &mut store,
        &Expr::sequence(
            Expr::sequence(Expr::hole(Hole(0)), Expr::hole(Hole(1))),
            Expr::hole(Hole(2)),
        ),
    );
    let s_r = aut.expr_to_aexpr(
        &mut store,
        &Expr::sequence(
            Expr::hole(Hole(0)),
            Expr::sequence(Expr::hole(Hole(1)), Expr::hole(Hole(2))),
        ),
    );
    assert_eq!(s_l, s_r);
    match aut.get_expr(s_l) {
        AExpr::Sequence(ch) => assert_eq!(ch, &vec![h1, h2, h3]),
        other => panic!("expected Sequence, got {:?}", other),
    }
}

#[test]
fn nested_unions_flatten_and_sort() {
    let mut store = mk_store();
    let mut aut = AutWithHoles::new();
    let h1 = aut.expr_to_aexpr(&mut store, &Expr::hole(Hole(0)));
    let h2 = aut.expr_to_aexpr(&mut store, &Expr::hole(Hole(1)));
    let h3 = aut.expr_to_aexpr(&mut store, &Expr::hole(Hole(2)));
    let s_l = aut.expr_to_aexpr(
        &mut store,
        &Expr::union(
            Expr::union(Expr::hole(Hole(0)), Expr::hole(Hole(1))),
            Expr::hole(Hole(2)),
        ),
    );
    let s_r = aut.expr_to_aexpr(
        &mut store,
        &Expr::union(
            Expr::hole(Hole(0)),
            Expr::union(Expr::hole(Hole(1)), Expr::hole(Hole(2))),
        ),
    );
    assert_eq!(s_l, s_r);
    match aut.get_expr(s_l) {
        AExpr::Union(ch) => {
            let mut sorted = vec![h1, h2, h3];
            sorted.sort();
            assert_eq!(ch, &sorted);
        }
        other => panic!("expected Union, got {:?}", other),
    }
}

// ---- derivative tests ----------------------------------------------

#[test]
fn initial_state_is_visible() {
    let mut store = mk_store();
    let mut aut = AutWithHoles::new();
    let q = aut.expr_to_state(&mut store, &Expr::hole(Hole(0)));
    assert!(aut.is_visible(q));
}

#[test]
fn spp_state_output_and_transitions() {
    let mut store = mk_store();
    let mut aut = AutWithHoles::new();
    let top = store.top;
    let q = aut.expr_to_state(&mut store, &Expr::spp(top));
    assert_eq!(aut.output(&mut store, q), vec![EdgeLabel::Concrete(top)]);
    assert_eq!(aut.transitions(&mut store, q), vec![]);

    // Spp(zero) outputs the empty sum.
    let zero = store.zero;
    let q0 = aut.expr_to_state(&mut store, &Expr::spp(zero));
    assert_eq!(aut.output(&mut store, q0), vec![]);
}

#[test]
fn hole_state_output_and_transitions() {
    let mut store = mk_store();
    let mut aut = AutWithHoles::new();
    let q = aut.expr_to_state(&mut store, &Expr::hole(Hole(7)));
    assert_eq!(
        aut.output(&mut store, q),
        vec![EdgeLabel::Abstract(Hole(7))]
    );
    assert_eq!(aut.transitions(&mut store, q), vec![]);
}

#[test]
fn dup_state_crosses_to_visible_one() {
    let mut store = mk_store();
    let mut aut = AutWithHoles::new();
    let q = aut.expr_to_state(&mut store, &Expr::dup());
    assert_eq!(aut.output(&mut store, q), vec![]);

    let trans = aut.transitions(&mut store, q);
    assert_eq!(trans.len(), 1);
    let (label, target) = trans[0];
    assert_eq!(label, EdgeLabel::Concrete(store.one));
    assert!(target.visible);
    // Target's aexpr is `Spp(one)`.
    let one_aexpr = aut.mk_spp(store.one, &store);
    assert_eq!(target.aexpr, one_aexpr);
}

#[test]
fn union_atomic_summands_in_output() {
    let mut store = mk_store();
    let mut aut = AutWithHoles::new();
    let top = store.top;
    let q = aut.expr_to_state(
        &mut store,
        &Expr::union(Expr::spp(top), Expr::hole(Hole(0))),
    );
    let mut got = aut.output(&mut store, q);
    let mut want = vec![EdgeLabel::Concrete(top), EdgeLabel::Abstract(Hole(0))];
    got.sort_by_key(|l| format!("{:?}", l));
    want.sort_by_key(|l| format!("{:?}", l));
    assert_eq!(got, want);
    assert_eq!(aut.transitions(&mut store, q), vec![]);
}

#[test]
fn sequence_spp_hole_chains_through_invisible() {
    let mut store = mk_store();
    let mut aut = AutWithHoles::new();
    let top = store.top;
    let q = aut.expr_to_state(
        &mut store,
        &Expr::sequence(Expr::spp(top), Expr::hole(Hole(0))),
    );
    // Sequence with mixed Spp/Hole head has empty atomic-output...
    assert_eq!(aut.output(&mut store, q), vec![]);
    // ...and a single concrete-SPP edge into an invisible Hole state.
    let trans = aut.transitions(&mut store, q);
    assert_eq!(trans.len(), 1);
    let (label, target) = trans[0];
    assert_eq!(label, EdgeLabel::Concrete(top));
    assert!(!target.visible);
    let hole_aexpr = aut.mk_hole(Hole(0), &store);
    assert_eq!(target.aexpr, hole_aexpr);
    // Terminating at the hole state yields the abstract summand.
    assert_eq!(
        aut.output(&mut store, target),
        vec![EdgeLabel::Abstract(Hole(0))]
    );
}

#[test]
fn sequence_with_dup_target_is_visible() {
    // `p ; dup ; q`: one concrete-p edge into an invisible "dup ; q",
    // then a concrete-one edge into a visible "q".
    let mut store = mk_store();
    let mut aut = AutWithHoles::new();
    let top = store.top;
    let q = aut.expr_to_state(
        &mut store,
        &Expr::sequence(Expr::spp(top), Expr::sequence(Expr::dup(), Expr::spp(top))),
    );

    let trans = aut.transitions(&mut store, q);
    assert_eq!(trans.len(), 1);
    let (label_1, target_1) = trans[0];
    assert_eq!(label_1, EdgeLabel::Concrete(top));
    assert!(!target_1.visible, "post-Spp target should be invisible");

    let trans_2 = aut.transitions(&mut store, target_1);
    assert_eq!(trans_2.len(), 1);
    let (label_2, target_2) = trans_2[0];
    assert_eq!(label_2, EdgeLabel::Concrete(store.one));
    assert!(target_2.visible, "post-Dup target should be visible");

    // After the dup we're at `Spp(top)` with output [Concrete(top)].
    assert_eq!(
        aut.output(&mut store, target_2),
        vec![EdgeLabel::Concrete(top)]
    );
}

#[test]
fn star_of_hole_self_loops_via_invisible() {
    let mut store = mk_store();
    let mut aut = AutWithHoles::new();
    let q = aut.expr_to_state(&mut store, &Expr::star(Expr::hole(Hole(0))));

    // 0 iterations: identity in the output.
    assert_eq!(
        aut.output(&mut store, q),
        vec![EdgeLabel::Concrete(store.one)]
    );

    // One iteration loops back to the same expression but invisible.
    let trans = aut.transitions(&mut store, q);
    assert_eq!(trans.len(), 1);
    let (label, target) = trans[0];
    assert_eq!(label, EdgeLabel::Abstract(Hole(0)));
    assert!(!target.visible, "self-loop target must be invisible");
    assert_eq!(target.aexpr, q.aexpr);

    // From the invisible variant, output is still the identity and the
    // edge still loops to the invisible variant.
    assert_eq!(
        aut.output(&mut store, target),
        vec![EdgeLabel::Concrete(store.one)]
    );
    let trans_inv = aut.transitions(&mut store, target);
    assert_eq!(trans_inv.len(), 1);
    let (label_inv, target_inv) = trans_inv[0];
    assert_eq!(label_inv, EdgeLabel::Abstract(Hole(0)));
    assert!(!target_inv.visible);
    assert_eq!(target_inv, target);
}

#[test]
fn sequence_with_star_head_skip_captured_in_output() {
    // `(Hole(0))* ; Spp(top)`: the "0 iterations" branch contributes
    // an atomic Concrete(top) to output; the "1+ iterations" branch
    // shows up as an abstract-hole transition into the invisible
    // loop state.
    let mut store = mk_store();
    let mut aut = AutWithHoles::new();
    let top = store.top;
    let q = aut.expr_to_state(
        &mut store,
        &Expr::sequence(Expr::star(Expr::hole(Hole(0))), Expr::spp(top)),
    );

    assert_eq!(
        aut.output(&mut store, q),
        vec![EdgeLabel::Concrete(top)],
        "skip-star + Spp(top) yields the Concrete(top) summand"
    );

    let trans = aut.transitions(&mut store, q);
    // Iterate branch yields an Abstract(H0) edge; the skip branch's
    // delta is empty (Spp targets have no edges).
    assert_eq!(trans.len(), 1);
    let (label, target) = trans[0];
    assert_eq!(label, EdgeLabel::Abstract(Hole(0)));
    assert!(!target.visible);
}

// ---- normal forms -------------------------------------------------------------

#[test]
fn sums_and_products_have_one_index() {
    let mut store = mk_store();
    let mut aut = AutWithHoles::new();
    let (zero, one) = (store.zero, store.one);
    let a = || Expr::hole(Hole(0));
    let b = || Expr::sequence(Expr::dup(), Expr::hole(Hole(1)));
    let c = || Expr::star(Expr::hole(Hole(2)));
    let pairs = vec![
        (Expr::union(a(), b()), Expr::union(b(), a())),
        (Expr::union(Expr::union(a(), b()), c()), Expr::union(a(), Expr::union(b(), c()))),
        (Expr::union(b(), b()), b()),
        (Expr::union(Expr::spp(zero), c()), c()),
        (
            Expr::sequence(Expr::sequence(a(), b()), c()),
            Expr::sequence(a(), Expr::sequence(b(), c())),
        ),
        (Expr::sequence(Expr::spp(one), b()), b()),
        (Expr::sequence(b(), Expr::spp(zero)), Expr::spp(zero)),
        (Expr::star(c()), c()),
    ];
    for (left, right) in pairs {
        let x = aut.expr_to_aexpr(&mut store, &left);
        let y = aut.expr_to_aexpr(&mut store, &right);
        assert_eq!(x, y);
    }
}

#[test]
fn the_product_of_no_expressions_is_the_identity() {
    let mut store = mk_store();
    let mut aut = AutWithHoles::new();
    let one = store.one;
    let none = aut.mk_sequence_n(&mut store, &Vec::new());
    assert_eq!(none, aut.mk_spp(one, &store));
}

#[test]
fn a_repetition_of_skippable_repetitions_loops_through_each_hole() {
    let mut store = mk_store();
    let mut aut = AutWithHoles::new();
    let inner = Expr::sequence(
        Expr::star(Expr::hole(Hole(0))),
        Expr::star(Expr::hole(Hole(1))),
    );
    let q = aut.expr_to_state(&mut store, &Expr::star(inner));
    assert_eq!(aut.output(&mut store, q), vec![EdgeLabel::Concrete(store.one)]);
    let trans = aut.transitions(&mut store, q);
    assert_eq!(trans.len(), 2);
    for h in [Hole(0), Hole(1)] {
        assert!(trans.iter().any(|(l, t)| *l == EdgeLabel::Abstract(h) && !t.visible));
    }
}
