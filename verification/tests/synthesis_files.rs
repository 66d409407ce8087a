use katch2::expr::{Expr, Hole};
use katch2::holes::parser::{desugar, has_holes, num_fields, parse_program, AssertOp, Stmt};
use katch2::holes::problem::Constraint;

#[test]
fn parses_holes_defs_and_asserts() {
    let src = "\
        hole foo\n\
        hole bar\n\
        def a = x0 := 1\n\
        def b = x0 == 1\n\
        assert a <= b\n\
        assert a == b\n";
    let prog = parse_program(src).expect("should parse");
    assert_eq!(prog.statements.len(), 6);

    assert_eq!(prog.statements[0], Stmt::Hole("foo".to_string()));
    assert_eq!(prog.statements[1], Stmt::Hole("bar".to_string()));

    match &prog.statements[2] {
        Stmt::Def(name, expr) => {
            assert_eq!(name, "a");
            assert_eq!(**expr, Expr::Assign(0, true));
        }
        other => panic!("expected Def, got {other:?}"),
    }

    match &prog.statements[4] {
        Stmt::Assert { lhs, op, rhs } => {
            assert_eq!(*op, AssertOp::Leq);
            assert_eq!(**lhs, Expr::Var("a".to_string()));
            assert_eq!(**rhs, Expr::Var("b".to_string()));
        }
        other => panic!("expected Assert, got {other:?}"),
    }

    match &prog.statements[5] {
        Stmt::Assert { op, .. } => assert_eq!(*op, AssertOp::Eq),
        other => panic!("expected Assert, got {other:?}"),
    }
}

#[test]
fn empty_input_is_empty_program() {
    let prog = parse_program("   \n  // just a comment\n").expect("should parse");
    assert!(prog.statements.is_empty());
}

#[test]
fn assert_with_compound_expressions() {
    let src = "assert (x0 := 1) ; dup <= dup ; (x0 := 1)\n";
    let prog = parse_program(src).expect("should parse");
    assert_eq!(prog.statements.len(), 1);
    match &prog.statements[0] {
        Stmt::Assert { lhs, op, rhs } => {
            assert_eq!(*op, AssertOp::Leq);
            // lhs = (x0 := 1) ; dup
            assert!(matches!(**lhs, Expr::Sequence(_, _)));
            // rhs = dup ; (x0 := 1)
            assert!(matches!(**rhs, Expr::Sequence(_, _)));
        }
        other => panic!("expected Assert, got {other:?}"),
    }
}

#[test]
fn rejects_reserved_letter_as_hole_name() {
    // `X` lexes as the LTL-next operator, not an identifier.
    let result = parse_program("hole X\n");
    assert!(result.is_err());
}

// ---- desugaring tests ----------------------------------------------

#[test]
fn num_fields_takes_max_over_all_expressions() {
    let prog = parse_program(
        "def a = x0 := 1\n\
         def b = x3 := 1\n\
         assert (x1 == 1) <= (x2 == 1)\n",
    )
    .unwrap();
    // x3 := 1 mentions field 3, so 4 fields total.
    assert_eq!(num_fields(&prog), 4);
}

#[test]
fn has_holes_detects_nested_holes() {
    assert!(has_holes(&Expr::Hole(Hole(0))));
    assert!(has_holes(
        &Expr::Sequence(Expr::dup(), Expr::hole(Hole(1)),)
    ));
    assert!(!has_holes(&Expr::Sequence(Expr::dup(), Expr::one())));
}

#[test]
fn desugar_equality_constraint() {
    let prog = parse_program(
        "hole h\n\
         def target = x0 := 1\n\
         assert h == target\n",
    )
    .unwrap();
    let pi = desugar(&prog).unwrap();
    assert_eq!(pi.store.num_vars(), 1);
    assert_eq!(pi.holes, vec![Hole(0)]);
    assert_eq!(pi.constraints.len(), 1);
    assert!(matches!(pi.constraints[0], Constraint::Equality { .. }));
}

#[test]
fn desugar_leq_picks_bound_direction() {
    // Holes on the left → upper bound (lhs[holes] ⊆ rhs).
    let upper = desugar(&parse_program("hole h\nassert h <= (x0 == 1)\n").unwrap()).unwrap();
    assert!(matches!(
        upper.constraints[0],
        Constraint::UpperBound { .. }
    ));

    // Holes on the right → lower bound (lhs ⊆ rhs[holes]).
    let lower = desugar(&parse_program("hole h\nassert (x0 == 1) <= h\n").unwrap()).unwrap();
    assert!(matches!(
        lower.constraints[0],
        Constraint::LowerBound { .. }
    ));
}

#[test]
fn desugar_errors_when_both_sides_have_holes() {
    let prog = parse_program("hole h\nhole g\nassert h <= g\n").unwrap();
    assert!(desugar(&prog).is_err());
}
